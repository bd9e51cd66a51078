//! The alignment itself: a Smith-Waterman table over pattern rows and
//! choice columns, scored with affine gaps and position bonuses, and a
//! traceback from the best cell of the last row.

use vstd::prelude::*;
use super::atom::{Atom, atom_eq, eq};
use super::banding::{compute_banding, spec_banding, typo_vband_row};
use super::constants::{
    CONSECUTIVE_BONUS, GAP_EXTEND, GAP_OPEN, MATCH_BONUS, MAX_PAT_LEN, MISMATCH_PENALTY,
    TYPO_PENALTY,
};
use super::helpers::{
    bound_hi, bound_lo, embeds, greedy_first, greedy_last, lemma_greedy_first_bounds, lemma_greedy_first_leftmost,
    lemma_greedy_last_bounds, lemma_greedy_last_rightmost, max_int, min_int,
};
use super::matrix::{Cell, Dir, SWMatrix, cell_zero, dir_from_code, dir_of_code, is_blank};

verus! {

/// Score and direction of one cell from its diagonal, upper and left
/// neighbours: a match extends the diagonal with a bonus (doubled on the
/// first pattern row, raised after a diagonal step), a gap to the left costs
/// `GAP_OPEN` after a diagonal step and `GAP_EXTEND` otherwise; with typos a
/// mismatch on the diagonal and a skipped pattern element cost penalties.
/// A cell whose best score is not positive has no direction.
pub open spec fn cell_spec(
    allow_typos: bool,
    is_match: bool,
    is_first: bool,
    bonus_j: int,
    diag_score: int,
    diag_was_diag: bool,
    up_score: int,
    left_score: int,
    left_was_diag: bool,
) -> (int, Dir) {
    let base = bonus_j + if diag_was_diag {
        CONSECUTIVE_BONUS as int
    } else {
        0
    };
    let bonus = if is_first {
        2 * base
    } else {
        base
    };
    let match_val = if is_match {
        diag_score + MATCH_BONUS + bonus
    } else {
        0
    };
    let mismatch_val = if allow_typos && !is_match {
        diag_score - MISMATCH_PENALTY
    } else {
        0
    };
    let diag_val = match_val + mismatch_val;
    let up_val = if allow_typos {
        up_score - TYPO_PENALTY
    } else {
        0
    };
    let left_val = left_score - if left_was_diag {
        GAP_OPEN as int
    } else {
        GAP_EXTEND as int
    };
    let best = max_int(max_int(diag_val, up_val), left_val);
    let diag_wins = if allow_typos {
        diag_val >= up_val && diag_val >= left_val
    } else {
        is_match && diag_val >= left_val
    };
    let up_wins = allow_typos && !diag_wins && up_val >= left_val;
    let dir = if best > 0 {
        if diag_wins {
            Dir::Diag
        } else if up_wins {
            Dir::Up
        } else {
            Dir::Left
        }
    } else {
        Dir::Stop
    };
    (best, dir)
}

/// Core cell scoring kernel.
pub fn compute_cell(
    allow_typos: bool,
    is_match: bool,
    is_first: bool,
    bonus_j: i16,
    diag_score: i16,
    diag_was_diag: bool,
    up_score: i16,
    left_score: i16,
    left_was_diag: bool,
) -> (r: (i16, Dir))
    requires
        0 <= bonus_j <= 32,
        -30000 <= diag_score <= 30000,
        -30000 <= up_score <= 30000,
        -30000 <= left_score <= 30000,
    ensures
        (r.0 as int, r.1) == cell_spec(
            allow_typos,
            is_match,
            is_first,
            bonus_j as int,
            diag_score as int,
            diag_was_diag,
            up_score as int,
            left_score as int,
            left_was_diag,
        ),
{
    let dwd: i16 = if diag_was_diag {
        1
    } else {
        0
    };
    let first: i16 = if is_first {
        1
    } else {
        0
    };
    let im: i16 = if is_match {
        1
    } else {
        0
    };
    let lwd: i16 = if left_was_diag {
        1
    } else {
        0
    };
    let base = bonus_j + CONSECUTIVE_BONUS * dwd;
    let bonus = if first == 1 {
        base * 2
    } else {
        base
    };
    let match_val = if im == 1 {
        diag_score + MATCH_BONUS + bonus
    } else {
        0
    };
    let mismatch_val = if allow_typos && im == 0 {
        diag_score - MISMATCH_PENALTY
    } else {
        0
    };
    let diag_val = match_val + mismatch_val;
    let up_val = if allow_typos {
        up_score - TYPO_PENALTY
    } else {
        0
    };
    let left_val = left_score - (GAP_EXTEND + (GAP_OPEN - GAP_EXTEND) * lwd);
    assert(GAP_EXTEND + (GAP_OPEN - GAP_EXTEND) * lwd == if left_was_diag {
        GAP_OPEN
    } else {
        GAP_EXTEND
    });
    let best0 = if diag_val >= up_val {
        diag_val
    } else {
        up_val
    };
    let best = if best0 >= left_val {
        best0
    } else {
        left_val
    };

    let diag_wins = if allow_typos {
        diag_val >= up_val && diag_val >= left_val
    } else {
        is_match && diag_val >= left_val
    };
    let up_wins = allow_typos && !diag_wins && up_val >= left_val;

    let uw: u8 = if up_wins {
        1
    } else {
        0
    };
    let dw: u8 = if diag_wins {
        1
    } else {
        0
    };
    let dir_bits: u8 = 3 - uw - dw * 2;
    let positive = best > 0;
    let mask: u8 = if positive {
        255
    } else {
        0
    };
    let dir_val = dir_bits & mask;
    proof {
        assert(dir_bits & 255u8 == dir_bits) by (bit_vector);
        assert(dir_bits & 0u8 == 0u8) by (bit_vector);
    }
    let dir = dir_from_code(dir_val as u32);
    (best, dir)
}

/// The DP over one pattern and choice; `jf` is the first band column.
pub struct Dp<C> {
    pub pat: Seq<C>,
    pub cho: Seq<C>,
    pub bon: Seq<i16>,
    pub rc: bool,
    pub jf: int,
}

impl<C: Atom> Dp<C> {
    /// Cell `(i, j)`: pattern row `i`, choice column `j` (both 1-based).
    /// Row 0, and the columns of row `i` before `i + jf - 1`, are zero.
    pub open spec fn sw(self, i: int, j: int) -> (int, Dir)
        decreases i, j,
    {
        if i <= 0 || j < 1 || j < i + self.jf - 1 || j > self.cho.len() || i > self.pat.len() {
            (0, Dir::Stop)
        } else {
            let d = self.sw(i - 1, j - 1);
            let l = self.sw(i, j - 1);
            cell_spec(
                false,
                atom_eq(self.pat[i - 1], self.cho[j - 1], self.rc),
                i == 1,
                self.bon[j - 1] as int,
                d.0,
                d.1 == Dir::Diag,
                0,
                l.0,
                l.1 == Dir::Diag,
            )
        }
    }

    /// Best score of the last row over columns `lo..j` and its column: the
    /// first maximum, or with `use_last` the last positive maximum.
    pub open spec fn best_upto(self, use_last: bool, lo: int, j: int) -> (int, int)
        decreases j - lo,
    {
        if j <= lo {
            (0, 0)
        } else {
            let (bs, bj) = self.best_upto(use_last, lo, j - 1);
            let s = self.sw(self.pat.len() as int, j - 1).0;
            let better = if use_last {
                s >= bs && s > 0
            } else {
                s > bs
            };
            if better {
                (s, j - 1)
            } else {
                (bs, bj)
            }
        }
    }

    /// Traceback from `(i, j)`: the matched choice indices (ascending) and
    /// how many there are.
    pub open spec fn trace(self, i: int, j: int) -> (Seq<usize>, nat)
        decreases i + j,
    {
        if i > 0 && j >= self.jf && self.jf >= 1 {
            match self.sw(i, j).1 {
                Dir::Diag => {
                    let (s, t) = self.trace(i - 1, j - 1);
                    if atom_eq(self.pat[i - 1], self.cho[j - 1], self.rc) {
                        (s.push((j - 1) as usize), t + 1)
                    } else {
                        (s, t)
                    }
                },
                Dir::Up => self.trace(i - 1, j),
                Dir::Left => self.trace(i, j - 1),
                Dir::Stop => (Seq::empty(), 0),
            }
        } else {
            (Seq::empty(), 0)
        }
    }

    pub open spec fn bonuses_ok(self) -> bool {
        &&& self.bon.len() == self.cho.len()
        &&& forall|k: int| 0 <= k < self.bon.len() ==> 0 <= #[trigger] self.bon[k] <= 22
    }

    pub proof fn lemma_sw_bounds(self, i: int, j: int)
        requires
            self.bonuses_ok(),
            self.jf >= 1,
            i >= 0,
        ensures
            0 <= self.sw(i, j).0 <= 84 * i,
        decreases i, j,
    {
        if i <= 0 || j < 1 || j < i + self.jf - 1 || j > self.cho.len() || i > self.pat.len() {
        } else {
            self.lemma_sw_bounds(i - 1, j - 1);
            self.lemma_sw_bounds(i, j - 1);
            assert(0 <= self.bon[j - 1] <= 22);
        }
    }

    pub proof fn lemma_best_bounds(self, use_last: bool, lo: int, j: int)
        ensures
            self.best_upto(use_last, lo, j).0 > 0 ==> lo <= self.best_upto(use_last, lo, j).1 < j,
            self.best_upto(use_last, lo, j).0 >= 0,
        decreases j - lo,
    {
        if j > lo {
            self.lemma_best_bounds(use_last, lo, j - 1);
        }
    }

    pub proof fn lemma_best_is_cell(self, use_last: bool, lo: int, j: int)
        ensures
            self.best_upto(use_last, lo, j).0 > 0 ==> self.best_upto(use_last, lo, j).0 == self.sw(
                self.pat.len() as int,
                self.best_upto(use_last, lo, j).1,
            ).0,
        decreases j - lo,
    {
        if j > lo {
            self.lemma_best_is_cell(use_last, lo, j - 1);
        }
    }

    pub proof fn lemma_best_ge(self, use_last: bool, lo: int, j: int, c: int)
        requires
            lo <= c < j,
        ensures
            self.best_upto(use_last, lo, j).0 >= self.sw(self.pat.len() as int, c).0,
        decreases j - lo,
    {
        self.lemma_best_bounds(use_last, lo, j - 1);
        if c < j - 1 {
            self.lemma_best_ge(use_last, lo, j - 1, c);
        }
        let prev = self.best_upto(use_last, lo, j - 1);
        let sj = self.sw(self.pat.len() as int, j - 1).0;
        assert(sj >= 0);
        assert(self.best_upto(use_last, lo, j).0 >= prev.0);
        assert(self.best_upto(use_last, lo, j).0 >= sj);
    }

    /// A cell with a positive score traces back to at least one match.
    pub proof fn lemma_trace_nonempty(self, i: int, j: int)
        requires
            self.jf >= 1,
            i >= 1,
            self.sw(i, j).0 > 0,
        ensures
            self.trace(i, j).1 >= 1,
        decreases j,
    {
        let l = self.sw(i, j - 1);
        if self.sw(i, j).1 == Dir::Left {
            assert(l.0 > 0);
            self.lemma_trace_nonempty(i, j - 1);
        }
    }

    /// Traced indices line up with the pattern's tail ending at row `i`.
    pub proof fn lemma_trace_aligned(self, i: int, j: int)
        requires
            j <= self.cho.len(),
            i <= self.pat.len(),
            j <= usize::MAX,
        ensures
            forall|k: int|
                0 <= k < self.trace(i, j).0.len() ==> atom_eq(
                    self.pat[i - self.trace(i, j).0.len() + k],
                    self.cho[#[trigger] self.trace(i, j).0[k] as int],
                    self.rc,
                ),
        decreases i + j,
    {
        self.lemma_trace(i, j);
        if i > 0 && j >= self.jf && self.jf >= 1 {
            match self.sw(i, j).1 {
                Dir::Diag => {
                    self.lemma_trace_aligned(i - 1, j - 1);
                    self.lemma_trace(i - 1, j - 1);
                    let (s, t) = self.trace(i - 1, j - 1);
                    assert(atom_eq(self.pat[i - 1], self.cho[j - 1], self.rc));
                    let s2 = self.trace(i, j).0;
                    assert(s2 == s.push((j - 1) as usize));
                    assert forall|k: int| 0 <= k < s2.len() implies atom_eq(
                        self.pat[i - s2.len() + k],
                        self.cho[#[trigger] s2[k] as int],
                        self.rc,
                    ) by {
                        if k < s.len() {
                            assert(s2[k] == s[k]);
                        } else {
                            assert(k == s.len());
                            assert(s2[k] as int == j - 1);
                            assert(i - s2.len() + k == i - 1);
                        }
                    }
                },
                Dir::Left => {
                    self.lemma_trace_aligned(i, j - 1);
                    assert(self.trace(i, j) == self.trace(i, j - 1));
                },
                Dir::Up => {
                    assert(false);
                },
                Dir::Stop => {},
            }
        }
    }
}

impl<C: Atom> Dp<C> {
    /// The traceback's indices ascend, stay below `j`, and each is a choice
    /// element that matches a pattern element above row `i`; there are `t`
    /// of them, at most `i`.
    pub proof fn lemma_trace(self, i: int, j: int)
        requires
            j <= self.cho.len(),
            i <= self.pat.len(),
            j <= usize::MAX,
        ensures
            self.trace(i, j).0.len() == self.trace(i, j).1,
            self.trace(i, j).1 <= if i > 0 { i } else { 0 },
            forall|a: int, b: int|
                0 <= a < b < self.trace(i, j).0.len() ==> #[trigger] self.trace(i, j).0[a] < #[trigger] self.trace(
                    i,
                    j,
                ).0[b],
            forall|k: int|
                0 <= k < self.trace(i, j).0.len() ==> #[trigger] self.trace(i, j).0[k] < j && exists|p: int|
                    0 <= p < i && atom_eq(self.pat[p], self.cho[self.trace(i, j).0[k] as int], self.rc),
        decreases i + j,
    {
        if i > 0 && j >= self.jf && self.jf >= 1 {
            match self.sw(i, j).1 {
                Dir::Diag => {
                    self.lemma_trace(i - 1, j - 1);
                    let (s, t) = self.trace(i - 1, j - 1);
                    if atom_eq(self.pat[i - 1], self.cho[j - 1], self.rc) {
                        let s2 = s.push((j - 1) as usize);
                        assert forall|k: int| 0 <= k < s2.len() implies #[trigger] s2[k] < j && exists|p: int|
                            0 <= p < i && atom_eq(self.pat[p], self.cho[s2[k] as int], self.rc) by {
                            if k < s.len() {
                                assert(s2[k] == s[k]);
                                let p = choose|p: int| 0 <= p < i - 1 && atom_eq(self.pat[p], self.cho[s[k] as int], self.rc);
                                assert(0 <= p < i);
                            } else {
                                assert(atom_eq(self.pat[i - 1], self.cho[s2[k] as int], self.rc));
                            }
                        }
                    } else {
                        assert forall|k: int| 0 <= k < s.len() implies #[trigger] s[k] < j && exists|p: int|
                            0 <= p < i && atom_eq(self.pat[p], self.cho[s[k] as int], self.rc) by {
                            let p = choose|p: int| 0 <= p < i - 1 && atom_eq(self.pat[p], self.cho[s[k] as int], self.rc);
                            assert(0 <= p < i);
                        }
                    }
                },
                Dir::Up => {
                    self.lemma_trace(i - 1, j);
                    let (s, t) = self.trace(i - 1, j);
                    assert forall|k: int| 0 <= k < s.len() implies #[trigger] s[k] < j && exists|p: int|
                        0 <= p < i && atom_eq(self.pat[p], self.cho[s[k] as int], self.rc) by {
                        let p = choose|p: int| 0 <= p < i - 1 && atom_eq(self.pat[p], self.cho[s[k] as int], self.rc);
                        assert(0 <= p < i);
                    }
                },
                Dir::Left => {
                    self.lemma_trace(i, j - 1);
                },
                Dir::Stop => {},
            }
        }
    }
}

/// A match found by the table search has a positive score and at least one
/// index; its indices ascend, lie in the choice, and line up with the
/// pattern's tail: the last index matches the last pattern element, and so on
/// backwards.
pub proof fn lemma_full_dp_indices<C: Atom>(
    cho: Seq<C>,
    pat: Seq<C>,
    bonuses: Seq<i16>,
    respect_case: bool,
    use_last_match: bool,
)
    requires
        cho.len() <= usize::MAX,
    ensures
        spec_full_dp(true, cho, pat, bonuses, respect_case, use_last_match) matches Some(r) ==> {
            &&& r.0 > 0
            &&& r.1.len() <= pat.len()
            &&& forall|a: int, b: int| 0 <= a < b < r.1.len() ==> #[trigger] r.1[a] < #[trigger] r.1[b]
            &&& forall|k: int|
                0 <= k < r.1.len() ==> #[trigger] r.1[k] < cho.len() && exists|p: int|
                    0 <= p < pat.len() && atom_eq(pat[p], cho[r.1[k] as int], respect_case)
            &&& r.1.len() >= 1
            &&& forall|k: int|
                0 <= k < r.1.len() ==> atom_eq(
                    pat[pat.len() - r.1.len() + k],
                    cho[#[trigger] r.1[k] as int],
                    respect_case,
                )
        },
{
    match spec_banding(false, pat, cho, respect_case) {
        None => {},
        Some(b) => {
            let n = pat.len() as int;
            let dp = Dp { pat: pat, cho: cho, bon: bonuses, rc: respect_case, jf: b.j_first };
            let lo_hi = b.row_bounds->Some_0;
            let last_lo = max_int(lo_hi.0[n - 1], b.j_first);
            let last_hi = lo_hi.1[n - 1];
            let (bs, bj) = dp.best_upto(use_last_match, last_lo, last_hi + 1);
            dp.lemma_best_bounds(use_last_match, last_lo, last_hi + 1);
            dp.lemma_best_is_cell(use_last_match, last_lo, last_hi + 1);
            lemma_greedy_first_bounds(pat, cho, respect_case, n as nat);
            if bs > 0 && 0 <= bj <= cho.len() {
                dp.lemma_trace(n, bj);
                dp.lemma_trace_aligned(n, bj);
                dp.lemma_trace_nonempty(n, bj);
            }
        },
    }
}

/// What the DP returns: no match when the pattern is no subsequence of the
/// choice (or longer than `MAX_PAT_LEN`) or the best last-row score is not
/// positive; otherwise the best score, and with `compute_indices` the
/// traceback's matched indices.
pub open spec fn spec_full_dp<C: Atom>(
    compute_indices: bool,
    cho: Seq<C>,
    pat: Seq<C>,
    bonuses: Seq<i16>,
    respect_case: bool,
    use_last_match: bool,
) -> Option<(int, Seq<usize>)> {
    match spec_banding(false, pat, cho, respect_case) {
        None => None,
        Some(b) => {
            let n = pat.len() as int;
            let dp = Dp { pat: pat, cho: cho, bon: bonuses, rc: respect_case, jf: b.j_first };
            let lo_hi = b.row_bounds->Some_0;
            let last_lo = max_int(lo_hi.0[n - 1], b.j_first);
            let last_hi = lo_hi.1[n - 1];
            let (bs, bj) = dp.best_upto(use_last_match, last_lo, last_hi + 1);
            if bs <= 0 {
                None
            } else if compute_indices {
                let (idx, tm) = dp.trace(n, bj);
                if tm < b.min_true_matches {
                    None
                } else {
                    Some((bs, idx))
                }
            } else {
                Some((bs, Seq::empty()))
            }
        },
    }
}

proof fn lemma_ascending_gap(f: Seq<int>, i: int)
    requires
        0 <= i < f.len(),
        forall|t: int| 0 < t < f.len() ==> f[t - 1] < #[trigger] f[t],
    ensures
        f[0] + i <= f[i],
    decreases i,
{
    if i > 0 {
        lemma_ascending_gap(f, i - 1);
        assert(f[i - 1] < f[i]);
    }
}

/// Wherever the pattern (of at most `MAX_PAT_LEN` elements) can be placed
/// in the choice in order, the table search finds a match.
pub proof fn law_subsequence_matches<C: Atom>(
    compute_indices: bool,
    cho: Seq<C>,
    pat: Seq<C>,
    bonuses: Seq<i16>,
    respect_case: bool,
    use_last_match: bool,
    cols: Seq<int>,
)
    requires
        1 <= pat.len() <= MAX_PAT_LEN,
        bonuses.len() == cho.len(),
        forall|k: int| 0 <= k < bonuses.len() ==> 0 <= #[trigger] bonuses[k] <= 22,
        embeds(pat, cho, respect_case, cols, pat.len() as int),
    ensures
        spec_full_dp(compute_indices, cho, pat, bonuses, respect_case, use_last_match) is Some,
{
    let n = pat.len() as int;
    let m = cho.len() as int;
    lemma_greedy_first_leftmost(pat, cho, respect_case, cols, n as nat);
    lemma_greedy_last_rightmost(pat, cho, respect_case, cols, n as nat);
    lemma_greedy_first_bounds(pat, cho, respect_case, n as nat);
    lemma_greedy_last_bounds(pat, cho, respect_case, n as nat);
    let f = greedy_first(pat, cho, respect_case, n as nat)->Some_0;
    let l = greedy_last(pat, cho, respect_case, n as nat)->Some_0;
    assert(f[n - 1] <= cols[n - 1]);
    assert(l[n - 1] >= cols[n - n + (n - 1)]);
    lemma_ascending_gap(f, n - 1);
    let b = spec_banding(false, pat, cho, respect_case)->Some_0;
    assert(spec_banding(false, pat, cho, respect_case) is Some);
    let dp = Dp { pat: pat, cho: cho, bon: bonuses, rc: respect_case, jf: b.j_first };
    assert(b.j_first == f[0]);
    let lo_hi = b.row_bounds->Some_0;
    let last_lo = max_int(lo_hi.0[n - 1], b.j_first);
    let last_hi = lo_hi.1[n - 1];
    assert(lo_hi.0[n - 1] == bound_lo(f, l, m, n - 1));
    assert(lo_hi.1[n - 1] == bound_hi(f, l, m, n - 1));
    let c = f[n - 1];
    assert(last_lo <= c <= last_hi);
    dp.lemma_sw_bounds(n - 1, c - 1);
    assert(0 <= dp.bon[c - 1]);
    assert(dp.sw(n, c).0 > 0);
    dp.lemma_best_ge(use_last_match, last_lo, last_hi + 1, c);
}

/// The table search finds a match exactly when the pattern has at most
/// `MAX_PAT_LEN` elements and can be placed in the choice in order; a longer
/// pattern never matches.
pub proof fn law_full_dp_iff_embeds<C: Atom>(
    compute_indices: bool,
    cho: Seq<C>,
    pat: Seq<C>,
    bonuses: Seq<i16>,
    respect_case: bool,
    use_last_match: bool,
)
    requires
        pat.len() >= 1,
        bonuses.len() == cho.len(),
        forall|k: int| 0 <= k < bonuses.len() ==> 0 <= #[trigger] bonuses[k] <= 22,
    ensures
        spec_full_dp(compute_indices, cho, pat, bonuses, respect_case, use_last_match) is Some <==> (pat.len()
            <= MAX_PAT_LEN && exists|cols: Seq<int>| embeds(pat, cho, respect_case, cols, pat.len() as int)),
{
    let n = pat.len();
    if spec_full_dp(compute_indices, cho, pat, bonuses, respect_case, use_last_match) is Some {
        assert(spec_banding(false, pat, cho, respect_case) is Some);
        assert(n <= MAX_PAT_LEN);
        assert(greedy_first(pat, cho, respect_case, n) is Some);
        lemma_greedy_first_bounds(pat, cho, respect_case, n);
        let f = greedy_first(pat, cho, respect_case, n)->Some_0;
        assert forall|i: int| 0 < i < n implies f[i - 1] < #[trigger] f[i] by {}
        assert(embeds(pat, cho, respect_case, f, n as int));
    }
    if n <= MAX_PAT_LEN && exists|cols: Seq<int>| embeds(pat, cho, respect_case, cols, pat.len() as int) {
        let cols = choose|cols: Seq<int>| embeds(pat, cho, respect_case, cols, pat.len() as int);
        law_subsequence_matches(compute_indices, cho, pat, bonuses, respect_case, use_last_match, cols);
    }
}

pub open spec fn cell_val(c: Cell) -> (int, Dir) {
    (c.spec_score() as int, c.spec_dir())
}

/// Rows before `row`, and row `row` before column `col`, hold the DP; the
/// rest is blank.
pub open spec fn filled<C: Atom>(dp: Dp<C>, buf: SWMatrix, col_off: int, row: int, col: int) -> bool {
    forall|i2: int, jm2: int|
        0 <= i2 < buf.rows && 0 <= jm2 < buf.cols ==> #[trigger] cell_val(buf.at(i2, jm2)) == if i2
            < row || (i2 == row && jm2 < col) {
            dp.sw(i2, jm2 + col_off)
        } else {
            (0int, Dir::Stop)
        }
}

pub proof fn lemma_filled_set<C: Atom>(
    dp: Dp<C>,
    b0: SWMatrix,
    b1: SWMatrix,
    col_off: int,
    row: int,
    col: int,
    i: int,
    jm: int,
    next_col: int,
)
    requires
        filled(dp, b0, col_off, row, col),
        b1.rows == b0.rows,
        b1.cols == b0.cols,
        0 <= i < b0.rows,
        0 <= jm < b0.cols,
        forall|i2: int, j2: int|
            0 <= i2 < b1.rows && 0 <= j2 < b1.cols && (i2 != i || j2 != jm) ==> #[trigger] b1.at(i2, j2)
                == b0.at(i2, j2),
        next_col == col || (next_col == col + 1 && i == row && jm == col),
        cell_val(b1.at(i, jm)) == if i < row || (i == row && jm < next_col) {
            dp.sw(i, jm + col_off)
        } else {
            (0int, Dir::Stop)
        },
    ensures
        filled(dp, b1, col_off, row, next_col),
{
    assert forall|i2: int, jm2: int|
        0 <= i2 < b1.rows && 0 <= jm2 < b1.cols implies #[trigger] cell_val(b1.at(i2, jm2)) == if i2
        < row || (i2 == row && jm2 < next_col) {
        dp.sw(i2, jm2 + col_off)
    } else {
        (0int, Dir::Stop)
    } by {
        if i2 != i || jm2 != jm {
            assert(b1.at(i2, jm2) == b0.at(i2, jm2));
            assert(cell_val(b0.at(i2, jm2)) == if i2 < row || (i2 == row && jm2 < col) {
                dp.sw(i2, jm2 + col_off)
            } else {
                (0int, Dir::Stop)
            });
        }
    }
}

/// Widen the filled part of row `row` over columns whose DP cells are zero.
pub proof fn lemma_filled_extend<C: Atom>(dp: Dp<C>, b: SWMatrix, col_off: int, row: int, col: int, col2: int)
    requires
        filled(dp, b, col_off, row, col),
        col <= col2,
        forall|jm2: int| col <= jm2 < col2 ==> #[trigger] dp.sw(row, jm2 + col_off) == (0int, Dir::Stop),
    ensures
        filled(dp, b, col_off, row, col2),
{
    assert forall|i2: int, jm2: int|
        0 <= i2 < b.rows && 0 <= jm2 < b.cols implies #[trigger] cell_val(b.at(i2, jm2)) == if i2
        < row || (i2 == row && jm2 < col2) {
        dp.sw(i2, jm2 + col_off)
    } else {
        (0int, Dir::Stop)
    } by {
        if i2 == row && col <= jm2 < col2 {
            assert(dp.sw(row, jm2 + col_off) == (0int, Dir::Stop));
        }
    }
}

/// Write a blank cell where the table should hold zero.
fn zero_at<C: Atom>(
    buf: &mut SWMatrix,
    i: usize,
    jm: usize,
    Ghost(dp): Ghost<Dp<C>>,
    Ghost(col_off): Ghost<int>,
    Ghost(row): Ghost<int>,
    Ghost(col): Ghost<int>,
)
    requires
        old(buf).wf(),
        i < old(buf).rows,
        jm < old(buf).cols,
        filled(dp, *old(buf), col_off, row, col),
        (i < row || (i == row && jm < col)) ==> dp.sw(i as int, jm + col_off) == (0int, Dir::Stop),
    ensures
        final(buf).wf(),
        final(buf).rows == old(buf).rows,
        final(buf).cols == old(buf).cols,
        is_blank(final(buf).at(i as int, jm as int)),
        forall|i2: int, j2: int|
            0 <= i2 < final(buf).rows && 0 <= j2 < final(buf).cols && (i2 != i || j2 != jm)
                ==> #[trigger] final(buf).at(i2, j2) == old(buf).at(i2, j2),
        filled(dp, *final(buf), col_off, row, col),
{
    let ghost b0 = *buf;
    buf.set(i, jm, cell_zero());
    proof {
        lemma_filled_set(dp, b0, *buf, col_off, row, col, i as int, jm as int, col);
    }
}

/// Fill row `i` over its band `j_lo..=m`.
fn fill_row<C: Atom>(
    buf: &mut SWMatrix,
    cho: &[C],
    pat: &[C],
    bonuses: &[i16],
    respect_case: bool,
    i: usize,
    j_lo: usize,
    col_off: usize,
    Ghost(dp): Ghost<Dp<C>>,
)
    requires
        old(buf).wf(),
        old(buf).rows == pat@.len() + 1,
        old(buf).cols == cho@.len() - col_off + 1,
        dp.pat == pat@,
        dp.cho == cho@,
        dp.bon == bonuses@,
        dp.rc == respect_case,
        dp.jf == col_off + 1,
        dp.bonuses_ok(),
        pat@.len() <= MAX_PAT_LEN,
        1 <= i <= pat@.len(),
        j_lo == i + col_off,
        col_off < j_lo <= cho@.len(),
        cho@.len() < usize::MAX,
        filled(dp, *old(buf), col_off as int, i as int, (j_lo - col_off) as int),
    ensures
        final(buf).wf(),
        final(buf).rows == old(buf).rows,
        final(buf).cols == old(buf).cols,
        filled(dp, *final(buf), col_off as int, i as int + 1, 0),
{
    let m = cho.len();
    let pi = pat[i - 1];
    let is_first = i == 1;
    let mut j = j_lo;
    while j <= m
        invariant
            buf.wf(),
            buf.rows == pat@.len() + 1,
            buf.cols == cho@.len() - col_off + 1,
            m == cho@.len(),
            m < usize::MAX,
            dp.pat == pat@,
            dp.cho == cho@,
            dp.bon == bonuses@,
            dp.rc == respect_case,
            dp.jf == col_off + 1,
            dp.bonuses_ok(),
            pat@.len() <= MAX_PAT_LEN,
            1 <= i <= pat@.len(),
            pi == pat@[i - 1],
            is_first == (i == 1),
            j_lo == i + col_off,
            col_off < j_lo <= j <= m + 1,
            filled(dp, *buf, col_off as int, i as int, (j - col_off) as int),
        decreases m + 1 - j,
    {
        let jm = j - col_off;
        let cj = cho[j - 1];
        let is_match = eq(pi, cj, respect_case);
        let diag_cell = buf.get(i - 1, jm - 1);
        let up_score: i16 = 0;
        let left_cell = buf.get(i, jm - 1);
        proof {
            dp.lemma_sw_bounds((i - 1) as int, (j - 1) as int);
            dp.lemma_sw_bounds(i as int, (j - 1) as int);
            assert(cell_val(diag_cell) == dp.sw((i - 1) as int, (j - 1) as int));
            assert(cell_val(left_cell) == dp.sw(i as int, (j - 1) as int));
            assert(0 <= bonuses@[j - 1] <= 22);
        }
        let (best, dir) = compute_cell(
            false,
            is_match,
            is_first,
            bonuses[j - 1],
            diag_cell.score(),
            diag_cell.is_diag(),
            up_score,
            left_cell.score(),
            left_cell.is_diag(),
        );
        let ghost b0 = *buf;
        let c = Cell::new(best, dir);
        buf.set(i, jm, c);
        proof {
            assert(cell_val(c) == dp.sw(i as int, j as int));
            lemma_filled_set(
                dp,
                b0,
                *buf,
                col_off as int,
                i as int,
                jm as int,
                i as int,
                jm as int,
                jm + 1,
            );
        }
        j += 1;
    }
}

pub proof fn lemma_bounds_range(f: Seq<int>, l: Seq<int>, m: int, i: int)
    requires
        m >= 1,
    ensures
        1 <= bound_lo(f, l, m, i) <= bound_hi(f, l, m, i) <= m,
{
}

/// Full DP for byte or char slices.
pub fn full_dp<C: Atom>(
    compute_indices: bool,
    cho: &[C],
    pat: &[C],
    bonuses: &[i16],
    respect_case: bool,
    use_last_match: bool,
) -> (r: Option<(i16, Vec<usize>)>)
    requires
        pat@.len() >= 1,
        cho@.len() <= usize::MAX / 64,
        cho@.len() > 0 ==> bonuses@.len() == cho@.len(),
        forall|k: int| 0 <= k < bonuses@.len() ==> 0 <= #[trigger] bonuses@[k] <= 22,
    ensures
        match r {
            None => spec_full_dp(compute_indices, cho@, pat@, bonuses@, respect_case, use_last_match) is None,
            Some((s, v)) => spec_full_dp(compute_indices, cho@, pat@, bonuses@, respect_case, use_last_match)
                == Some((s as int, v@)),
        },
{
    if cho.len() == 0 {
        proof {
            lemma_greedy_first_bounds(pat@, cho@, respect_case, pat@.len());
            assert(greedy_first(pat@, cho@, respect_case, pat@.len()) is None) by {
                if greedy_first(pat@, cho@, respect_case, pat@.len()) is Some {
                    let f = greedy_first(pat@, cho@, respect_case, pat@.len())->Some_0;
                    assert(1 <= f[0] <= cho@.len());
                }
            }
        }
        return None;
    }
    let n = pat.len();
    let m = cho.len();

    let banding = match compute_banding(false, pat, cho, respect_case) {
        Some(b) => b,
        None => {
            return None;
        },
    };
    proof {
        lemma_greedy_first_bounds(pat@, cho@, respect_case, n as nat);
    }
    let ghost bm = spec_banding(false, pat@, cho@, respect_case)->Some_0;
    let ghost f = greedy_first(pat@, cho@, respect_case, n as nat)->Some_0;
    let ghost l = greedy_last(pat@, cho@, respect_case, n as nat)->Some_0;
    let j_start = banding.j_first;
    assert(j_start as int == f[0]);
    let col_off = j_start - 1;
    let mcols = m - col_off + 1;
    proof {
        assert((n + 1) * mcols <= usize::MAX) by (nonlinear_arith)
            requires
                n <= 32,
                mcols <= m + 1,
                m <= usize::MAX / 64,
        ;
    }
    let mut buf = SWMatrix::zero(n + 1, mcols);
    buf.resize(n + 1, mcols);
    let ghost dp = Dp { pat: pat@, cho: cho@, bon: bonuses@, rc: respect_case, jf: j_start as int };
    assert(dp.bonuses_ok());
    assert forall|i2: int, jm2: int| 0 <= i2 < buf.rows && 0 <= jm2 < buf.cols implies #[trigger] cell_val(
        buf.at(i2, jm2),
    ) == (0int, Dir::Stop) by {
        super::matrix::lemma_index_in_bounds(i2, jm2, buf.rows as int, buf.cols as int);
        assert(is_blank(buf.data@[i2 * buf.cols + jm2]));
    }
    assert(filled(dp, buf, col_off as int, 0, 0));
    proof {
        lemma_filled_extend(dp, buf, col_off as int, 0, 0, mcols as int);
    }
    assert(filled(dp, buf, col_off as int, 1, 0));

    let mut k: usize = 0;
    while k < mcols
        invariant
            buf.wf(),
            buf.rows == n + 1,
            buf.cols == mcols,
            k <= mcols,
            filled(dp, buf, col_off as int, 1, 0),
        decreases mcols - k,
    {
        zero_at::<C>(&mut buf, 0, k, Ghost(dp), Ghost(col_off as int), Ghost(1), Ghost(0));
        k += 1;
    }
    let mut i: usize = 1;
    while i <= n
        invariant
            buf.wf(),
            buf.rows == n + 1,
            buf.cols == mcols,
            mcols >= 1,
            n <= MAX_PAT_LEN,
            1 <= i <= n + 1,
            filled(dp, buf, col_off as int, 1, 0),
        decreases n + 1 - i,
    {
        zero_at::<C>(&mut buf, i, 0, Ghost(dp), Ghost(col_off as int), Ghost(1), Ghost(0));
        i += 1;
    }

    let (row_lo_arr, row_hi_arr) = match &banding.row_bounds {
        Some(p) => (&p.0, &p.1),
        None => {
            return None;
        },
    };
    assert(banding@.row_bounds == Some((super::helpers::usizes_as_ints(row_lo_arr@), super::helpers::usizes_as_ints(row_hi_arr@))));
    assert(banding@ == bm);
    assert(row_lo_arr@.len() == n && row_hi_arr@.len() == n) by {
        assert(bm.row_bounds->Some_0.0.len() == n);
        assert(super::helpers::usizes_as_ints(row_lo_arr@).len() == row_lo_arr@.len());
        assert(super::helpers::usizes_as_ints(row_hi_arr@).len() == row_hi_arr@.len());
    }
    assert forall|k: int| 0 <= k < n implies 1 <= #[trigger] row_lo_arr@[k] <= row_hi_arr@[k] <= m by {
        lemma_bounds_range(f, l, m as int, k);
        assert(bm.row_bounds->Some_0.0[k] == row_lo_arr@[k] as int);
        assert(bm.row_bounds->Some_0.1[k] == row_hi_arr@[k] as int);
    }

    let mut i: usize = 1;
    while i <= n
        invariant
            buf.wf(),
            buf.rows == n + 1,
            buf.cols == mcols,
            n == pat@.len(),
            m == cho@.len(),
            n <= MAX_PAT_LEN,
            m <= usize::MAX / 64,
            1 <= j_start <= m,
            col_off == j_start - 1,
            mcols == m - col_off + 1,
            banding.bandwidth == 0,
            banding.j_first == j_start,
            row_lo_arr@.len() == n,
            row_hi_arr@.len() == n,
            forall|k: int| 0 <= k < n ==> 1 <= #[trigger] row_lo_arr@[k] <= row_hi_arr@[k] <= m,
            dp.pat == pat@,
            dp.cho == cho@,
            dp.bon == bonuses@,
            dp.rc == respect_case,
            dp.jf == j_start,
            dp.bonuses_ok(),
            1 <= i <= n + 1,
            filled(dp, buf, col_off as int, i as int, 0),
        decreases n + 1 - i,
    {
        let (j_lo, j_hi) = typo_vband_row(i, m, banding.bandwidth, banding.j_first);
        if j_lo > j_hi || j_lo > m {
            if i < n {
                let nj_lo0 = row_lo_arr[i];
                let nj_hi = row_hi_arr[i];
                let nj_lo = if nj_lo0 >= j_start {
                    nj_lo0
                } else {
                    j_start
                };
                if nj_lo <= nj_hi && nj_lo <= m {
                    let next_mat_lo = nj_lo - col_off;
                    let t = nj_hi - col_off;
                    let next_mat_hi = if t <= mcols - 1 {
                        t
                    } else {
                        mcols - 1
                    };
                    let zero_lo = if next_mat_lo >= 1 {
                        next_mat_lo - 1
                    } else {
                        0
                    };
                    let zero_hi = if next_mat_hi <= mcols - 1 {
                        next_mat_hi
                    } else {
                        mcols - 1
                    };
                    let mut k = zero_lo;
                    while k <= zero_hi
                        invariant
                            buf.wf(),
                            buf.rows == n + 1,
                            buf.cols == mcols,
                            zero_hi < mcols,
                            1 <= i <= n,
                            filled(dp, buf, col_off as int, i as int, 0),
                        decreases zero_hi + 1 - k,
                    {
                        zero_at::<C>(&mut buf, i, k, Ghost(dp), Ghost(col_off as int), Ghost(i as int), Ghost(0));
                        k += 1;
                    }
                }
            }
            proof {
                assert forall|jm2: int| 0 <= jm2 < mcols implies #[trigger] dp.sw(i as int, jm2 + col_off)
                    == (0int, Dir::Stop) by {}
                lemma_filled_extend(dp, buf, col_off as int, i as int, 0, mcols as int);
            }
            i += 1;
            continue;
        }
        let mat_col_lo = j_lo - col_off;
        let mat_col_hi = j_hi - col_off;
        let jm_max = mcols - 1;
        if mat_col_lo > 1 {
            zero_at::<C>(&mut buf, i, mat_col_lo - 1, Ghost(dp), Ghost(col_off as int), Ghost(i as int), Ghost(0));
        }
        if mat_col_hi < jm_max {
            zero_at::<C>(&mut buf, i, mat_col_hi + 1, Ghost(dp), Ghost(col_off as int), Ghost(i as int), Ghost(0));
        }
        proof {
            assert forall|jm2: int| 0 <= jm2 < mat_col_lo implies #[trigger] dp.sw(i as int, jm2 + col_off)
                == (0int, Dir::Stop) by {}
            lemma_filled_extend(dp, buf, col_off as int, i as int, 0, mat_col_lo as int);
        }
        fill_row::<C>(&mut buf, cho, pat, bonuses, respect_case, i, j_lo, col_off, Ghost(dp));
        i += 1;
    }

    // Best cell of the last row.
    let last_lo_raw = row_lo_arr[n - 1];
    let last_hi = row_hi_arr[n - 1];
    let last_lo = if last_lo_raw >= j_start {
        last_lo_raw
    } else {
        j_start
    };
    let mut best_score: i16 = 0;
    let mut best_j: usize = 0;
    let mut j = last_lo;
    while j <= last_hi
        invariant
            buf.wf(),
            buf.rows == n + 1,
            buf.cols == mcols,
            n == pat@.len(),
            1 <= n <= MAX_PAT_LEN,
            j_start <= last_lo,
            last_hi <= m,
            m < usize::MAX,
            col_off == j_start - 1,
            mcols == m - col_off + 1,
            dp.pat == pat@,
            dp.jf == j_start,
            dp.bonuses_ok(),
            last_lo <= j <= last_hi + 1 || (j == last_lo && last_lo > last_hi),
            filled(dp, buf, col_off as int, n as int + 1, 0),
            (best_score as int, best_j as int) == dp.best_upto(use_last_match, last_lo as int, j as int),
        decreases last_hi + 1 - j,
    {
        let jm = j - col_off;
        let s = buf.get(n, jm).score();
        proof {
            assert(cell_val(buf.at(n as int, jm as int)) == dp.sw(n as int, j as int));
        }
        let better = if use_last_match {
            s >= best_score && s > 0
        } else {
            s > best_score
        };
        if better {
            best_score = s;
            best_j = j;
        }
        j += 1;
    }
    proof {
        dp.lemma_best_bounds(use_last_match, last_lo as int, last_hi + 1);
        assert(dp.best_upto(use_last_match, last_lo as int, j as int) == dp.best_upto(
            use_last_match,
            last_lo as int,
            last_hi + 1,
        ));
        assert(bm.row_bounds->Some_0.0[n - 1] == last_lo_raw as int);
        assert(bm.row_bounds->Some_0.1[n - 1] == last_hi as int);
    }

    if best_score <= 0 {
        return None;
    }
    if !compute_indices {
        return Some((best_score, Vec::new()));
    }
    // Traceback, collecting matched columns from the end.
    let mut pushed: Vec<usize> = Vec::new();
    let mut ii = n;
    let mut jj = best_j;
    let mut true_matches: usize = 0;
    let mut stopped = false;
    while !stopped && ii > 0 && jj >= j_start
        invariant
            buf.wf(),
            buf.rows == n + 1,
            buf.cols == mcols,
            n == pat@.len(),
            m == cho@.len(),
            1 <= j_start <= m,
            col_off == j_start - 1,
            mcols == m - col_off + 1,
            dp.pat == pat@,
            dp.cho == cho@,
            dp.rc == respect_case,
            dp.jf == j_start,
            ii <= n,
            jj <= m,
            true_matches + ii <= n,
            filled(dp, buf, col_off as int, n as int + 1, 0),
            stopped ==> dp.trace(ii as int, jj as int) == (Seq::<usize>::empty(), 0nat),
            dp.trace(n as int, best_j as int).0 == dp.trace(ii as int, jj as int).0 + pushed@.reverse(),
            dp.trace(n as int, best_j as int).1 == dp.trace(ii as int, jj as int).1 + true_matches,
        decreases ii + jj + if stopped {
            0int
        } else {
            1int
        },
    {
        let jm = jj - col_off;
        let cell = buf.get(ii, jm);
        proof {
            assert(cell_val(buf.at(ii as int, jm as int)) == dp.sw(ii as int, jj as int));
        }
        match cell.dir() {
            Dir::Diag => {
                if eq(pat[ii - 1], cho[jj - 1], respect_case) {
                    let ghost p0 = pushed@;
                    pushed.push(jj - 1);
                    assert(pushed@.reverse() =~= seq![(jj - 1) as usize] + p0.reverse());
                    true_matches += 1;
                }
                ii -= 1;
                jj -= 1;
            },
            Dir::Up => {
                ii -= 1;
            },
            Dir::Left => {
                jj -= 1;
            },
            Dir::Stop => {
                stopped = true;
            },
        }
    }
    assert(dp.trace(ii as int, jj as int) == (Seq::<usize>::empty(), 0nat));
    if true_matches < banding.min_true_matches {
        return None;
    }
    let mut out: Vec<usize> = Vec::new();
    let mut k = pushed.len();
    while k > 0
        invariant
            k <= pushed@.len(),
            out@ == pushed@.subrange(k as int, pushed@.len() as int).reverse(),
        decreases k,
    {
        k -= 1;
        let ghost o0 = out@;
        out.push(pushed[k]);
        assert(pushed@.subrange(k as int, pushed@.len() as int).reverse() =~= o0.push(pushed@[k as int]));
    }
    assert(pushed@.subrange(0, pushed@.len() as int) == pushed@);
    assert(out@ =~= pushed@.reverse());
    Some((best_score, out))
}
} // verus!
