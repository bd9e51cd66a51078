//! Slice helpers: where pattern elements first and last occur in a choice.

use vstd::prelude::*;
use super::atom::{Atom, atom_eq, eq, first_match_from, lemma_first_match_from, lemma_find_first, as_index, lemma_as_index_inv};
use super::constants::MAX_PAT_LEN;

verus! {

/// Column (1-based) of the first occurrence of `pat[0]` in `cho`.
pub open spec fn spec_find_first_char<C: Atom>(pat: Seq<C>, cho: Seq<C>, respect_case: bool) -> Option<int> {
    match first_match_from(pat[0], cho, respect_case, 0) {
        Some(j) => Some(j + 1),
        None => None,
    }
}

pub fn find_first_char<C: Atom>(pat: &[C], cho: &[C], respect_case: bool) -> (r: Option<usize>)
    requires
        pat@.len() >= 1,
    ensures
        r == as_index(spec_find_first_char(pat@, cho@, respect_case)),
        r matches Some(j) ==> 1 <= j <= cho@.len(),
{
    let cl = cho.len();
    let found = pat[0].find_first_in(cho, respect_case);
    proof {
        lemma_find_first(pat@[0], cho@, respect_case, found);
        lemma_first_match_from(pat@[0], cho@, respect_case, 0);
    }
    match found {
        Some(idx) => Some(idx + 1),
        None => None,
    }
}

/// Greedy first-match columns (1-based) of `pat[..k]` in `cho`: each element
/// at its first occurrence after the previous one's.
pub open spec fn greedy_first<C: Atom>(pat: Seq<C>, cho: Seq<C>, respect_case: bool, k: nat) -> Option<
    Seq<int>,
>
    decreases k,
{
    if k == 0 {
        Some(Seq::empty())
    } else {
        match greedy_first(pat, cho, respect_case, (k - 1) as nat) {
            None => None,
            Some(cols) => {
                let start = if k == 1 {
                    0
                } else {
                    cols.last()
                };
                match first_match_from(pat[k - 1], cho, respect_case, start) {
                    Some(p) => Some(cols.push(p + 1)),
                    None => None,
                }
            },
        }
    }
}

/// Largest index `< end` of `hay` whose element equals `c`.
pub open spec fn last_match_below<C: Atom>(c: C, hay: Seq<C>, respect_case: bool, end: int) -> Option<
    int,
>
    decreases end,
{
    if end <= 0 {
        None
    } else if end - 1 < hay.len() && atom_eq(c, hay[end - 1], respect_case) {
        Some(end - 1)
    } else {
        last_match_below(c, hay, respect_case, end - 1)
    }
}

/// Greedy last-match columns (1-based) of the last `k` elements of `pat`:
/// each at its last occurrence before the next one's.
pub open spec fn greedy_last<C: Atom>(pat: Seq<C>, cho: Seq<C>, respect_case: bool, k: nat) -> Option<
    Seq<int>,
>
    decreases k,
{
    if k == 0 {
        Some(Seq::empty())
    } else {
        match greedy_last(pat, cho, respect_case, (k - 1) as nat) {
            None => None,
            Some(cols) => {
                let end = if k == 1 {
                    cho.len() as int
                } else {
                    cols[0] - 1
                };
                match last_match_below(pat[pat.len() - k], cho, respect_case, end) {
                    Some(p) => Some(seq![p + 1] + cols),
                    None => None,
                }
            },
        }
    }
}

pub proof fn lemma_greedy_first_bounds<C: Atom>(pat: Seq<C>, cho: Seq<C>, respect_case: bool, k: nat)
    requires
        k <= pat.len(),
    ensures
        greedy_first(pat, cho, respect_case, k) matches Some(cols) ==> cols.len() == k && forall|
            i: int,
        | 0 <= i < k ==> 1 <= #[trigger] cols[i] <= cho.len() && atom_eq(
            pat[i],
            cho[cols[i] - 1],
            respect_case,
        ) && (i > 0 ==> cols[i - 1] < cols[i]),
    decreases k,
{
    if k > 0 {
        lemma_greedy_first_bounds(pat, cho, respect_case, (k - 1) as nat);
        if let Some(cols) = greedy_first(pat, cho, respect_case, (k - 1) as nat) {
            let start = if k == 1 {
                0
            } else {
                cols.last()
            };
            lemma_first_match_from(pat[k - 1], cho, respect_case, start);
        }
    }
}

/// `cols` (1-based columns) places `pat[..k]` in `cho` in order.
pub open spec fn embeds<C: Atom>(pat: Seq<C>, cho: Seq<C>, respect_case: bool, cols: Seq<int>, k: int) -> bool {
    &&& cols.len() >= k
    &&& forall|i: int| 0 <= i < k ==> 1 <= #[trigger] cols[i] <= cho.len() && atom_eq(pat[i], cho[cols[i] - 1], respect_case)
    &&& forall|i: int| 0 < i < k ==> cols[i - 1] < #[trigger] cols[i]
}

/// Greedy first matching succeeds wherever some placement exists, and puts
/// each element no later than that placement does.
pub proof fn lemma_greedy_first_leftmost<C: Atom>(pat: Seq<C>, cho: Seq<C>, respect_case: bool, cols: Seq<int>, k: nat)
    requires
        k <= pat.len(),
        embeds(pat, cho, respect_case, cols, k as int),
    ensures
        greedy_first(pat, cho, respect_case, k) is Some,
        forall|i: int| 0 <= i < k ==> #[trigger] greedy_first(pat, cho, respect_case, k)->Some_0[i] <= cols[i],
    decreases k,
{
    if k > 0 {
        assert(embeds(pat, cho, respect_case, cols, k - 1));
        lemma_greedy_first_leftmost(pat, cho, respect_case, cols, (k - 1) as nat);
        lemma_greedy_first_bounds(pat, cho, respect_case, (k - 1) as nat);
        let prev = greedy_first(pat, cho, respect_case, (k - 1) as nat)->Some_0;
        let start = if k == 1 {
            0
        } else {
            prev.last()
        };
        if k > 1 {
            assert(prev[k - 2] <= cols[k - 2]);
            assert(cols[k - 2] < cols[k - 1]);
        }
        assert(0 <= start <= cols[k - 1] - 1);
        lemma_first_match_from(pat[k - 1], cho, respect_case, start);
        assert(atom_eq(pat[k - 1], cho[cols[k - 1] - 1], respect_case));
        let cur = greedy_first(pat, cho, respect_case, k)->Some_0;
        assert forall|i: int| 0 <= i < k implies #[trigger] cur[i] <= cols[i] by {
            if i < k - 1 {
                assert(cur[i] == prev[i]);
            }
        }
    }
}

/// Greedy last matching succeeds wherever some placement exists, and puts
/// each element no earlier than that placement does.
pub proof fn lemma_greedy_last_rightmost<C: Atom>(pat: Seq<C>, cho: Seq<C>, respect_case: bool, cols: Seq<int>, k: nat)
    requires
        k <= pat.len(),
        embeds(pat, cho, respect_case, cols, pat.len() as int),
    ensures
        greedy_last(pat, cho, respect_case, k) is Some,
        forall|i: int|
            0 <= i < k ==> #[trigger] greedy_last(pat, cho, respect_case, k)->Some_0[i] >= cols[pat.len() - k + i],
    decreases k,
{
    if k > 0 {
        let n = pat.len() as int;
        lemma_greedy_last_rightmost(pat, cho, respect_case, cols, (k - 1) as nat);
        lemma_greedy_last_bounds(pat, cho, respect_case, (k - 1) as nat);
        let prev = greedy_last(pat, cho, respect_case, (k - 1) as nat)->Some_0;
        let end = if k == 1 {
            cho.len() as int
        } else {
            prev[0] - 1
        };
        if k > 1 {
            assert(prev[0] >= cols[n - (k - 1) + 0]);
            assert(cols[n - k] < cols[n - k + 1]);
        }
        assert(cols[n - k] - 1 < end <= cho.len());
        lemma_last_match_below(pat[n - k], cho, respect_case, end);
        assert(atom_eq(pat[n - k], cho[cols[n - k] - 1], respect_case));
        let cur = greedy_last(pat, cho, respect_case, k)->Some_0;
        assert forall|i: int| 0 <= i < k implies #[trigger] cur[i] >= cols[n - k + i] by {
            if i > 0 {
                assert(cur[i] == prev[i - 1]);
            }
        }
    }
}

pub proof fn lemma_last_match_below<C: Atom>(c: C, hay: Seq<C>, respect_case: bool, end: int)
    requires
        end <= hay.len(),
    ensures
        last_match_below(c, hay, respect_case, end) matches Some(j) ==> 0 <= j < end
            && atom_eq(c, hay[j], respect_case) && forall|i: int|
            j < i < end ==> !atom_eq(c, #[trigger] hay[i], respect_case),
        last_match_below(c, hay, respect_case, end) is None ==> forall|i: int|
            0 <= i < end ==> !atom_eq(c, #[trigger] hay[i], respect_case),
    decreases end,
{
    if end > 0 && !atom_eq(c, hay[end - 1], respect_case) {
        lemma_last_match_below(c, hay, respect_case, end - 1);
    }
}

/// First-match columns of the whole pattern; `None` when the pattern is
/// longer than `MAX_PAT_LEN` or is no subsequence of the choice.
pub fn compute_first_match_cols<C: Atom>(pat: &[C], cho: &[C], respect_case: bool) -> (r: Option<Vec<usize>>)
    ensures
        pat@.len() > MAX_PAT_LEN ==> r is None,
        pat@.len() <= MAX_PAT_LEN ==> match (r, greedy_first(pat@, cho@, respect_case, pat@.len())) {
            (Some(v), Some(cols)) => v@.len() == cols.len() && forall|i: int|
                0 <= i < v@.len() ==> #[trigger] v@[i] as int == cols[i],
            (None, None) => true,
            _ => false,
        },
{
    let n = pat.len();
    if n > MAX_PAT_LEN {
        return None;
    }
    let cl = cho.len();
    let mut first: Vec<usize> = Vec::new();
    let mut start: usize = 0;
    let mut i: usize = 0;
    while i < n
        invariant
            n == pat@.len(),
            cl == cho@.len(),
            i <= n,
            start <= cho@.len(),
            greedy_first(pat@, cho@, respect_case, i as nat) matches Some(cols) && first@.len()
                == i && cols.len() == i && (forall|k: int| 0 <= k < i ==> #[trigger] first@[k] as int == cols[k])
                && start == (if i == 0 {
                0
            } else {
                cols.last()
            }),
        decreases n - i,
    {
        proof {
            lemma_greedy_first_bounds(pat@, cho@, respect_case, i as nat);
            lemma_greedy_first_bounds(pat@, cho@, respect_case, (i + 1) as nat);
            lemma_first_match_from(pat@[i as int], cho@, respect_case, start as int);
        }
        let found = super::atom::position(pat[i], cho, start, respect_case);
        proof {
            lemma_as_index_inv(first_match_from(pat@[i as int], cho@, respect_case, start as int), cl as nat);
        }
        match found {
            Some(pos) => {
                first.push(pos + 1);
                start = pos + 1;
            },
            None => {
                proof {
                    lemma_greedy_first_none(pat@, cho@, respect_case, (i + 1) as nat, n as nat);
                }
                return None;
            },
        }
        i += 1;
    }
    Some(first)
}

/// Last-match columns of the whole pattern, walking it from the end.
pub fn compute_last_match_cols<C: Atom>(pat: &[C], cho: &[C], respect_case: bool) -> (r: Option<Vec<usize>>)
    ensures
        pat@.len() > MAX_PAT_LEN ==> r is None,
        pat@.len() <= MAX_PAT_LEN ==> match (r, greedy_last(pat@, cho@, respect_case, pat@.len())) {
            (Some(v), Some(cols)) => v@.len() == cols.len() && forall|i: int|
                0 <= i < v@.len() ==> #[trigger] v@[i] as int == cols[i],
            (None, None) => true,
            _ => false,
        },
{
    let n = pat.len();
    if n > MAX_PAT_LEN {
        return None;
    }
    let m = cho.len();
    let mut last: Vec<usize> = Vec::new();
    while last.len() < n
        invariant
            last@.len() <= n,
        decreases n - last@.len(),
    {
        last.push(0);
    }
    let mut end: usize = m;
    let mut i: usize = n;
    while i > 0
        invariant
            n == pat@.len(),
            m == cho@.len(),
            i <= n,
            last@.len() == n,
            end <= m,
            greedy_last(pat@, cho@, respect_case, (n - i) as nat) matches Some(cols) && cols.len()
                == n - i && (forall|k: int| i <= k < n ==> #[trigger] last@[k] as int == cols[k - i])
                && end == (if i == n {
                m as int
            } else {
                cols[0] - 1
            }),
        decreases i,
    {
        let ii = i - 1;
        proof {
            lemma_last_match_below(pat@[ii as int], cho@, respect_case, end as int);
            lemma_greedy_last_bounds(pat@, cho@, respect_case, (n - i) as nat);
        }
        let found = rposition(pat[ii], cho, end, respect_case);
        match found {
            Some(pos) => {
                let ghost before = last@;
                last.set(ii, pos + 1);
                proof {
                    let cols = greedy_last(pat@, cho@, respect_case, (n - i) as nat)->Some_0;
                    let cols2 = seq![pos + 1] + cols;
                    assert(greedy_last(pat@, cho@, respect_case, (n - ii) as nat) == Some(cols2));
                    assert forall|k: int| ii <= k < n implies #[trigger] last@[k] as int == cols2[k
                        - ii] by {
                        if k > ii {
                            assert(last@[k] == before[k]);
                        }
                    }
                }
                end = pos;
            },
            None => {
                proof {
                    lemma_greedy_last_none(pat@, cho@, respect_case, (n - ii) as nat, n as nat);
                }
                return None;
            },
        }
        i = ii;
    }
    Some(last)
}

pub proof fn lemma_greedy_last_bounds<C: Atom>(pat: Seq<C>, cho: Seq<C>, respect_case: bool, k: nat)
    requires
        k <= pat.len(),
    ensures
        greedy_last(pat, cho, respect_case, k) matches Some(cols) ==> cols.len() == k && forall|
            i: int,
        | 0 <= i < k ==> 1 <= #[trigger] cols[i] <= cho.len() && atom_eq(
            pat[pat.len() - k + i],
            cho[cols[i] - 1],
            respect_case,
        ) && (i > 0 ==> cols[i - 1] < cols[i]),
    decreases k,
{
    if k > 0 {
        lemma_greedy_last_bounds(pat, cho, respect_case, (k - 1) as nat);
        if let Some(cols) = greedy_last(pat, cho, respect_case, (k - 1) as nat) {
            let end = if k == 1 {
                cho.len() as int
            } else {
                cols[0] - 1
            };
            lemma_last_match_below(pat[pat.len() - k], cho, respect_case, end);
            if let Some(p) = last_match_below(pat[pat.len() - k], cho, respect_case, end) {
                let c2 = seq![p + 1] + cols;
                assert forall|i: int| 0 <= i < k implies 1 <= #[trigger] c2[i] <= cho.len()
                    && atom_eq(pat[pat.len() - k + i], cho[c2[i] - 1], respect_case) && (i > 0
                    ==> c2[i - 1] < c2[i]) by {
                    if i > 0 {
                        assert(c2[i] == cols[i - 1]);
                    }
                }
            }
        }
    }
}

pub proof fn lemma_greedy_first_none<C: Atom>(pat: Seq<C>, cho: Seq<C>, respect_case: bool, k: nat, k2: nat)
    requires
        k <= k2,
        greedy_first(pat, cho, respect_case, k) is None,
    ensures
        greedy_first(pat, cho, respect_case, k2) is None,
    decreases k2 - k,
{
    if k < k2 {
        lemma_greedy_first_none(pat, cho, respect_case, k, (k2 - 1) as nat);
    }
}

pub proof fn lemma_greedy_last_none<C: Atom>(pat: Seq<C>, cho: Seq<C>, respect_case: bool, k: nat, k2: nat)
    requires
        k <= k2,
        greedy_last(pat, cho, respect_case, k) is None,
    ensures
        greedy_last(pat, cho, respect_case, k2) is None,
    decreases k2 - k,
{
    if k < k2 {
        lemma_greedy_last_none(pat, cho, respect_case, k, (k2 - 1) as nat);
    }
}

/// Last index `< end` of `haystack` whose element equals `c`.
pub fn rposition<C: Atom>(c: C, haystack: &[C], end: usize, respect_case: bool) -> (r: Option<usize>)
    requires
        end <= haystack@.len(),
    ensures
        r == as_index(last_match_below(c, haystack@, respect_case, end as int)),
{
    let mut k = end;
    while k > 0
        invariant
            k <= end <= haystack@.len(),
            last_match_below(c, haystack@, respect_case, k as int) == last_match_below(
                c,
                haystack@,
                respect_case,
                end as int,
            ),
        decreases k,
    {
        if eq(c, haystack[k - 1], respect_case) {
            return Some(k - 1);
        }
        k -= 1;
    }
    None
}

// ── Row bounds ──

pub open spec fn max_int(a: int, b: int) -> int {
    if a >= b {
        a
    } else {
        b
    }
}

pub open spec fn min_int(a: int, b: int) -> int {
    if a <= b {
        a
    } else {
        b
    }
}

/// Upper bound of row `i` after widening it to reach the next row's start.
pub open spec fn bound_hi1(first: Seq<int>, last: Seq<int>, i: int) -> int {
    if i + 1 < first.len() && first[i + 1] > 1 {
        max_int(last[i], first[i + 1] - 1)
    } else {
        last[i]
    }
}

/// Lower bound of row `i` after lowering it to just past the previous row's end.
pub open spec fn bound_lo2(first: Seq<int>, last: Seq<int>, i: int) -> int {
    if i >= 1 {
        min_int(first[i], bound_hi1(first, last, i - 1) + 1)
    } else {
        first[i]
    }
}

/// Final lower bound of row `i`, clamped to `1..=m`.
pub open spec fn bound_lo(first: Seq<int>, last: Seq<int>, m: int, i: int) -> int {
    min_int(max_int(bound_lo2(first, last, i), 1), m)
}

/// Final upper bound of row `i`: at least the lower bound, at most `m`.
pub open spec fn bound_hi(first: Seq<int>, last: Seq<int>, m: int, i: int) -> int {
    min_int(max_int(bound_hi1(first, last, i), bound_lo(first, last, m, i)), m)
}

pub open spec fn usizes_as_ints(v: Seq<usize>) -> Seq<int> {
    v.map_values(|x: usize| x as int)
}

/// Column range of each pattern row, from the first- and last-match columns.
pub fn compute_row_col_bounds(n: usize, m: usize, first_match: &Vec<usize>, last_match: &Vec<usize>) -> (r: (
    Vec<usize>,
    Vec<usize>,
))
    requires
        first_match@.len() == n,
        last_match@.len() == n,
        m < usize::MAX,
        forall|i: int| 0 <= i < n ==> #[trigger] first_match@[i] <= m && last_match@[i] <= m,
    ensures
        r.0@.len() == n,
        r.1@.len() == n,
        forall|i: int|
            0 <= i < n ==> #[trigger] r.0@[i] as int == bound_lo(
                usizes_as_ints(first_match@),
                usizes_as_ints(last_match@),
                m as int,
                i,
            ) && r.1@[i] as int == bound_hi(
                usizes_as_ints(first_match@),
                usizes_as_ints(last_match@),
                m as int,
                i,
            ),
{
    let ghost f = usizes_as_ints(first_match@);
    let ghost l = usizes_as_ints(last_match@);
    let mut lo = first_match.clone();
    let mut hi = last_match.clone();
    assert(lo@ == first_match@ && hi@ == last_match@);
    let last_i: usize = if n > 0 {
        n - 1
    } else {
        0
    };
    let mut i: usize = 0;
    while i < last_i
        invariant
            last_i == (if n > 0 { n - 1 } else { 0 }),
            first_match@.len() == n,
            last_match@.len() == n,
            lo@ == first_match@,
            hi@.len() == n,
            f == usizes_as_ints(first_match@),
            l == usizes_as_ints(last_match@),
            i <= n,
            forall|k: int| 0 <= k < n ==> #[trigger] first_match@[k] <= m && last_match@[k] <= m,
            forall|k: int|
                0 <= k < n ==> #[trigger] hi@[k] as int == if k < i {
                    bound_hi1(f, l, k)
                } else {
                    l[k]
                },
        decreases n - i,
    {
        let next_lo = lo[i + 1];
        if next_lo > 1 {
            let cur = hi[i];
            let v = if cur >= next_lo - 1 {
                cur
            } else {
                next_lo - 1
            };
            hi.set(i, v);
        }
        i += 1;
    }
    assert forall|k: int| 0 <= k < n implies #[trigger] hi@[k] as int == bound_hi1(f, l, k) && hi@[k]
        <= m by {
        if k >= i {
            assert(k + 1 >= n);
        }
        assert(first_match@[k] <= m);
        assert(l[k] == last_match@[k] as int);
        assert(last_match@[k] <= m);
        if k + 1 < n {
            assert(first_match@[k + 1] <= m);
            assert(f[k + 1] == first_match@[k + 1] as int);
        }
    }
    let mut i: usize = 1;
    while i < n
        invariant
            1 <= i,
            i <= n || n == 0,
            first_match@.len() == n,
            last_match@.len() == n,
            lo@.len() == n,
            hi@.len() == n,
            f == usizes_as_ints(first_match@),
            l == usizes_as_ints(last_match@),
            m < usize::MAX,
            forall|k: int| 0 <= k < n ==> #[trigger] first_match@[k] <= m && last_match@[k] <= m,
            forall|k: int| 0 <= k < n ==> #[trigger] hi@[k] as int == bound_hi1(f, l, k),
            forall|k: int| 0 <= k < n ==> #[trigger] hi@[k] <= m,
            forall|k: int|
                0 <= k < n ==> #[trigger] lo@[k] as int == if k < i {
                    bound_lo2(f, l, k)
                } else {
                    f[k]
                },
        decreases n - i,
    {
        let cur = lo[i];
        let cap = hi[i - 1] + 1;
        let v = if cur <= cap {
            cur
        } else {
            cap
        };
        lo.set(i, v);
        i += 1;
    }
    assert forall|k: int| 0 <= k < n implies #[trigger] lo@[k] as int == bound_lo2(f, l, k) by {
        if k == 0 {
        }
    }
    let mut i: usize = 0;
    while i < n
        invariant
            i <= n,
            first_match@.len() == n,
            last_match@.len() == n,
            lo@.len() == n,
            hi@.len() == n,
            f == usizes_as_ints(first_match@),
            l == usizes_as_ints(last_match@),
            forall|k: int|
                0 <= k < n ==> #[trigger] lo@[k] as int == if k < i {
                    bound_lo(f, l, m as int, k)
                } else {
                    bound_lo2(f, l, k)
                },
            forall|k: int|
                0 <= k < n ==> #[trigger] hi@[k] as int == if k < i {
                    bound_hi(f, l, m as int, k)
                } else {
                    bound_hi1(f, l, k)
                },
        decreases n - i,
    {
        let a = lo[i];
        let a1 = if a >= 1 {
            a
        } else {
            1
        };
        let a2 = if a1 <= m {
            a1
        } else {
            m
        };
        lo.set(i, a2);
        let b = hi[i];
        let b1 = if b >= a2 {
            b
        } else {
            a2
        };
        let b2 = if b1 <= m {
            b1
        } else {
            m
        };
        hi.set(i, b2);
        i += 1;
    }
    (lo, hi)
}

} // verus!
