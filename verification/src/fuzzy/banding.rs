//! Banding utils

use vstd::prelude::*;
use super::atom::{Atom, as_index};
use super::constants::{MAX_PAT_LEN, TYPO_BAND_SLACK};
use super::helpers::{
    bound_hi, bound_lo, compute_first_match_cols, compute_last_match_cols, compute_row_col_bounds,
    find_first_char, greedy_first, greedy_last, lemma_greedy_first_bounds, lemma_greedy_last_bounds,
    spec_find_first_char, usizes_as_ints,
};

verus! {

/// Precomputed banding information shared by both score-only and full DP.
pub struct BandingInfo {
    pub row_bounds: Option<(Vec<usize>, Vec<usize>)>,
    pub j_first: usize,
    pub bandwidth: usize,
    pub min_true_matches: usize,
}

pub struct BandingModel {
    pub row_bounds: Option<(Seq<int>, Seq<int>)>,
    pub j_first: int,
    pub bandwidth: int,
    pub min_true_matches: int,
}

impl View for BandingInfo {
    type V = BandingModel;

    open spec fn view(&self) -> BandingModel {
        BandingModel {
            row_bounds: match self.row_bounds {
                Some((lo, hi)) => Some((usizes_as_ints(lo@), usizes_as_ints(hi@))),
                None => None,
            },
            j_first: self.j_first as int,
            bandwidth: self.bandwidth as int,
            min_true_matches: self.min_true_matches as int,
        }
    }
}

/// The band of columns the DP visits. With typos allowed it starts at the
/// first occurrence of the pattern's first element; otherwise the pattern
/// must be a subsequence of the choice (of at most `MAX_PAT_LEN` elements),
/// and each row gets the column range between its greedy first and last
/// matches.
pub open spec fn spec_banding<C: Atom>(allow_typos: bool, pat: Seq<C>, cho: Seq<C>, respect_case: bool) -> Option<
    BandingModel,
> {
    let n = pat.len();
    let m = cho.len() as int;
    if allow_typos {
        match spec_find_first_char(pat, cho, respect_case) {
            None => None,
            Some(jf) => Some(
                BandingModel {
                    row_bounds: None,
                    j_first: jf,
                    bandwidth: n + TYPO_BAND_SLACK,
                    min_true_matches: ((n + 1) / 2) as int,
                },
            ),
        }
    } else if n > MAX_PAT_LEN {
        None
    } else {
        match (greedy_first(pat, cho, respect_case, n), greedy_last(pat, cho, respect_case, n)) {
            (Some(f), Some(l)) => Some(
                BandingModel {
                    row_bounds: Some(
                        (
                            Seq::new(n, |i: int| bound_lo(f, l, m, i)),
                            Seq::new(n, |i: int| bound_hi(f, l, m, i)),
                        ),
                    ),
                    j_first: f[0],
                    bandwidth: 0,
                    min_true_matches: 0,
                },
            ),
            _ => None,
        }
    }
}

pub fn compute_banding<C: Atom>(allow_typos: bool, pat: &[C], cho: &[C], respect_case: bool) -> (r: Option<BandingInfo>)
    requires
        pat@.len() >= 1,
        allow_typos ==> pat@.len() + TYPO_BAND_SLACK <= usize::MAX,
        cho@.len() < usize::MAX,
    ensures
        r is Some <==> spec_banding(allow_typos, pat@, cho@, respect_case) is Some,
        r matches Some(b) ==> b@ == spec_banding(allow_typos, pat@, cho@, respect_case)->Some_0,
{
    let n = pat.len();
    let m = cho.len();
    let row_bounds;
    let j_first;

    if allow_typos {
        match find_first_char(pat, cho, respect_case) {
            Some(j) => {
                proof {
                    super::atom::lemma_first_match_from(pat@[0], cho@, respect_case, 0);
                    assert(spec_find_first_char(pat@, cho@, respect_case) == Some(j as int));
                }
                j_first = j;
            },
            None => {
                return None;
            },
        }
        row_bounds = None;
    } else {
        let fm = match compute_first_match_cols(pat, cho, respect_case) {
            Some(v) => v,
            None => {
                return None;
            },
        };
        let lm = match compute_last_match_cols(pat, cho, respect_case) {
            Some(v) => v,
            None => {
                return None;
            },
        };
        proof {
            lemma_greedy_first_bounds(pat@, cho@, respect_case, n as nat);
            lemma_greedy_last_bounds(pat@, cho@, respect_case, n as nat);
            let f = greedy_first(pat@, cho@, respect_case, n as nat)->Some_0;
            let l = greedy_last(pat@, cho@, respect_case, n as nat)->Some_0;
            assert(usizes_as_ints(fm@) =~= f);
            assert(usizes_as_ints(lm@) =~= l);
            assert forall|i: int| 0 <= i < n implies #[trigger] fm@[i] <= m && lm@[i] <= m by {
                assert(fm@[i] as int == f[i]);
                assert(lm@[i] as int == l[i]);
            }
        }
        j_first = fm[0];
        let bounds = compute_row_col_bounds(n, m, &fm, &lm);
        proof {
            let f = greedy_first(pat@, cho@, respect_case, n as nat)->Some_0;
            let l = greedy_last(pat@, cho@, respect_case, n as nat)->Some_0;
            assert forall|i: int| 0 <= i < n implies usizes_as_ints(bounds.0@)[i] == bound_lo(
                f,
                l,
                m as int,
                i,
            ) && usizes_as_ints(bounds.1@)[i] == bound_hi(f, l, m as int, i) by {
                assert(bounds.0@[i] as int == bound_lo(f, l, m as int, i));
            }
            assert(usizes_as_ints(bounds.0@) =~= Seq::new(n as nat, |i: int| bound_lo(f, l, m as int, i)));
            assert(usizes_as_ints(bounds.1@) =~= Seq::new(n as nat, |i: int| bound_hi(f, l, m as int, i)));
        }
        row_bounds = Some(bounds);
    }

    let bandwidth = if allow_typos {
        n + TYPO_BAND_SLACK
    } else {
        0
    };
    let min_true_matches = if allow_typos {
        n / 2 + n % 2
    } else {
        0
    };

    Some(BandingInfo { row_bounds, j_first, bandwidth, min_true_matches })
}

/// Column range `(lo, m)` of row `i` in the typo band.
pub fn typo_vband_row(i: usize, m: usize, bandwidth: usize, j_first: usize) -> (r: (usize, usize))
    requires
        i >= 1,
        j_first >= 1,
        i + j_first <= usize::MAX,
    ensures
        r.1 == m,
        r.0 as int == (if i + j_first - 1 - bandwidth >= j_first {
            i + j_first - 1 - bandwidth
        } else {
            j_first as int
        }),
{
    let j = i + j_first - 1;
    let lo0 = if j >= bandwidth {
        j - bandwidth
    } else {
        0
    };
    let lo = if lo0 >= j_first {
        lo0
    } else {
        j_first
    };
    (lo, m)
}

} // verus!
