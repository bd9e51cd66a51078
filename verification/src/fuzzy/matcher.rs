//! The matcher: case handling, position bonuses, and the byte or char path.

use vstd::prelude::*;
use super::algo::{full_dp, law_subsequence_matches, lemma_full_dp_indices, spec_full_dp};
use super::atom::{Atom, atom_eq, atom_separator_bonus, separator_bonus};
use super::helpers::{embeds, greedy_first, lemma_greedy_first_bounds};
use super::banding::spec_banding;
use super::constants::{CAMEL_CASE_BONUS, MAX_PAT_LEN, START_OF_STRING_BONUS};
use crate::text::chars_of;

verus! {

/// How upper and lower case compare.
#[derive(Debug, Clone, Copy, PartialEq, Eq, Structural)]
pub enum CaseMatching {
    Respect,
    Ignore,
    Smart,
}

/// Bonus for a match at choice position `j`: the start of the string, or the
/// element after a separator, or an upper-case element after a lower-case one.
pub open spec fn spec_bonus_at<C: Atom>(cho: Seq<C>, j: int) -> i16 {
    if j == 0 {
        START_OF_STRING_BONUS
    } else {
        (atom_separator_bonus(cho[j - 1]) + if cho[j - 1].spec_is_lower() && !cho[j].spec_is_lower() {
            CAMEL_CASE_BONUS
        } else {
            0
        }) as i16
    }
}

/// One bonus per choice position (one for the empty choice).
pub open spec fn spec_bonuses<C: Atom>(cho: Seq<C>) -> Seq<i16> {
    Seq::new(
        if cho.len() == 0 {
            1
        } else {
            cho.len()
        },
        |j: int| spec_bonus_at(cho, j),
    )
}

pub fn precompute_bonuses<C: Atom>(cho: &[C], buf: &mut Vec<i16>)
    ensures
        final(buf)@ == spec_bonuses(cho@),
        forall|k: int| 0 <= k < final(buf)@.len() ==> 0 <= #[trigger] final(buf)@[k] <= 22,
{
    buf.clear();
    buf.push(START_OF_STRING_BONUS);
    let mut j: usize = 1;
    while j < cho.len()
        invariant
            1 <= j,
            j <= cho@.len() || cho@.len() == 0,
            cho@.len() == 0 ==> j == 1,
            buf@.len() == j,
            forall|k: int| 0 <= k < j ==> #[trigger] buf@[k] == spec_bonus_at(cho@, k),
            forall|k: int| 0 <= k < j ==> 0 <= #[trigger] buf@[k] <= 22,
        decreases cho.len() - j,
    {
        let prev = cho[j - 1];
        let cur = cho[j];
        let camel: i16 = if prev.is_lowercase() && !cur.is_lowercase() {
            1
        } else {
            0
        };
        let b = separator_bonus(prev) + CAMEL_CASE_BONUS * camel;
        buf.push(b);
        j += 1;
    }
    assert(buf@ =~= spec_bonuses(cho@));
}

/// Respect case when asked to, or smartly when the pattern has an element
/// that is not lower case.
pub open spec fn spec_respect_case<C: Atom>(case: CaseMatching, pat: Seq<C>) -> bool {
    case == CaseMatching::Respect || (case == CaseMatching::Smart && !(forall|k: int|
        0 <= k < pat.len() ==> #[trigger] pat[k].spec_is_lower()))
}

/// Longest choice the DP table can be sized for.
pub open spec fn choice_fits(len: nat) -> bool {
    len <= usize::MAX / 64
}

/// Match on element slices: an empty pattern matches with score 0, an
/// empty choice matches nothing, otherwise the DP decides.
pub open spec fn spec_match_slices<C: Atom>(
    case: CaseMatching,
    cho: Seq<C>,
    pat: Seq<C>,
    compute_indices: bool,
) -> Option<(int, Seq<usize>)> {
    if pat.len() == 0 {
        Some((0, Seq::empty()))
    } else if cho.len() == 0 {
        None
    } else {
        spec_full_dp(
            compute_indices,
            cho,
            pat,
            spec_bonuses(cho),
            spec_respect_case(case, pat),
            false,
        )
    }
}

pub open spec fn ascii_bytes(s: Seq<char>) -> Seq<u8> {
    Seq::new(s.len(), |i: int| s[i] as u8)
}

/// Match on strings: by bytes when both are ASCII, else by chars.
pub open spec fn spec_run(
    case: CaseMatching,
    choice: Seq<char>,
    pattern: Seq<char>,
    compute_indices: bool,
) -> Option<(int, Seq<usize>)> {
    if pattern.len() == 0 {
        Some((0, Seq::empty()))
    } else if choice.len() == 0 {
        None
    } else if vstd::utf8::is_ascii_chars(choice) && vstd::utf8::is_ascii_chars(pattern) {
        spec_match_slices(case, ascii_bytes(choice), ascii_bytes(pattern), compute_indices)
    } else {
        spec_match_slices(case, choice, pattern, compute_indices)
    }
}

/// The matched indices of a fuzzy match ascend, lie inside the choice, and
/// number at most the pattern's length; a non-empty pattern matches with a
/// positive score and at least one index.
pub proof fn law_match_indices(case: CaseMatching, choice: Seq<char>, pattern: Seq<char>)
    requires
        choice.len() <= usize::MAX,
    ensures
        spec_run(case, choice, pattern, true) matches Some(r) ==> {
            &&& r.1.len() <= pattern.len()
            &&& (pattern.len() > 0 ==> r.0 > 0 && r.1.len() >= 1)
            &&& forall|a: int, b: int| 0 <= a < b < r.1.len() ==> #[trigger] r.1[a] < #[trigger] r.1[b]
            &&& forall|k: int| 0 <= k < r.1.len() ==> #[trigger] r.1[k] < choice.len()
        },
{
    if pattern.len() > 0 && choice.len() > 0 {
        if vstd::utf8::is_ascii_chars(choice) && vstd::utf8::is_ascii_chars(pattern) {
            let cho = ascii_bytes(choice);
            let pat = ascii_bytes(pattern);
            lemma_full_dp_indices(cho, pat, spec_bonuses(cho), spec_respect_case(case, pat), false);
        } else {
            lemma_full_dp_indices(choice, pattern, spec_bonuses(choice), spec_respect_case(case, pattern), false);
        }
    }
}

/// Scoring alone and scoring with indices agree on the score.
pub proof fn law_match_score_agrees(case: CaseMatching, choice: Seq<char>, pattern: Seq<char>)
    ensures
        spec_run(case, choice, pattern, true) matches Some(r) ==> spec_run(case, choice, pattern, false) == Some(
            (r.0, Seq::<usize>::empty()),
        ),
{
}

/// Scoring alone finds a match exactly when scoring with indices does.
pub proof fn law_match_found_alike(case: CaseMatching, choice: Seq<char>, pattern: Seq<char>)
    ensures
        spec_run(case, choice, pattern, false) is Some <==> spec_run(case, choice, pattern, true) is Some,
{
}

/// `pat` occurs in `cho` in order, each element matched under the case rule.
pub open spec fn is_subsequence_under<C: Atom>(pat: Seq<C>, cho: Seq<C>, respect_case: bool) -> bool {
    exists|cols: Seq<int>|
        {
            &&& cols.len() == pat.len()
            &&& forall|i: int|
                0 <= i < pat.len() ==> 0 <= #[trigger] cols[i] < cho.len() && atom_eq(
                    pat[i],
                    cho[cols[i]],
                    respect_case,
                )
            &&& forall|i: int, k: int| 0 <= i < k < pat.len() ==> #[trigger] cols[i] < #[trigger] cols[k]
        }
}

/// A fuzzy match is found only where the pattern is a subsequence of the
/// choice, element by element under the case rule in force.
pub proof fn law_match_is_subsequence<C: Atom>(
    case: CaseMatching,
    cho: Seq<C>,
    pat: Seq<C>,
    compute_indices: bool,
)
    ensures
        spec_match_slices(case, cho, pat, compute_indices) is Some ==> is_subsequence_under(
            pat,
            cho,
            spec_respect_case(case, pat),
        ),
{
    let rc = spec_respect_case(case, pat);
    if pat.len() == 0 {
        let cols = Seq::<int>::empty();
        assert(cols.len() == pat.len());
    } else if spec_match_slices(case, cho, pat, compute_indices) is Some {
        let n = pat.len();
        assert(spec_full_dp(compute_indices, cho, pat, spec_bonuses(cho), rc, false) is Some);
        assert(spec_banding(false, pat, cho, rc) is Some);
        assert(n <= MAX_PAT_LEN);
        assert(greedy_first(pat, cho, rc, n) is Some);
        lemma_greedy_first_bounds(pat, cho, rc, n);
        let f = greedy_first(pat, cho, rc, n)->Some_0;
        let cols = Seq::new(n, |i: int| f[i] - 1);
        assert forall|i: int, k: int| 0 <= i < k < pat.len() implies #[trigger] cols[i] < #[trigger] cols[k] by {
            lemma_greedy_ascends(f, i, k);
        }
        assert(forall|i: int| 0 <= i < pat.len() ==> 0 <= #[trigger] cols[i] < cho.len() && atom_eq(
            pat[i],
            cho[cols[i]],
            rc,
        ));
        assert(cols.len() == pat.len());
    }
}

/// A pattern of at most `MAX_PAT_LEN` elements matches exactly when it is
/// a subsequence of the choice under the case rule in force.
pub proof fn law_match_iff_subsequence<C: Atom>(
    case: CaseMatching,
    cho: Seq<C>,
    pat: Seq<C>,
    compute_indices: bool,
)
    requires
        pat.len() <= MAX_PAT_LEN,
    ensures
        spec_match_slices(case, cho, pat, compute_indices) is Some <==> is_subsequence_under(
            pat,
            cho,
            spec_respect_case(case, pat),
        ),
{
    law_match_is_subsequence(case, cho, pat, compute_indices);
    let rc = spec_respect_case(case, pat);
    if pat.len() > 0 && is_subsequence_under(pat, cho, rc) {
        let cols = choose|cols: Seq<int>|
            {
                &&& cols.len() == pat.len()
                &&& forall|i: int|
                    0 <= i < pat.len() ==> 0 <= #[trigger] cols[i] < cho.len() && atom_eq(pat[i], cho[cols[i]], rc)
                &&& forall|i: int, k: int| 0 <= i < k < pat.len() ==> #[trigger] cols[i] < #[trigger] cols[k]
            };
        assert(0 <= cols[0] < cho.len());
        let c1 = Seq::new(pat.len(), |i: int| cols[i] + 1);
        assert forall|i: int| 0 < i < pat.len() implies c1[i - 1] < #[trigger] c1[i] by {
            assert(cols[i - 1] < cols[i]);
        }
        assert forall|i: int| 0 <= i < pat.len() implies 1 <= #[trigger] c1[i] <= cho.len() && atom_eq(
            pat[i],
            cho[c1[i] - 1],
            rc,
        ) by {
            assert(0 <= cols[i] < cho.len());
        }
        assert(embeds(pat, cho, rc, c1, pat.len() as int));
        let bon = spec_bonuses(cho);
        assert forall|k: int| 0 <= k < bon.len() implies 0 <= #[trigger] bon[k] <= 22 by {
            if k > 0 {
                let c = cho[k - 1];
                assert(0 <= atom_separator_bonus(c) <= 16);
            }
        }
        law_subsequence_matches(compute_indices, cho, pat, bon, rc, false, c1);
    }
}

/// Smart case: a pattern with an element that is not lower case matches
/// only where it occurs case-exactly, in order, in the choice; an all
/// lower-case pattern matches where it occurs ignoring case. `Respect`
/// always compares exactly and `Ignore` never does. For patterns of at most
/// `MAX_PAT_LEN` elements these are exactly the inputs that match.
pub proof fn law_case_rules<C: Atom>(case: CaseMatching, cho: Seq<C>, pat: Seq<C>, compute_indices: bool)
    ensures
        case == CaseMatching::Smart && (exists|k: int| 0 <= k < pat.len() && !(#[trigger] pat[k]).spec_is_lower())
            && spec_match_slices(case, cho, pat, compute_indices) is Some ==> is_subsequence_under(pat, cho, true),
        case == CaseMatching::Smart && (forall|k: int| 0 <= k < pat.len() ==> (#[trigger] pat[k]).spec_is_lower())
            && spec_match_slices(case, cho, pat, compute_indices) is Some ==> is_subsequence_under(pat, cho, false),
        case == CaseMatching::Respect && spec_match_slices(case, cho, pat, compute_indices) is Some
            ==> is_subsequence_under(pat, cho, true),
        case == CaseMatching::Ignore && spec_match_slices(case, cho, pat, compute_indices) is Some
            ==> is_subsequence_under(pat, cho, false),
        pat.len() <= MAX_PAT_LEN && case == CaseMatching::Smart && (exists|k: int|
            0 <= k < pat.len() && !(#[trigger] pat[k]).spec_is_lower()) ==> (spec_match_slices(
            case,
            cho,
            pat,
            compute_indices,
        ) is Some <==> is_subsequence_under(pat, cho, true)),
        pat.len() <= MAX_PAT_LEN && case == CaseMatching::Smart && (forall|k: int|
            0 <= k < pat.len() ==> (#[trigger] pat[k]).spec_is_lower()) ==> (spec_match_slices(
            case,
            cho,
            pat,
            compute_indices,
        ) is Some <==> is_subsequence_under(pat, cho, false)),
        pat.len() <= MAX_PAT_LEN && case == CaseMatching::Respect ==> (spec_match_slices(
            case,
            cho,
            pat,
            compute_indices,
        ) is Some <==> is_subsequence_under(pat, cho, true)),
        pat.len() <= MAX_PAT_LEN && case == CaseMatching::Ignore ==> (spec_match_slices(
            case,
            cho,
            pat,
            compute_indices,
        ) is Some <==> is_subsequence_under(pat, cho, false)),
{
    law_match_is_subsequence(case, cho, pat, compute_indices);
    if pat.len() <= MAX_PAT_LEN {
        law_match_iff_subsequence(case, cho, pat, compute_indices);
    }
    if exists|k: int| 0 <= k < pat.len() && !(#[trigger] pat[k]).spec_is_lower() {
        let k = choose|k: int| 0 <= k < pat.len() && !(#[trigger] pat[k]).spec_is_lower();
        assert(!(forall|j: int| 0 <= j < pat.len() ==> #[trigger] pat[j].spec_is_lower()));
    }
}

proof fn lemma_greedy_ascends(f: Seq<int>, i: int, k: int)
    requires
        0 <= i < k < f.len(),
        forall|t: int| 0 < t < f.len() ==> f[t - 1] < #[trigger] f[t],
    ensures
        f[i] < f[k],
    decreases k - i,
{
    if k > i + 1 {
        lemma_greedy_ascends(f, i, k - 1);
    }
    assert(f[k - 1] < f[k]);
}

/// Arinae fuzzy matcher: Smith-Waterman local alignment with affine gap
/// penalties and context-sensitive bonuses.
#[derive(Debug)]
pub struct ArinaeMatcher {
    pub case: CaseMatching,
}

impl ArinaeMatcher {
    pub fn new(case: CaseMatching) -> (r: Self)
        ensures
            r.case == case,
    {
        Self { case }
    }

    fn respect_case<C: Atom>(&self, pattern: &[C]) -> (r: bool)
        ensures
            r == spec_respect_case(self.case, pattern@),
    {
        if self.case == CaseMatching::Respect {
            return true;
        }
        if self.case != CaseMatching::Smart {
            return false;
        }
        let mut k: usize = 0;
        while k < pattern.len()
            invariant
                k <= pattern@.len(),
                self.case == CaseMatching::Smart,
                forall|i: int| 0 <= i < k ==> #[trigger] pattern@[i].spec_is_lower(),
            decreases pattern.len() - k,
        {
            if !pattern[k].is_lowercase() {
                return true;
            }
            k += 1;
        }
        false
    }

    fn dispatch_dp<C: Atom>(
        &self,
        cho: &[C],
        pat: &[C],
        bonuses: &[i16],
        respect_case: bool,
        compute_indices: bool,
    ) -> (r: Option<(i64, Vec<usize>)>)
        requires
            pat@.len() >= 1,
            cho@.len() >= 1,
            choice_fits(cho@.len()),
            bonuses@.len() == cho@.len(),
            forall|k: int| 0 <= k < bonuses@.len() ==> 0 <= #[trigger] bonuses@[k] <= 22,
        ensures
            match r {
                None => spec_full_dp(compute_indices, cho@, pat@, bonuses@, respect_case, false) is None,
                Some((s, v)) => spec_full_dp(compute_indices, cho@, pat@, bonuses@, respect_case, false)
                    == Some((s as int, v@)),
            },
    {
        let res = if compute_indices {
            full_dp(true, cho, pat, bonuses, respect_case, false)
        } else {
            full_dp(false, cho, pat, bonuses, respect_case, false)
        };
        match res {
            Some((s, idx)) => Some((s as i64, idx)),
            None => None,
        }
    }

    fn match_slices<C: Atom>(&self, cho: &[C], pat: &[C], compute_indices: bool) -> (r: Option<
        (i64, Vec<usize>),
    >)
        requires
            choice_fits(cho@.len()),
        ensures
            match r {
                None => spec_match_slices(self.case, cho@, pat@, compute_indices) is None,
                Some((s, v)) => spec_match_slices(self.case, cho@, pat@, compute_indices) == Some(
                    (s as int, v@),
                ),
            },
    {
        if pat.len() == 0 {
            return Some((0, Vec::new()));
        }
        if cho.len() == 0 {
            return None;
        }
        let respect_case = self.respect_case(pat);
        let mut bonus_buf: Vec<i16> = Vec::new();
        precompute_bonuses(cho, &mut bonus_buf);
        self.dispatch_dp(cho, pat, bonus_buf.as_slice(), respect_case, compute_indices)
    }

    fn run(&self, choice: &str, pattern: &str, compute_indices: bool) -> (r: Option<(i64, Vec<usize>)>)
        requires
            choice_fits(choice@.len()),
        ensures
            match r {
                None => spec_run(self.case, choice@, pattern@, compute_indices) is None,
                Some((s, v)) => spec_run(self.case, choice@, pattern@, compute_indices) == Some(
                    (s as int, v@),
                ),
            },
    {
        if pattern.is_empty() {
            return Some((0, Vec::new()));
        }
        if choice.is_empty() {
            return None;
        }
        if choice.is_ascii() && pattern.is_ascii() {
            let cho = choice.as_bytes();
            let pat = pattern.as_bytes();
            proof {
                vstd::string::is_ascii_spec_bytes(choice);
                vstd::string::is_ascii_spec_bytes(pattern);
                assert(cho@ =~= ascii_bytes(choice@));
                assert(pat@ =~= ascii_bytes(pattern@));
            }
            return self.match_slices(cho, pat, compute_indices);
        }
        let pat_buf = chars_of(pattern);
        let cho_buf = chars_of(choice);
        self.match_slices(cho_buf.as_slice(), pat_buf.as_slice(), compute_indices)
    }

    /// Fuzzy match and return score only.
    pub fn fuzzy_match(&self, choice: &str, pattern: &str) -> (r: Option<i64>)
        requires
            choice_fits(choice@.len()),
        ensures
            match r {
                None => spec_run(self.case, choice@, pattern@, false) is None,
                Some(s) => spec_run(self.case, choice@, pattern@, false) matches Some(x) && x.0
                    == s as int,
            },
    {
        match self.run(choice, pattern, false) {
            Some((s, _)) => Some(s),
            None => None,
        }
    }

    /// Fuzzy match and return score + matched character indices.
    pub fn fuzzy_indices(&self, choice: &str, pattern: &str) -> (r: Option<(i64, Vec<usize>)>)
        requires
            choice_fits(choice@.len()),
        ensures
            match r {
                None => spec_run(self.case, choice@, pattern@, true) is None,
                Some((s, v)) => spec_run(self.case, choice@, pattern@, true) == Some((s as int, v@)),
            },
    {
        self.run(choice, pattern, true)
    }
}

} // verus!
