//! Prefilters running before the algorithm, to skip choices that cannot
//! match.

use vstd::prelude::*;
use super::atom::{atom_eq, eq, first_match_from, Atom};
use super::constants::MAX_PAT_LEN;

verus! {

/// The distinct elements of the first `n` of `s`, in order of first
/// appearance: an element is new unless it matches one kept before it.
pub open spec fn distinct_keys<C: Atom>(s: Seq<C>, rc: bool, n: nat) -> Seq<C>
    decreases n,
{
    if n == 0 {
        Seq::empty()
    } else {
        let d = distinct_keys(s, rc, (n - 1) as nat);
        if exists|k: int| 0 <= k < d.len() && atom_eq(s[n - 1], #[trigger] d[k], rc) {
            d
        } else {
            d.push(s[n - 1])
        }
    }
}

/// Index of the first key that matches window element `c`.
pub open spec fn key_of_elem<C: Atom>(keys: Seq<C>, c: C, rc: bool) -> Option<int>
    decreases keys.len(),
{
    if keys.len() == 0 {
        None
    } else {
        match key_of_elem(keys.drop_last(), c, rc) {
            Some(k) => Some(k),
            None => if atom_eq(keys.last(), c, rc) {
                Some(keys.len() - 1)
            } else {
                None
            },
        }
    }
}

/// Index of the first key that pattern element `p` matches.
pub open spec fn key_of_pat<C: Atom>(keys: Seq<C>, p: C, rc: bool) -> Option<int>
    decreases keys.len(),
{
    if keys.len() == 0 {
        None
    } else {
        match key_of_pat(keys.drop_last(), p, rc) {
            Some(k) => Some(k),
            None => if atom_eq(p, keys.last(), rc) {
                Some(keys.len() - 1)
            } else {
                None
            },
        }
    }
}

/// Window elements, among the first `n`, that fall to key `k`.
pub open spec fn have_count<C: Atom>(keys: Seq<C>, w: Seq<C>, rc: bool, k: int, n: nat) -> nat
    decreases n,
{
    if n == 0 {
        0
    } else {
        have_count(keys, w, rc, k, (n - 1) as nat) + if key_of_elem(keys, w[n - 1], rc) == Some(k) {
            1nat
        } else {
            0nat
        }
    }
}

/// Tail elements, among the first `n`, that fall to key `k`.
pub open spec fn need_count<C: Atom>(keys: Seq<C>, tl: Seq<C>, rc: bool, k: int, n: nat) -> nat
    decreases n,
{
    if n == 0 {
        0
    } else {
        need_count(keys, tl, rc, k, (n - 1) as nat) + if key_of_pat(keys, tl[n - 1], rc) == Some(k) {
            1nat
        } else {
            0nat
        }
    }
}

pub open spec fn min_nat(a: nat, b: nat) -> nat {
    if a <= b {
        a
    } else {
        b
    }
}

/// How many of the first `n` tail elements find a window element of
/// their key, summed over the first `nk` keys; window counts saturate at
/// 255.
pub open spec fn matched_upto<C: Atom>(keys: Seq<C>, tl: Seq<C>, w: Seq<C>, rc: bool, n: nat, nk: nat) -> nat
    decreases nk,
{
    if nk == 0 {
        0
    } else {
        let k = nk - 1;
        matched_upto(keys, tl, w, rc, n, (nk - 1) as nat) + min_nat(
            need_count(keys, tl, rc, k, n),
            min_nat(have_count(keys, w, rc, k, w.len()), 255),
        )
    }
}

/// The tail of the pattern (at most `MAX_PAT_LEN - 1` elements after the
/// first) that the frequency check looks at.
pub open spec fn checked_tail<C: Atom>(pattern: Seq<C>) -> Seq<C> {
    let tail = pattern.skip(1);
    tail.take(
        if tail.len() <= MAX_PAT_LEN - 1 {
            tail.len() as int
        } else {
            MAX_PAT_LEN - 1
        },
    )
}

/// Whether at least `min_tail` elements of the pattern's tail, and at
/// least one, can each be paired with a distinct matching element of
/// `window`.
pub open spec fn spec_tail_freq_check<C: Atom>(pattern: Seq<C>, window: Seq<C>, rc: bool, min_tail: nat) -> bool {
    let tl = checked_tail(pattern);
    let keys = distinct_keys(tl, rc, tl.len());
    let matched = matched_upto(keys, tl, window, rc, tl.len(), keys.len());
    matched >= min_tail && matched > 0
}

/// Quick rejection before a typo-tolerant match: the pattern is at most two
/// longer than the choice, its first element occurs in the choice, and
/// after that occurrence enough of its tail (half, rounded down) can be
/// found.
pub open spec fn spec_cheap_typo_prefilter<C: Atom>(pattern: Seq<C>, choice: Seq<C>, rc: bool) -> bool {
    let n = pattern.len();
    if n > choice.len() + 2 {
        false
    } else {
        match first_match_from(pattern[0], choice, rc, 0) {
            None => false,
            Some(j) => if n == 1 || (n - 1) / 2 == 0 {
                true
            } else {
                spec_tail_freq_check(pattern, choice.skip(j), rc, ((n - 1) / 2) as nat)
            },
        }
    }
}

/// Sum over the first `nk` keys of `f`.
pub open spec fn sum_keys(f: spec_fn(int) -> nat, nk: nat) -> nat
    decreases nk,
{
    if nk == 0 {
        0
    } else {
        sum_keys(f, (nk - 1) as nat) + f(nk - 1)
    }
}

proof fn lemma_sum_bump(f: spec_fn(int) -> nat, g: spec_fn(int) -> nat, k0: int, d: nat, nk: nat)
    requires
        0 <= k0 < nk,
        forall|k: int| 0 <= k < nk && k != k0 ==> #[trigger] f(k) == g(k),
        g(k0) == f(k0) + d,
    ensures
        sum_keys(g, nk) == sum_keys(f, nk) + d,
    decreases nk,
{
    if nk - 1 > k0 {
        lemma_sum_bump(f, g, k0, d, (nk - 1) as nat);
    } else {
        lemma_sum_same(f, g, (nk - 1) as nat);
    }
}

proof fn lemma_sum_same(f: spec_fn(int) -> nat, g: spec_fn(int) -> nat, nk: nat)
    requires
        forall|k: int| 0 <= k < nk ==> #[trigger] f(k) == g(k),
    ensures
        sum_keys(g, nk) == sum_keys(f, nk),
    decreases nk,
{
    if nk > 0 {
        lemma_sum_same(f, g, (nk - 1) as nat);
    }
}

proof fn lemma_sum_mono(f: spec_fn(int) -> nat, g: spec_fn(int) -> nat, nk: nat)
    requires
        forall|k: int| 0 <= k < nk ==> #[trigger] f(k) <= g(k),
    ensures
        sum_keys(f, nk) <= sum_keys(g, nk),
    decreases nk,
{
    if nk > 0 {
        lemma_sum_mono(f, g, (nk - 1) as nat);
    }
}

/// The summand of `matched_upto` for tail prefix `n`.
pub open spec fn matched_term<C: Atom>(keys: Seq<C>, tl: Seq<C>, w: Seq<C>, rc: bool, n: nat) -> spec_fn(int) -> nat {
    |k: int| min_nat(need_count(keys, tl, rc, k, n), min_nat(have_count(keys, w, rc, k, w.len()), 255))
}

proof fn lemma_matched_sum<C: Atom>(keys: Seq<C>, tl: Seq<C>, w: Seq<C>, rc: bool, n: nat, nk: nat)
    ensures
        matched_upto(keys, tl, w, rc, n, nk) == sum_keys(matched_term(keys, tl, w, rc, n), nk),
    decreases nk,
{
    if nk > 0 {
        lemma_matched_sum(keys, tl, w, rc, n, (nk - 1) as nat);
    }
}

proof fn lemma_need_mono<C: Atom>(keys: Seq<C>, tl: Seq<C>, rc: bool, k: int, a: nat, b: nat)
    requires
        a <= b,
    ensures
        need_count(keys, tl, rc, k, a) <= need_count(keys, tl, rc, k, b),
    decreases b,
{
    if a < b {
        lemma_need_mono(keys, tl, rc, k, a, (b - 1) as nat);
    }
}

proof fn lemma_key_of_elem<C: Atom>(keys: Seq<C>, c: C, rc: bool)
    ensures
        key_of_elem(keys, c, rc) matches Some(k) ==> 0 <= k < keys.len() && atom_eq(keys[k], c, rc),
    decreases keys.len(),
{
    if keys.len() > 0 {
        lemma_key_of_elem(keys.drop_last(), c, rc);
    }
}

proof fn lemma_key_of_pat<C: Atom>(keys: Seq<C>, p: C, rc: bool)
    ensures
        key_of_pat(keys, p, rc) matches Some(k) ==> 0 <= k < keys.len(),
    decreases keys.len(),
{
    if keys.len() > 0 {
        lemma_key_of_pat(keys.drop_last(), p, rc);
    }
}

/// First key matching window element `c`, from the first `n` keys.
fn find_key_elem<C: Atom>(keys: &Vec<C>, c: C, rc: bool) -> (r: Option<usize>)
    ensures
        match r {
            Some(k) => key_of_elem(keys@, c, rc) == Some(k as int),
            None => key_of_elem(keys@, c, rc) is None,
        },
{
    let mut r: Option<usize> = None;
    let mut i: usize = 0;
    while i < keys.len()
        invariant
            i <= keys@.len(),
            match r {
                Some(k) => key_of_elem(keys@.take(i as int), c, rc) == Some(k as int),
                None => key_of_elem(keys@.take(i as int), c, rc) is None,
            },
        decreases keys.len() - i,
    {
        assert(keys@.take(i + 1).drop_last() =~= keys@.take(i as int));
        if r.is_none() && eq(keys[i], c, rc) {
            r = Some(i);
        }
        i += 1;
    }
    assert(keys@.take(keys.len() as int) =~= keys@);
    r
}

/// First key that pattern element `p` matches.
fn find_key_pat<C: Atom>(keys: &Vec<C>, p: C, rc: bool) -> (r: Option<usize>)
    ensures
        match r {
            Some(k) => key_of_pat(keys@, p, rc) == Some(k as int),
            None => key_of_pat(keys@, p, rc) is None,
        },
{
    let mut r: Option<usize> = None;
    let mut i: usize = 0;
    while i < keys.len()
        invariant
            i <= keys@.len(),
            match r {
                Some(k) => key_of_pat(keys@.take(i as int), p, rc) == Some(k as int),
                None => key_of_pat(keys@.take(i as int), p, rc) is None,
            },
        decreases keys.len() - i,
    {
        assert(keys@.take(i + 1).drop_last() =~= keys@.take(i as int));
        if r.is_none() && eq(p, keys[i], rc) {
            r = Some(i);
        }
        i += 1;
    }
    assert(keys@.take(keys.len() as int) =~= keys@);
    r
}

/// Whether at least `min_tail` elements of the pattern's tail each find a
/// distinct matching element in `window`.
pub fn tail_freq_check<C: Atom>(pattern: &[C], window: &[C], respect_case: bool, min_tail: usize) -> (r: bool)
    requires
        pattern@.len() >= 2,
    ensures
        r == spec_tail_freq_check(pattern@, window@, respect_case, min_tail as nat),
{
    let ghost tl = checked_tail(pattern@);
    let plen = pattern.len();
    let tail_len = if plen - 1 <= MAX_PAT_LEN - 1 {
        plen - 1
    } else {
        MAX_PAT_LEN - 1
    };
    assert(tl.len() == tail_len);
    assert(forall|i: int| 0 <= i < tail_len ==> tl[i] == pattern@[i + 1]);
    // Distinct keys of the tail.
    let mut keys: Vec<C> = Vec::new();
    let mut i: usize = 0;
    while i < tail_len
        invariant
            i <= tail_len == tl.len(),
            plen == pattern@.len(),
            tail_len < plen,
            forall|j: int| 0 <= j < tail_len ==> tl[j] == pattern@[j + 1],
            keys@ == distinct_keys(tl, respect_case, i as nat),
        decreases tail_len - i,
    {
        let pi = pattern[i + 1];
        let mut seen = false;
        let mut k: usize = 0;
        while k < keys.len()
            invariant
                k <= keys@.len(),
                seen <==> exists|j: int| 0 <= j < k && atom_eq(pi, #[trigger] keys@[j], respect_case),
            decreases keys.len() - k,
        {
            if eq(pi, keys[k], respect_case) {
                seen = true;
            }
            k += 1;
        }
        if !seen {
            keys.push(pi);
        }
        i += 1;
    }
    let nk = keys.len();
    // Window counts per key, saturating at 255.
    let mut counts: Vec<u8> = Vec::new();
    let mut k: usize = 0;
    while k < nk
        invariant
            k <= nk == keys@.len(),
            counts@.len() == k,
            forall|j: int| 0 <= j < k ==> counts@[j] == 0,
        decreases nk - k,
    {
        counts.push(0);
        k += 1;
    }
    let mut w: usize = 0;
    while w < window.len()
        invariant
            w <= window@.len(),
            nk == keys@.len() == counts@.len(),
            forall|j: int|
                0 <= j < nk ==> #[trigger] counts@[j] == min_nat(
                    have_count(keys@, window@, respect_case, j, w as nat),
                    255,
                ),
        decreases window.len() - w,
    {
        proof {
            lemma_key_of_elem(keys@, window@[w as int], respect_case);
        }
        match find_key_elem(&keys, window[w], respect_case) {
            Some(e) => {
                let c = counts[e];
                let c2 = if c < 255 {
                    c + 1
                } else {
                    255
                };
                counts.set(e, c2);
            },
            None => {},
        }
        w += 1;
    }
    // Pair tail elements with window elements of their key.
    let ghost keys_s = keys@;
    let ghost have = |j: int| min_nat(have_count(keys_s, window@, respect_case, j, window@.len()), 255);
    let mut matched: usize = 0;
    let mut t: usize = 0;
    proof {
        lemma_matched_sum(keys_s, tl, window@, respect_case, 0, nk as nat);
        lemma_sum_zero(matched_term(keys_s, tl, window@, respect_case, 0), nk as nat);
    }
    while t < tail_len
        invariant
            t <= tail_len == tl.len(),
            plen == pattern@.len(),
            tail_len < plen,
            forall|j: int| 0 <= j < tail_len ==> tl[j] == pattern@[j + 1],
            keys@ == keys_s,
            nk == keys_s.len() == counts@.len(),
            have == (|j: int| min_nat(have_count(keys_s, window@, respect_case, j, window@.len()), 255)),
            forall|j: int|
                0 <= j < nk ==> #[trigger] counts@[j] + min_nat(need_count(keys_s, tl, respect_case, j, t as nat), have(j))
                    == have(j),
            matched == sum_keys(matched_term(keys_s, tl, window@, respect_case, t as nat), nk as nat),
            keys_s == distinct_keys(tl, respect_case, tl.len()),
            tl == checked_tail(pattern@),
            matched <= t,
            matched == 0 || matched < min_tail,
        decreases tail_len - t,
    {
        let pi = pattern[t + 1];
        proof {
            lemma_key_of_pat(keys_s, pi, respect_case);
        }
        let ghost f = matched_term(keys_s, tl, window@, respect_case, t as nat);
        let ghost g = matched_term(keys_s, tl, window@, respect_case, (t + 1) as nat);
        match find_key_pat(&keys, pi, respect_case) {
            Some(e) => {
                proof {
                    assert forall|j: int| 0 <= j < nk && j != e implies #[trigger] f(j) == g(j) by {}
                }
                if counts[e] > 0 {
                    counts.set(e, counts[e] - 1);
                    proof {
                        lemma_sum_bump(f, g, e as int, 1, nk as nat);
                    }
                    matched += 1;
                    if matched >= min_tail {
                        proof {
                            lemma_matched_sum(keys_s, tl, window@, respect_case, (t + 1) as nat, nk as nat);
                            lemma_matched_final(keys_s, tl, window@, respect_case, (t + 1) as nat, nk as nat);
                        }
                        return true;
                    }
                } else {
                    proof {
                        lemma_sum_bump(f, g, e as int, 0, nk as nat);
                    }
                }
            },
            None => {
                proof {
                    lemma_sum_same(f, g, nk as nat);
                }
            },
        }
        t += 1;
    }
    proof {
        lemma_matched_sum(keys_s, tl, window@, respect_case, tl.len(), nk as nat);
    }
    false
}

proof fn lemma_sum_zero(f: spec_fn(int) -> nat, nk: nat)
    requires
        forall|k: int| 0 <= k < nk ==> #[trigger] f(k) == 0,
    ensures
        sum_keys(f, nk) == 0,
    decreases nk,
{
    if nk > 0 {
        lemma_sum_zero(f, (nk - 1) as nat);
    }
}

/// Pairing more of the tail never pairs fewer.
proof fn lemma_matched_final<C: Atom>(keys: Seq<C>, tl: Seq<C>, w: Seq<C>, rc: bool, n: nat, nk: nat)
    requires
        n <= tl.len(),
    ensures
        matched_upto(keys, tl, w, rc, n, nk) <= matched_upto(keys, tl, w, rc, tl.len(), nk),
{
    lemma_matched_sum(keys, tl, w, rc, n, nk);
    lemma_matched_sum(keys, tl, w, rc, tl.len(), nk);
    let f = matched_term(keys, tl, w, rc, n);
    let g = matched_term(keys, tl, w, rc, tl.len());
    assert forall|k: int| 0 <= k < nk implies #[trigger] f(k) <= g(k) by {
        lemma_need_mono(keys, tl, rc, k, n, tl.len());
    }
    lemma_sum_mono(f, g, nk);
}

/// Quick rejection for typo-tolerant matching: the pattern is at most two
/// longer than the choice, its first element occurs in the choice, and
/// after that occurrence at least half of the rest of it can be found.
pub fn cheap_typo_prefilter<C: Atom>(pattern: &[C], choice: &[C], respect_case: bool) -> (r: bool)
    requires
        pattern@.len() >= 1,
    ensures
        r == spec_cheap_typo_prefilter(pattern@, choice@, respect_case),
{
    let n = pattern.len();
    let m = choice.len();
    if n >= 3 && n - 2 > m {
        return false;
    }
    let first = pattern[0];
    let j_first = match super::atom::position(first, choice, 0, respect_case) {
        Some(j) => j,
        None => {
            return false;
        },
    };
    proof {
        super::atom::lemma_first_match_from(first, choice@, respect_case, 0);
    }
    if n == 1 {
        return true;
    }
    let min_tail = (n - 1) / 2;
    if min_tail == 0 {
        return true;
    }
    let window = vstd::slice::slice_subrange(choice, j_first, m);
    assert(window@ =~= choice@.skip(j_first as int));
    tail_freq_check(pattern, window, respect_case, min_tail)
}

} // verus!
