//! Byte/char helpers: the element types a pattern and a choice are made of.

use vstd::prelude::*;
use super::constants::{separator_bonus_of, spec_separator_bonus};

verus! {

/// An element of a pattern or choice: a byte of an ASCII string, or a char.
pub trait Atom: Copy + Sized {
    /// Equal when case is ignored.
    spec fn spec_fold_eq(self, other: Self) -> bool;

    spec fn spec_is_lower(self) -> bool;

    /// The code point, as the element converts to `char`.
    spec fn spec_code(self) -> u32;

    fn same(self, other: Self) -> (r: bool)
        ensures
            r == (self == other),
    ;

    fn eq_ignore_case(self, other: Self) -> (r: bool)
        ensures
            r == self.spec_fold_eq(other),
    ;

    fn is_lowercase(self) -> (r: bool)
        ensures
            r == self.spec_is_lower(),
    ;

    fn code(self) -> (r: u32)
        ensures
            r == self.spec_code(),
    ;

    /// Position of the first element of `haystack` equal to `self`.
    fn find_first_in(self, haystack: &[Self], respect_case: bool) -> (r: Option<usize>)
        ensures
            r matches Some(j) ==> j < haystack@.len() && (if respect_case {
                self == haystack@[j as int]
            } else {
                self.spec_fold_eq(haystack@[j as int])
            }) && forall|i: int|
                0 <= i < j ==> !(if respect_case {
                    self == #[trigger] haystack@[i]
                } else {
                    self.spec_fold_eq(haystack@[i])
                }),
            r is None ==> forall|i: int|
                0 <= i < haystack@.len() ==> !(if respect_case {
                    self == #[trigger] haystack@[i]
                } else {
                    self.spec_fold_eq(haystack@[i])
                }),
    ;
}

pub open spec fn as_index(o: Option<int>) -> Option<usize> {
    match o {
        Some(j) => Some(j as usize),
        None => None,
    }
}

pub proof fn lemma_as_index_inv(o: Option<int>, bound: nat)
    requires
        o matches Some(j) ==> 0 <= j < bound,
        bound <= usize::MAX,
    ensures
        as_index(o) matches Some(a) ==> o == Some(a as int),
        as_index(o) is None <==> o is None,
{
}

pub open spec fn atom_eq<C: Atom>(a: C, b: C, respect_case: bool) -> bool {
    if respect_case {
        a == b
    } else {
        a.spec_fold_eq(b)
    }
}

pub fn eq<C: Atom>(a: C, b: C, respect_case: bool) -> (r: bool)
    ensures
        r == atom_eq(a, b, respect_case),
{
    if respect_case {
        a.same(b)
    } else {
        a.eq_ignore_case(b)
    }
}

/// First index `>= k` of `hay` whose element equals `c`.
pub open spec fn first_match_from<C: Atom>(c: C, hay: Seq<C>, respect_case: bool, k: int) -> Option<
    int,
>
    decreases hay.len() - k,
{
    if k < 0 || k >= hay.len() {
        None
    } else if atom_eq(c, hay[k], respect_case) {
        Some(k)
    } else {
        first_match_from(c, hay, respect_case, k + 1)
    }
}

pub proof fn lemma_first_match_from<C: Atom>(c: C, hay: Seq<C>, respect_case: bool, k: int)
    requires
        0 <= k <= hay.len(),
    ensures
        first_match_from(c, hay, respect_case, k) matches Some(j) ==> k <= j < hay.len()
            && atom_eq(c, hay[j], respect_case) && forall|i: int|
            k <= i < j ==> !atom_eq(c, #[trigger] hay[i], respect_case),
        first_match_from(c, hay, respect_case, k) is None ==> forall|i: int|
            k <= i < hay.len() ==> !atom_eq(c, #[trigger] hay[i], respect_case),
    decreases hay.len() - k,
{
    if k < hay.len() && !atom_eq(c, hay[k], respect_case) {
        lemma_first_match_from(c, hay, respect_case, k + 1);
    }
}

/// Scans `haystack` for the first element equal to `c`.
pub fn position<C: Atom>(c: C, haystack: &[C], start: usize, respect_case: bool) -> (r: Option<usize>)
    requires
        start <= haystack@.len(),
    ensures
        r == as_index(first_match_from(c, haystack@, respect_case, start as int)),
{
    let mut k = start;
    while k < haystack.len()
        invariant
            start <= k <= haystack@.len(),
            first_match_from(c, haystack@, respect_case, k as int) == first_match_from(
                c,
                haystack@,
                respect_case,
                start as int,
            ),
        decreases haystack.len() - k,
    {
        if eq(c, haystack[k], respect_case) {
            return Some(k);
        }
        k += 1;
    }
    None
}

/// Bonus for a match right after this element.
pub open spec fn atom_separator_bonus<C: Atom>(c: C) -> i16 {
    if c.spec_code() < 128 {
        spec_separator_bonus(c.spec_code())
    } else {
        0
    }
}

/// The first matching position, as the trait method states it.
pub proof fn lemma_find_first<C: Atom>(c: C, hay: Seq<C>, respect_case: bool, r: Option<usize>)
    requires
        r matches Some(j) ==> j < hay.len() && atom_eq(c, hay[j as int], respect_case) && forall|
            i: int,
        | 0 <= i < j ==> !atom_eq(c, #[trigger] hay[i], respect_case),
        r is None ==> forall|i: int| 0 <= i < hay.len() ==> !atom_eq(c, #[trigger] hay[i], respect_case),
    ensures
        r == as_index(first_match_from(c, hay, respect_case, 0)),
{
    lemma_first_match_from(c, hay, respect_case, 0);
    match first_match_from(c, hay, respect_case, 0) {
        Some(j) => {
            if let Some(k) = r {
                if (k as int) < j {
                    assert(!atom_eq(c, hay[k as int], respect_case));
                }
                if j < k {
                    assert(!atom_eq(c, hay[j], respect_case));
                }
            } else {
                assert(!atom_eq(c, hay[j], respect_case));
            }
        },
        None => {
            if let Some(k) = r {
                assert(!atom_eq(c, hay[k as int], respect_case));
            }
        },
    }
}

pub fn separator_bonus<C: Atom>(c: C) -> (r: i16)
    ensures
        r == atom_separator_bonus(c),
        0 <= r <= 16,
{
    let ch = c.code();
    if ch < 128 {
        separator_bonus_of(ch)
    } else {
        0
    }
}

// ── Bytes ──

pub open spec fn ascii_lower(b: u8) -> u8 {
    if 0x41 <= b <= 0x5a {
        (b + 32) as u8
    } else {
        b
    }
}

pub open spec fn ascii_upper(b: u8) -> u8 {
    if 0x61 <= b <= 0x7a {
        (b - 32) as u8
    } else {
        b
    }
}

fn to_ascii_lowercase(b: u8) -> (r: u8)
    ensures
        r == ascii_lower(b),
{
    if 0x41 <= b && b <= 0x5a {
        b + 32
    } else {
        b
    }
}

fn to_ascii_uppercase(b: u8) -> (r: u8)
    ensures
        r == ascii_upper(b),
{
    if 0x61 <= b && b <= 0x7a {
        b - 32
    } else {
        b
    }
}

/// First index `>= k` of `hay` holding exactly `b`.
pub open spec fn first_byte_at(hay: Seq<u8>, b: u8, k: int) -> Option<int>
    decreases hay.len() - k,
{
    if k < 0 || k >= hay.len() {
        None
    } else if hay[k] == b {
        Some(k)
    } else {
        first_byte_at(hay, b, k + 1)
    }
}

proof fn lemma_first_byte_at(hay: Seq<u8>, b: u8, k: int)
    requires
        0 <= k <= hay.len(),
    ensures
        first_byte_at(hay, b, k) matches Some(j) ==> k <= j < hay.len() && hay[j] == b && forall|
            i: int,
        | k <= i < j ==> #[trigger] hay[i] != b,
        first_byte_at(hay, b, k) is None ==> forall|i: int| k <= i < hay.len() ==> #[trigger] hay[i] != b,
    decreases hay.len() - k,
{
    if k < hay.len() && hay[k] != b {
        lemma_first_byte_at(hay, b, k + 1);
    }
}

/// `memchr::memchr`: the index of the first occurrence of `needle` in `haystack`.
#[verifier::external_body]
fn memchr_first(needle: u8, haystack: &[u8]) -> (r: Option<usize>)
    ensures
        r == as_index(first_byte_at(haystack@, needle, 0)),
{
    memchr::memchr(needle, haystack)
}

pub open spec fn min_opt(a: Option<int>, b: Option<int>) -> Option<int> {
    match (a, b) {
        (None, x) => x,
        (x, None) => x,
        (Some(x), Some(y)) => Some(
            if x <= y {
                x
            } else {
                y
            },
        ),
    }
}

/// First index `>= k` of `hay` equal to `b` when ASCII case is ignored.
pub open spec fn first_fold_at(hay: Seq<u8>, b: u8, k: int) -> Option<int>
    decreases hay.len() - k,
{
    if k < 0 || k >= hay.len() {
        None
    } else if ascii_lower(b) == ascii_lower(hay[k]) {
        Some(k)
    } else {
        first_fold_at(hay, b, k + 1)
    }
}

proof fn lemma_first_fold_at(hay: Seq<u8>, b: u8, k: int)
    requires
        0 <= k <= hay.len(),
    ensures
        first_fold_at(hay, b, k) matches Some(j) ==> k <= j < hay.len() && ascii_lower(b)
            == ascii_lower(hay[j]) && forall|i: int|
            k <= i < j ==> ascii_lower(b) != ascii_lower(#[trigger] hay[i]),
        first_fold_at(hay, b, k) is None ==> forall|i: int|
            k <= i < hay.len() ==> ascii_lower(b) != ascii_lower(#[trigger] hay[i]),
        first_fold_at(hay, b, k) == if ascii_lower(b) == ascii_upper(b) {
            first_byte_at(hay, ascii_lower(b), k)
        } else {
            min_opt(first_byte_at(hay, ascii_lower(b), k), first_byte_at(hay, ascii_upper(b), k))
        },
    decreases hay.len() - k,
{
    if k < hay.len() {
        lemma_first_fold_at(hay, b, k + 1);
        lemma_first_byte_at(hay, ascii_lower(b), k + 1);
        lemma_first_byte_at(hay, ascii_upper(b), k + 1);
    }
}

impl Atom for u8 {
    open spec fn spec_fold_eq(self, other: u8) -> bool {
        ascii_lower(self) == ascii_lower(other)
    }

    open spec fn spec_is_lower(self) -> bool {
        0x61 <= self <= 0x7a
    }

    open spec fn spec_code(self) -> u32 {
        self as u32
    }

    fn same(self, other: u8) -> (r: bool) {
        self == other
    }

    fn eq_ignore_case(self, other: u8) -> (r: bool) {
        to_ascii_lowercase(self) == to_ascii_lowercase(other)
    }

    fn is_lowercase(self) -> (r: bool) {
        0x61 <= self && self <= 0x7a
    }

    fn code(self) -> (r: u32) {
        self as u32
    }

    fn find_first_in(self, haystack: &[u8], respect_case: bool) -> (r: Option<usize>) {
        let hl = haystack.len();
        if respect_case {
            proof {
                lemma_first_byte_at(haystack@, self, 0);
            }
            memchr_first(self, haystack)
        } else {
            let lo = to_ascii_lowercase(self);
            let hi = to_ascii_uppercase(self);
            proof {
                lemma_first_fold_at(haystack@, self, 0);
            }
            proof {
                lemma_first_byte_at(haystack@, lo, 0);
                lemma_first_byte_at(haystack@, hi, 0);
            }
            let r = if lo == hi {
                let x = memchr_first(lo, haystack);
                assert(x == as_index(first_fold_at(haystack@, self, 0)));
                x
            } else {
                let p_lo = memchr_first(lo, haystack);
                let p_hi = memchr_first(hi, haystack);
                let ghost flo = first_byte_at(haystack@, lo, 0);
                let ghost fhi = first_byte_at(haystack@, hi, 0);
                assert(first_fold_at(haystack@, self, 0) == min_opt(flo, fhi));
                match (p_lo, p_hi) {
                    (None, x) => {
                        assert(flo is None);
                        x
                    },
                    (x, None) => {
                        assert(fhi is None);
                        x
                    },
                    (Some(a), Some(b)) => {
                        proof {
                            lemma_as_index_inv(flo, haystack@.len());
                            lemma_as_index_inv(fhi, haystack@.len());
                        }
                        Some(
                            if a <= b {
                                a
                            } else {
                                b
                            },
                        )
                    },
                }
            };
            proof {
                lemma_first_byte_at(haystack@, lo, 0);
                lemma_first_byte_at(haystack@, hi, 0);
                assert(r == as_index(first_fold_at(haystack@, self, 0)));
                lemma_first_fold_at(haystack@, self, 0);
                lemma_as_index_inv(first_fold_at(haystack@, self, 0), haystack@.len());
            }
            r
        }
    }
}

// ── Chars ──

/// The characters `char::to_lowercase` yields for `c`.
pub uninterp spec fn lowercase_chars(c: char) -> Seq<char>;

/// `char::is_lowercase`: the Unicode `Lowercase` property.
pub uninterp spec fn char_has_lowercase_property(c: char) -> bool;

/// `char::to_lowercase`, collected: the lowercase mapping of `c`, which
/// depends on `c` alone.
#[verifier::external_body]
fn char_to_lowercase(c: char) -> (r: Vec<char>)
    ensures
        r@ == lowercase_chars(c),
{
    c.to_lowercase().collect()
}

/// Two characters are equal ignoring case when their lowercase mappings
/// yield the same characters.
pub open spec fn chars_eq_ignoring_case(a: char, b: char) -> bool {
    lowercase_chars(a) =~= lowercase_chars(b)
}

fn same_chars(a: &Vec<char>, b: &Vec<char>) -> (r: bool)
    ensures
        r == (a@ =~= b@),
{
    if a.len() != b.len() {
        return false;
    }
    let mut i: usize = 0;
    while i < a.len()
        invariant
            a@.len() == b@.len(),
            i <= a@.len(),
            forall|k: int| 0 <= k < i ==> a@[k] == b@[k],
        decreases a.len() - i,
    {
        if a[i] != b[i] {
            return false;
        }
        i += 1;
    }
    true
}

fn char_eq_ignore_case(a: char, b: char) -> (r: bool)
    ensures
        r == chars_eq_ignoring_case(a, b),
{
    let la = char_to_lowercase(a);
    let lb = char_to_lowercase(b);
    same_chars(&la, &lb)
}

/// `char::is_lowercase`.
#[verifier::external_body]
fn char_is_lowercase(c: char) -> (r: bool)
    ensures
        r == char_has_lowercase_property(c),
{
    c.is_lowercase()
}

impl Atom for char {
    open spec fn spec_fold_eq(self, other: char) -> bool {
        chars_eq_ignoring_case(self, other)
    }

    open spec fn spec_is_lower(self) -> bool {
        char_has_lowercase_property(self)
    }

    open spec fn spec_code(self) -> u32 {
        self as u32
    }

    fn same(self, other: char) -> (r: bool) {
        self == other
    }

    fn eq_ignore_case(self, other: char) -> (r: bool) {
        char_eq_ignore_case(self, other)
    }

    fn is_lowercase(self) -> (r: bool) {
        char_is_lowercase(self)
    }

    fn code(self) -> (r: u32) {
        self as u32
    }

    fn find_first_in(self, haystack: &[char], respect_case: bool) -> (r: Option<usize>) {
        let mut k: usize = 0;
        while k < haystack.len()
            invariant
                k <= haystack@.len(),
                forall|i: int|
                    0 <= i < k ==> !(if respect_case {
                        self == #[trigger] haystack@[i]
                    } else {
                        chars_eq_ignoring_case(self, haystack@[i])
                    }),
            decreases haystack.len() - k,
        {
            let hit = if respect_case {
                self == haystack[k]
            } else {
                char_eq_ignore_case(self, haystack[k])
            };
            if hit {
                return Some(k);
            }
            k += 1;
        }
        None
    }
}

} // verus!
