//! Character-sequence helpers: prefixes, line splitting, trimming and
//! integer parsing, each stated over `Seq<char>`.

use vstd::prelude::*;

verus! {

/// Collects the characters of a string slice into a vector.
pub fn chars_of(s: &str) -> (r: Vec<char>)
    ensures
        r@ == s@,
{
    let mut v: Vec<char> = Vec::new();
    for c in it: s.chars()
        invariant
            v@ == it.seq().take(it.index() as int),
    {
        v.push(c);
    }
    v
}

/// `String::push`: appends `c` to the characters of `s`.
#[verifier::external_body]
pub(crate) fn push_char(s: &mut String, c: char)
    ensures
        final(s)@ == old(s)@.push(c),
{
    s.push(c);
}

/// `String::pop`: removes and returns the last character of `s`, or
/// returns `None` and leaves `s` as it is when it is empty.
#[verifier::external_body]
pub(crate) fn pop_char(s: &mut String) -> (r: Option<char>)
    ensures
        old(s)@.len() == 0 ==> r is None && final(s)@ == old(s)@,
        old(s)@.len() > 0 ==> r == Some(old(s)@.last()) && final(s)@ == old(s)@.drop_last(),
{
    s.pop()
}

/// Appends the characters `v[lo..hi]` to `s`.
pub fn push_range(s: &mut String, v: &[char], lo: usize, hi: usize)
    requires
        lo <= hi <= v@.len(),
    ensures
        final(s)@ == old(s)@ + v@.subrange(lo as int, hi as int),
{
    let mut i = lo;
    while i < hi
        invariant
            lo <= i <= hi <= v@.len(),
            s@ == old(s)@ + v@.subrange(lo as int, i as int),
        decreases hi - i,
    {
        push_char(s, v[i]);
        assert(v@.subrange(lo as int, i + 1) == v@.subrange(lo as int, i as int).push(v@[i as int]));
        i += 1;
    }
}

/// Appends all characters of `t` to `s`.
pub fn push_str(s: &mut String, t: &str)
    ensures
        final(s)@ == old(s)@ + t@,
{
    let v = chars_of(t);
    push_range(s, v.as_slice(), 0, v.len());
    assert(v@.subrange(0, v@.len() as int) == v@);
}

/// A new string holding `v[lo..hi]`.
pub fn string_from_range(v: &[char], lo: usize, hi: usize) -> (r: String)
    requires
        lo <= hi <= v@.len(),
    ensures
        r@ == v@.subrange(lo as int, hi as int),
{
    let mut s = String::new();
    push_range(&mut s, v, lo, hi);
    s
}

pub open spec fn has_prefix(s: Seq<char>, p: Seq<char>) -> bool {
    p.len() <= s.len() && s.take(p.len() as int) == p
}

/// Whether `s` starts with the characters of `p`.
pub fn starts_with(s: &[char], p: &str) -> (r: bool)
    ensures
        r == has_prefix(s@, p@),
{
    let pv = chars_of(p);
    if pv.len() > s.len() {
        return false;
    }
    let mut i: usize = 0;
    while i < pv.len()
        invariant
            pv@ == p@,
            pv@.len() <= s@.len(),
            i <= pv@.len(),
            forall|k: int| 0 <= k < i ==> s@[k] == pv@[k],
        decreases pv.len() - i,
    {
        if s[i] != pv[i] {
            assert(s@.take(pv@.len() as int)[i as int] != p@[i as int]);
            return false;
        }
        i += 1;
    }
    assert(s@.take(pv@.len() as int) =~= p@);
    true
}

/// Whether `s[at..]` starts with the characters of `p`.
pub fn matches_at(s: &[char], at: usize, p: &[char]) -> (r: bool)
    requires
        at <= s@.len(),
    ensures
        r == (at + p@.len() <= s@.len() && s@.subrange(at as int, at + p@.len()) == p@),
{
    if p.len() > s.len() - at {
        return false;
    }
    let mut i: usize = 0;
    while i < p.len()
        invariant
            s.len() == s@.len(),
            at <= s@.len(),
            at + p@.len() <= s@.len(),
            i <= p@.len(),
            forall|k: int| 0 <= k < i ==> s@[at + k] == p@[k],
        decreases p.len() - i,
    {
        if s[at + i] != p[i] {
            assert(s@.subrange(at as int, at + p@.len())[i as int] != p@[i as int]);
            return false;
        }
        i += 1;
    }
    assert(s@.subrange(at as int, at + p@.len()) =~= p@);
    true
}

// ── Line splitting (`str::lines`) ──

/// `line` without one trailing carriage return.
pub open spec fn chomp_cr(line: Seq<char>) -> Seq<char> {
    if line.len() > 0 && line.last() == '\r' {
        line.drop_last()
    } else {
        line
    }
}

/// Completed lines and the unterminated tail after reading `s` left to right.
pub open spec fn split_state(s: Seq<char>) -> (Seq<Seq<char>>, Seq<char>)
    decreases s.len(),
{
    if s.len() == 0 {
        (Seq::empty(), Seq::empty())
    } else {
        let (ls, cur) = split_state(s.drop_last());
        if s.last() == '\n' {
            (ls.push(chomp_cr(cur)), Seq::empty())
        } else {
            (ls, cur.push(s.last()))
        }
    }
}

/// The lines of `s`: split at `\n`, a `\r` before the `\n` dropped, and no
/// empty line after a final `\n`.
pub open spec fn spec_lines(s: Seq<char>) -> Seq<Seq<char>> {
    let (ls, cur) = split_state(s);
    if cur.len() == 0 {
        ls
    } else {
        ls.push(cur)
    }
}

/// Splits a character sequence into lines, as `str::lines` does.
pub fn split_lines(s: &[char]) -> (r: Vec<Vec<char>>)
    ensures
        r@.len() == spec_lines(s@).len(),
        forall|k: int| 0 <= k < r@.len() ==> #[trigger] r@[k]@ == spec_lines(s@)[k],
{
    let mut lines: Vec<Vec<char>> = Vec::new();
    let mut cur: Vec<char> = Vec::new();
    let mut i: usize = 0;
    while i < s.len()
        invariant
            i <= s@.len(),
            lines@.len() == split_state(s@.take(i as int)).0.len(),
            forall|k: int|
                0 <= k < lines@.len() ==> #[trigger] lines@[k]@ == split_state(
                    s@.take(i as int),
                ).0[k],
            cur@ == split_state(s@.take(i as int)).1,
        decreases s.len() - i,
    {
        let c = s[i];
        assert(s@.take(i + 1).drop_last() == s@.take(i as int));
        if c == '\n' {
            if cur.len() > 0 && cur[cur.len() - 1] == '\r' {
                cur.pop();
            }
            let mut done: Vec<char> = Vec::new();
            std::mem::swap(&mut done, &mut cur);
            lines.push(done);
        } else {
            cur.push(c);
        }
        i += 1;
    }
    assert(s@.take(s@.len() as int) == s@);
    if cur.len() > 0 {
        lines.push(cur);
    }
    lines
}

// ── Trimming and integer parsing ──

/// `char::is_whitespace`: the Unicode `White_Space` property.
pub open spec fn is_white_space(c: char) -> bool {
    let u = c as u32;
    ||| 0x09 <= u <= 0x0d
    ||| u == 0x20
    ||| u == 0x85
    ||| u == 0xa0
    ||| u == 0x1680
    ||| 0x2000 <= u <= 0x200a
    ||| u == 0x2028
    ||| u == 0x2029
    ||| u == 0x202f
    ||| u == 0x205f
    ||| u == 0x3000
}

pub fn is_whitespace(c: char) -> (r: bool)
    ensures
        r == is_white_space(c),
{
    let u = c as u32;
    (0x09 <= u && u <= 0x0d) || u == 0x20 || u == 0x85 || u == 0xa0 || u == 0x1680 || (0x2000
        <= u && u <= 0x200a) || u == 0x2028 || u == 0x2029 || u == 0x202f || u == 0x205f || u
        == 0x3000
}

/// Index of the first character of `s` that is not white space (`s.len()` if none).
pub open spec fn trim_start_at(s: Seq<char>, k: int) -> int
    decreases s.len() - k,
{
    if k >= s.len() || !is_white_space(s[k]) {
        k
    } else {
        trim_start_at(s, k + 1)
    }
}

/// One past the last character of `s[..k]` that is not white space (0 if none).
pub open spec fn trim_end_at(s: Seq<char>, k: int) -> int
    decreases k,
{
    if k <= 0 || !is_white_space(s[k - 1]) {
        k
    } else {
        trim_end_at(s, k - 1)
    }
}

/// `str::trim`: `s` without leading and trailing white space.
pub open spec fn spec_trim(s: Seq<char>) -> Seq<char> {
    let lo = trim_start_at(s, 0);
    let hi = trim_end_at(s, s.len() as int);
    if lo >= hi {
        Seq::empty()
    } else {
        s.subrange(lo, hi)
    }
}

pub proof fn lemma_trim_start_bounds(s: Seq<char>, k: int)
    requires
        0 <= k <= s.len(),
    ensures
        k <= trim_start_at(s, k) <= s.len(),
        trim_start_at(s, k) < s.len() ==> !is_white_space(s[trim_start_at(s, k)]),
    decreases s.len() - k,
{
    if k < s.len() && is_white_space(s[k]) {
        lemma_trim_start_bounds(s, k + 1);
    }
}

pub proof fn lemma_trim_end_bounds(s: Seq<char>, k: int)
    requires
        0 <= k <= s.len(),
    ensures
        0 <= trim_end_at(s, k) <= k,
    decreases k,
{
    if k > 0 && is_white_space(s[k - 1]) {
        lemma_trim_end_bounds(s, k - 1);
    }
}

/// The characters of `s[lo..hi]` with white space removed at both ends.
pub fn trim_range(s: &[char], lo: usize, hi: usize) -> (r: (usize, usize))
    requires
        lo <= hi <= s@.len(),
    ensures
        r.0 <= r.1 <= s@.len(),
        s@.subrange(r.0 as int, r.1 as int) == spec_trim(s@.subrange(lo as int, hi as int)),
{
    let ghost t = s@.subrange(lo as int, hi as int);
    let mut a = lo;
    while a < hi && is_whitespace(s[a])
        invariant
            lo <= a <= hi <= s@.len(),
            t == s@.subrange(lo as int, hi as int),
            trim_start_at(t, (a - lo) as int) == trim_start_at(t, 0),
        decreases hi - a,
    {
        a += 1;
    }
    let mut b = hi;
    while b > a && is_whitespace(s[b - 1])
        invariant
            lo <= a <= b <= hi <= s@.len(),
            t == s@.subrange(lo as int, hi as int),
            trim_end_at(t, (b - lo) as int) == trim_end_at(t, t.len() as int),
        decreases b,
    {
        b -= 1;
    }
    proof {
        lemma_trim_start_bounds(t, 0);
        lemma_trim_end_bounds(t, t.len() as int);
        let lo_t = trim_start_at(t, 0);
        let hi_t = trim_end_at(t, t.len() as int);
        assert(trim_start_at(t, (a - lo) as int) == (a - lo));
        if a == b {
            lemma_trim_end_bounds(t, (b - lo) as int);
            assert(s@.subrange(a as int, b as int) =~= Seq::<char>::empty());
        } else {
            assert(trim_end_at(t, (b - lo) as int) == (b - lo));
            assert(s@.subrange(a as int, b as int) =~= t.subrange(lo_t, hi_t));
        }
    }
    (a, b)
}

/// If position `j` (below `k`) holds no white space, `trim_end_at(s, k)` stays above `j`.
pub proof fn lemma_trim_end_below(s: Seq<char>, k: int, j: int)
    requires
        0 <= j < k <= s.len(),
        !is_white_space(s[j]),
    ensures
        trim_end_at(s, k) > j,
    decreases k,
{
    if k - 1 > j && is_white_space(s[k - 1]) {
        lemma_trim_end_below(s, k - 1, j);
    }
}

pub open spec fn is_digit(c: char) -> bool {
    '0' <= c <= '9'
}

pub open spec fn all_digits(s: Seq<char>) -> bool {
    forall|k: int| 0 <= k < s.len() ==> is_digit(#[trigger] s[k])
}

/// The decimal value of a digit string.
pub open spec fn digits_value(s: Seq<char>) -> nat
    decreases s.len(),
{
    if s.len() == 0 {
        0
    } else {
        digits_value(s.drop_last()) * 10 + ((s.last() as u32) - ('0' as u32)) as nat
    }
}

/// `<usize as FromStr>::from_str`: an optional `+`, then one or more decimal
/// digits whose value fits in a `usize`.
pub open spec fn spec_parse_usize(s: Seq<char>) -> Option<usize> {
    let d = if s.len() > 0 && s[0] == '+' {
        s.skip(1)
    } else {
        s
    };
    if d.len() > 0 && all_digits(d) && digits_value(d) <= usize::MAX {
        Some(digits_value(d) as usize)
    } else {
        None
    }
}

pub proof fn lemma_digits_value_prefix(s: Seq<char>, k: int)
    requires
        0 <= k <= s.len(),
    ensures
        digits_value(s.take(k)) <= digits_value(s),
    decreases s.len() - k,
{
    if k < s.len() {
        lemma_digits_value_prefix(s, k + 1);
        assert(s.take(k + 1).drop_last() == s.take(k));
    } else {
        assert(s.take(k) == s);
    }
}

/// Parses `s[lo..hi]` as a `usize`, as `str::parse::<usize>` does.
pub fn parse_usize(s: &[char], lo: usize, hi: usize) -> (r: Option<usize>)
    requires
        lo <= hi <= s@.len(),
    ensures
        r == spec_parse_usize(s@.subrange(lo as int, hi as int)),
{
    let ghost t = s@.subrange(lo as int, hi as int);
    let mut start = lo;
    if lo < hi && s[lo] == '+' {
        start = lo + 1;
    }
    let ghost d = s@.subrange(start as int, hi as int);
    assert(d == (if t.len() > 0 && t[0] == '+' { t.skip(1) } else { t }));
    if start == hi {
        return None;
    }
    let mut acc: usize = 0;
    let mut i = start;
    while i < hi
        invariant
            lo <= start < hi <= s@.len(),
            start <= i <= hi,
            t == s@.subrange(lo as int, hi as int),
            d == s@.subrange(start as int, hi as int),
            d == (if t.len() > 0 && t[0] == '+' { t.skip(1) } else { t }),
            all_digits(d.take(i - start)),
            acc == digits_value(d.take(i - start)),
        decreases hi - i,
    {
        let c = s[i];
        assert(d.take(i + 1 - start).drop_last() == d.take(i - start));
        if !('0' <= c && c <= '9') {
            assert(d[i - start] == c);
            assert(!is_digit(d[i - start]));
            assert(!all_digits(d));
            return None;
        }
        let dig = (c as u32 - '0' as u32) as usize;
        if acc > (usize::MAX - dig) / 10 {
            proof {
                lemma_digits_value_prefix(d, i + 1 - start);
                assert(d[i - start] == c);
                assert(acc * 10 + dig > usize::MAX) by (nonlinear_arith)
                    requires
                        acc > (usize::MAX - dig) / 10,
                        dig <= 9,
                ;
                if all_digits(d) {
                    assert(digits_value(d.take(i + 1 - start)) == acc * 10 + dig);
                }
            }
            return None;
        }
        acc = acc * 10 + dig;
        i += 1;
    }
    assert(d.take(hi - start) == d);
    Some(acc)
}

/// Largest `j < k` at which `p` occurs in `s`.
pub open spec fn last_match_below(s: Seq<char>, p: Seq<char>, k: int) -> Option<int>
    decreases k,
{
    if k <= 0 {
        None
    } else if k - 1 + p.len() <= s.len() && s.subrange(k - 1, k - 1 + p.len()) == p {
        Some(k - 1)
    } else {
        last_match_below(s, p, k - 1)
    }
}

/// `str::rfind`: the start of the last occurrence of `p` in `s`.
pub open spec fn spec_rfind(s: Seq<char>, p: Seq<char>) -> Option<int> {
    last_match_below(s, p, s.len() + 1 as int)
}

/// Start of the last occurrence of `p` within `s[lo..]`, as an index into `s`.
pub fn rfind_from(s: &[char], lo: usize, p: &[char]) -> (r: Option<usize>)
    requires
        lo <= s@.len(),
    ensures
        r is Some <==> spec_rfind(s@.skip(lo as int), p@) is Some,
        r matches Some(b) ==> spec_rfind(s@.skip(lo as int), p@) == Some(b - lo) && lo <= b
            && b + p@.len() <= s@.len(),
{
    let ghost t = s@.skip(lo as int);
    let n = s.len() - lo;
    let mut j: usize = n;
    loop
        invariant
            s.len() == s@.len(),
            lo <= s@.len(),
            n == s@.len() - lo,
            t == s@.skip(lo as int),
            j <= n,
            last_match_below(t, p@, j + 1) == spec_rfind(t, p@),
        decreases j,
    {
        if matches_at(s, lo + j, p) {
            assert(t.subrange(j as int, j + p@.len()) =~= s@.subrange(lo + j, lo + j + p@.len()));
            return Some(lo + j);
        }
        proof {
            if j + p@.len() <= t.len() {
                assert(t.subrange(j as int, j + p@.len()) =~= s@.subrange(lo + j, lo + j + p@.len()));
            }
        }
        if j == 0 {
            assert(last_match_below(t, p@, 0) == None::<int>);
            return None;
        }
        j -= 1;
    }
}

} // verus!
