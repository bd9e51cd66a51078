//! Text layout for the diff display: line numbers from hunk headers, and
//! wrapping long lines to a column budget.

use vstd::prelude::*;
use unicode_width::{UnicodeWidthChar, UnicodeWidthStr};
use crate::model::first_where;
use crate::parser::{Hunk, HunkLine, LineModel};
use crate::text::{chars_of, has_prefix, parse_usize, spec_parse_usize, starts_with, string_from_range};

verus! {

// ── Hunk line numbers ──

pub open spec fn is_comma_or_space(c: char) -> bool {
    c == ',' || c == ' '
}

pub open spec fn comma_or_space() -> spec_fn(char) -> bool {
    |c: char| is_comma_or_space(c)
}

pub open spec fn is_plus() -> spec_fn(char) -> bool {
    |c: char| c == '+'
}

/// The number that `s` starts with, up to the first comma or space, or 1
/// when there is none or it does not parse.
pub open spec fn leading_number(s: Seq<char>) -> usize {
    match first_where(s, comma_or_space()) {
        Some(i) => match spec_parse_usize(s.take(i)) {
            Some(v) => v,
            None => 1,
        },
        None => 1,
    }
}

/// Starting old and new line numbers of a `@@ -a,b +c,d @@` header; 1 for
/// whatever cannot be read.
pub open spec fn spec_hunk_start(h: Seq<char>) -> (usize, usize) {
    if has_prefix(h, "@@ -"@) {
        let rest = h.skip(4);
        (
            leading_number(rest),
            match first_where(rest, is_plus()) {
                Some(p) => leading_number(rest.skip(p + 1)),
                None => 1,
            },
        )
    } else {
        (1, 1)
    }
}

/// First index in `v[lo..]` holding `a` or `b`.
fn find_either(v: &Vec<char>, lo: usize, a: char, b: char, Ghost(f): Ghost<spec_fn(char) -> bool>) -> (r: Option<usize>)
    requires
        lo <= v@.len(),
        forall|c: char| #[trigger] f(c) == (c == a || c == b),
    ensures
        match r {
            Some(i) => lo <= i < v@.len() && first_where(v@.skip(lo as int), f) == Some(i - lo),
            None => first_where(v@.skip(lo as int), f) is None,
        },
{
    let ghost s = v@.skip(lo as int);
    let mut i = lo;
    while i < v.len()
        invariant
            lo <= i <= v@.len(),
            s == v@.skip(lo as int),
            forall|c: char| #[trigger] f(c) == (c == a || c == b),
            first_where(s.take(i - lo), f) is None,
        decreases v.len() - i,
    {
        assert(s.take(i + 1 - lo).drop_last() =~= s.take(i - lo));
        assert(s.take(i + 1 - lo).last() == v@[i as int]);
        if v[i] == a || v[i] == b {
            proof {
                crate::model::lemma_first_where_prefix(s, i + 1 - lo, f);
            }
            return Some(i);
        }
        i += 1;
    }
    assert(s.take(v.len() - lo) =~= s);
    None
}

/// The number at `v[lo..]`, up to the first comma or space, or 1.
fn leading_number_at(v: &Vec<char>, lo: usize) -> (r: usize)
    requires
        lo <= v@.len(),
    ensures
        r == leading_number(v@.skip(lo as int)),
{
    match find_either(v, lo, ',', ' ', Ghost(comma_or_space())) {
        Some(end) => {
            assert(v@.subrange(lo as int, end as int) =~= v@.skip(lo as int).take(end - lo));
            match parse_usize(v.as_slice(), lo, end) {
                Some(n) => n,
                None => 1,
            }
        },
        None => 1,
    }
}

/// Parse "@@ -old_start,count +new_start,count @@" to extract starting line numbers.
pub fn parse_hunk_start(header: &str) -> (r: (usize, usize))
    ensures
        r == spec_hunk_start(header@),
{
    let h = chars_of(header);
    let hn = h.len();
    let mut old_start: usize = 1;
    let mut new_start: usize = 1;
    if starts_with(h.as_slice(), "@@ -") {
        proof {
            reveal_strlit("@@ -");
        }
        let ghost rest = h@.skip(4);
        old_start = leading_number_at(&h, 4);
        if let Some(plus) = find_either(&h, 4, '+', '+', Ghost(is_plus())) {
            assert(h@.skip(plus + 1) =~= rest.skip(plus - 4 + 1));
            new_start = leading_number_at(&h, plus + 1);
        }
    }
    (old_start, new_start)
}

/// How far the old and new line numbers advance over `ls`.
pub open spec fn line_advance(ls: Seq<LineModel>) -> (nat, nat)
    decreases ls.len(),
{
    if ls.len() == 0 {
        (0, 0)
    } else {
        let (o, n) = line_advance(ls.drop_last());
        match ls.last() {
            LineModel::Context(_) => (o + 1, n + 1),
            LineModel::Addition(_) => (o, n + 1),
            LineModel::Deletion(_) => (o + 1, n),
        }
    }
}

pub open spec fn spec_line_numbers(header: Seq<char>, ls: Seq<LineModel>, k: int) -> (int, int) {
    let (o, n) = spec_hunk_start(header);
    let (a, b) = line_advance(ls.take(k));
    (o + a, n + b)
}

proof fn lemma_line_advance_bound(ls: Seq<LineModel>)
    ensures
        line_advance(ls).0 <= ls.len(),
        line_advance(ls).1 <= ls.len(),
    decreases ls.len(),
{
    if ls.len() > 0 {
        lemma_line_advance_bound(ls.drop_last());
    }
}

/// Old/new line numbers at `line_idx`, walking the hunk from its header.
pub fn line_numbers(hunk: &Hunk, line_idx: usize) -> (r: (usize, usize))
    requires
        line_idx <= hunk.lines@.len(),
        spec_hunk_start(hunk.header@).0 + line_idx <= usize::MAX,
        spec_hunk_start(hunk.header@).1 + line_idx <= usize::MAX,
    ensures
        r.0 == spec_line_numbers(hunk.header@, hunk@.lines, line_idx as int).0,
        r.1 == spec_line_numbers(hunk.header@, hunk@.lines, line_idx as int).1,
{
    let (o0, n0) = parse_hunk_start(hunk.header.as_str());
    let mut old_line = o0;
    let mut new_line = n0;
    let ghost ls = hunk@.lines;
    let mut k: usize = 0;
    while k < line_idx
        invariant
            ls == hunk@.lines,
            k <= line_idx <= ls.len(),
            o0 + line_idx <= usize::MAX,
            n0 + line_idx <= usize::MAX,
            old_line == o0 + line_advance(ls.take(k as int)).0,
            new_line == n0 + line_advance(ls.take(k as int)).1,
        decreases line_idx - k,
    {
        proof {
            assert(ls.take(k + 1).drop_last() =~= ls.take(k as int));
            lemma_line_advance_bound(ls.take(k as int));
        }
        match &hunk.lines[k] {
            HunkLine::Context(_) => {
                old_line += 1;
                new_line += 1;
            },
            HunkLine::Addition(_) => {
                new_line += 1;
            },
            HunkLine::Deletion(_) => {
                old_line += 1;
            },
        }
        k += 1;
    }
    (old_line, new_line)
}

/// Scroll offset of the file view that keeps the cursor line's rows
/// `[start, end)` inside a `vh`-tall viewport with a quarter-viewport
/// margin, within the `total` rows. The offset never scrolls past the last
/// full page, and the cursor line is wholly in view whenever it fits with
/// both margins.
pub open spec fn spec_file_view_scroll(start: int, end: int, prev: int, vh: int, total: int) -> int {
    let margin = vh / 4;
    let s1 = if start < prev + margin {
        if start >= margin {
            start - margin
        } else {
            0
        }
    } else {
        prev
    };
    let s2 = if end + margin > s1 + vh {
        if end + margin >= vh {
            end + margin - vh
        } else {
            0
        }
    } else {
        s1
    };
    let cap = if total >= vh {
        total - vh
    } else {
        0
    };
    if s2 <= cap {
        s2
    } else {
        cap
    }
}

pub fn file_view_scroll(start: usize, end: usize, prev: usize, vh: usize, total: usize) -> (r: usize)
    requires
        end + vh / 4 <= usize::MAX,
        prev + vh <= usize::MAX,
        start <= end,
    ensures
        r == spec_file_view_scroll(start as int, end as int, prev as int, vh as int, total as int),
        r + vh <= total || r == 0,
        end <= total && end - start + 2 * (vh / 4) <= vh ==> r <= start && end <= r + vh,
{
    let margin = vh / 4;
    let mut scroll = prev;
    if start < scroll + margin {
        scroll = start.saturating_sub(margin);
    }
    if end + margin > scroll + vh {
        scroll = (end + margin).saturating_sub(vh);
    }
    let cap = total.saturating_sub(vh);
    if scroll <= cap {
        scroll
    } else {
        cap
    }
}

// ── Wrapping ──

/// What `UnicodeWidthChar::width` returns for `c`.
pub uninterp spec fn unicode_char_width(c: char) -> Option<usize>;

/// What `UnicodeWidthStr::width` returns for the characters `s`.
pub uninterp spec fn unicode_str_width(s: Seq<char>) -> usize;

/// `UnicodeWidthChar::width` of unicode-width: the columns `c` takes, or
/// `None` for a control character. Only its name is stated.
#[verifier::external_body]
fn char_width(c: char) -> (r: Option<usize>)
    ensures
        r == unicode_char_width(c),
{
    UnicodeWidthChar::width(c)
}

/// `UnicodeWidthStr::width` of unicode-width: the columns `s` takes. Stated:
/// its name, and that the empty string takes none (a sum over no
/// characters).
#[verifier::external_body]
fn str_width(s: &str) -> (r: usize)
    ensures
        r == unicode_str_width(s@),
        s@.len() == 0 ==> r == 0,
{
    UnicodeWidthStr::width(s)
}

/// Columns a character takes in a row; control characters take none.
pub open spec fn cw(c: char) -> int {
    match unicode_char_width(c) {
        Some(w) => w as int,
        None => 0,
    }
}

pub open spec fn is_blank(c: char) -> bool {
    c == ' ' || c == '\t'
}

/// Scan of the first `n` characters of `rest` for a row of `max` columns:
/// the width taken, the index of the first character that does not fit,
/// and the end of the last blank that fits.
pub open spec fn row_scan(rest: Seq<char>, max: int, n: nat) -> (int, Option<int>, Option<int>)
    decreases n,
{
    if n == 0 {
        (0, None, None)
    } else {
        let (w, hard, soft) = row_scan(rest, max, (n - 1) as nat);
        if hard is Some {
            (w, hard, soft)
        } else {
            let c = rest[n - 1];
            if w + cw(c) > max {
                (w, Some(n - 1), soft)
            } else {
                (
                    w + cw(c),
                    None,
                    if is_blank(c) {
                        Some(n as int)
                    } else {
                        soft
                    },
                )
            }
        }
    }
}

/// Where the next row ends: after the last blank that fits, else before
/// the first character that does not fit, but at least one character.
pub open spec fn split_point(rest: Seq<char>, max: int) -> int {
    let (w, hard, soft) = row_scan(rest, max, rest.len());
    let hard_end = match hard {
        Some(h) => h,
        None => rest.len() as int,
    };
    let hard_end2 = if hard_end == 0 {
        if rest.len() > 0 {
            1
        } else {
            0
        }
    } else {
        hard_end
    };
    match soft {
        Some(s) => if s > 0 {
            s
        } else {
            hard_end2
        },
        None => hard_end2,
    }
}

proof fn lemma_row_scan(rest: Seq<char>, max: int, n: nat)
    requires
        n <= rest.len(),
    ensures
        row_scan(rest, max, n).1 matches Some(h) ==> 0 <= h < n,
        row_scan(rest, max, n).2 matches Some(s) ==> 0 < s <= n,
    decreases n,
{
    if n > 0 {
        lemma_row_scan(rest, max, (n - 1) as nat);
    }
}

pub proof fn lemma_split_point(rest: Seq<char>, max: int)
    requires
        rest.len() > 0,
    ensures
        0 < split_point(rest, max) <= rest.len(),
{
    lemma_row_scan(rest, max, rest.len());
}

/// Rows of `rest` after the first: each row ends at its split point, until
/// what is left fits.
pub open spec fn wrap_rest(rest: Seq<char>, max: int) -> Seq<Seq<char>>
    decreases rest.len(),
{
    if rest.len() == 0 || unicode_str_width(rest) <= max {
        seq![rest]
    } else {
        let sp = split_point(rest, max);
        if 0 < sp <= rest.len() {
            seq![rest.take(sp)] + wrap_rest(rest.skip(sp), max)
        } else {
            seq![rest]
        }
    }
}

/// `text` split into rows of at most `max` columns, breaking after blanks
/// when possible; the whole text when `max` is 0 or it fits.
pub open spec fn spec_wrap(text: Seq<char>, max: int) -> Seq<Seq<char>> {
    if max == 0 || unicode_str_width(text) <= max {
        seq![text]
    } else {
        wrap_rest(text, max)
    }
}

pub open spec fn concat(rows: Seq<Seq<char>>) -> Seq<char>
    decreases rows.len(),
{
    if rows.len() == 0 {
        Seq::empty()
    } else {
        concat(rows.drop_last()) + rows.last()
    }
}

proof fn lemma_concat_one(a: Seq<char>)
    ensures
        concat(seq![a]) == a,
{
    assert(seq![a].drop_last() =~= Seq::<Seq<char>>::empty());
    assert(concat(Seq::<Seq<char>>::empty()) == Seq::<char>::empty());
    assert(Seq::<char>::empty() + a =~= a);
}

proof fn lemma_concat_prepend(a: Seq<char>, rows: Seq<Seq<char>>)
    ensures
        concat(seq![a] + rows) == a + concat(rows),
    decreases rows.len(),
{
    if rows.len() == 0 {
        assert(seq![a] + rows =~= seq![a]);
        lemma_concat_one(a);
        assert(a + concat(rows) =~= a);
    } else {
        lemma_concat_prepend(a, rows.drop_last());
        assert((seq![a] + rows).drop_last() =~= seq![a] + rows.drop_last());
        assert(a + concat(rows) =~= a + concat(rows.drop_last()) + rows.last());
    }
}

proof fn lemma_wrap_rest_concat(rest: Seq<char>, max: int)
    ensures
        concat(wrap_rest(rest, max)) == rest,
    decreases rest.len(),
{
    if rest.len() == 0 || unicode_str_width(rest) <= max {
        lemma_concat_one(rest);
    } else {
        let sp = split_point(rest, max);
        if 0 < sp <= rest.len() {
            lemma_wrap_rest_concat(rest.skip(sp), max);
            lemma_concat_prepend(rest.take(sp), wrap_rest(rest.skip(sp), max));
            assert(rest.take(sp) + rest.skip(sp) =~= rest);
        } else {
            lemma_concat_one(rest);
        }
    }
}

/// Wrapping only splits: the rows put back together are the text.
pub proof fn law_wrap_concat(text: Seq<char>, max: int)
    ensures
        concat(spec_wrap(text, max)) == text,
{
    if max == 0 || unicode_str_width(text) <= max {
        lemma_concat_one(text);
    } else {
        lemma_wrap_rest_concat(text, max);
    }
}

/// Split point of `v[lo..]`.
fn split_at(v: &Vec<char>, lo: usize, max: usize) -> (r: usize)
    requires
        lo < v@.len(),
    ensures
        r == lo + split_point(v@.skip(lo as int), max as int),
{
    let ghost rest = v@.skip(lo as int);
    let mut width: usize = 0;
    let mut hard_end: Option<usize> = None;
    let mut soft_end: Option<usize> = None;
    let mut i = lo;
    while i < v.len() && hard_end.is_none()
        invariant
            lo <= i <= v@.len(),
            rest == v@.skip(lo as int),
            width <= max,
            match hard_end {
                None => {
                    &&& row_scan(rest, max as int, (i - lo) as nat).1 is None
                    &&& width == row_scan(rest, max as int, (i - lo) as nat).0
                    &&& match soft_end {
                        Some(s) => row_scan(rest, max as int, (i - lo) as nat).2 == Some(s - lo) && lo < s <= i,
                        None => row_scan(rest, max as int, (i - lo) as nat).2 is None,
                    }
                },
                Some(h) => {
                    &&& h == i < v@.len()
                    &&& row_scan(rest, max as int, (i - lo + 1) as nat).1 == Some(i - lo)
                    &&& match soft_end {
                        Some(s) => row_scan(rest, max as int, (i - lo + 1) as nat).2 == Some(s - lo) && lo < s <= i,
                        None => row_scan(rest, max as int, (i - lo + 1) as nat).2 is None,
                    }
                },
            },
        decreases v.len() - i + (if hard_end is None { 1int } else { 0int }),
    {
        let ch = v[i];
        assert(rest[i - lo] == ch);
        let cw = match char_width(ch) {
            Some(w) => w,
            None => 0,
        };
        if cw > max - width {
            hard_end = Some(i);
        } else {
            width += cw;
            if ch == ' ' || ch == '\t' {
                soft_end = Some(i + 1);
            }
            i += 1;
        }
    }
    proof {
        lemma_row_scan(rest, max as int, rest.len());
        if hard_end is Some {
            lemma_scan_stops(rest, max as int, (i - lo + 1) as nat, rest.len());
        } else {
            assert(i == v@.len());
        }
    }
    let hard = match hard_end {
        Some(h) => h,
        None => v.len(),
    };
    let hard2 = if hard == lo {
        lo + 1
    } else {
        hard
    };
    match soft_end {
        Some(s) => if s > lo {
            s
        } else {
            hard2
        },
        None => hard2,
    }
}

/// Once a character does not fit, the scan stays as it is.
proof fn lemma_scan_stops(rest: Seq<char>, max: int, k: nat, n: nat)
    requires
        k <= n <= rest.len(),
        row_scan(rest, max, k).1 is Some,
    ensures
        row_scan(rest, max, n) == row_scan(rest, max, k),
    decreases n - k,
{
    if k < n {
        lemma_scan_stops(rest, max, k, (n - 1) as nat);
    }
}

proof fn lemma_prefix_width_mono(s: Seq<char>, a: int, b: int)
    requires
        0 <= a <= b <= s.len(),
    ensures
        prefix_width(s, a) <= prefix_width(s, b),
    decreases b - a,
{
    if a < b {
        lemma_prefix_width_mono(s, a, b - 1);
        assert(cw(s[b - 1]) >= 0);
    }
}

/// What the scan knows: below the first character that does not fit, the
/// width taken is the prefix width; the first character that does not fit
/// brings the width past `max`; the kept blank end is a blank's, and no
/// blank lies after it before the stop.
proof fn lemma_row_scan_facts(rest: Seq<char>, max: int, n: nat)
    requires
        n <= rest.len(),
    ensures
        ({
            let (w, hard, soft) = row_scan(rest, max, n);
            let stop = match hard {
                Some(h) => h,
                None => n as int,
            };
            &&& w == prefix_width(rest, stop)
            &&& (hard matches Some(h) ==> 0 <= h < n && prefix_width(rest, h + 1) > max)
            &&& (soft matches Some(sp) ==> 0 < sp <= stop && is_blank(rest[sp - 1]))
            &&& forall|k: int|
                (match soft {
                    Some(sp) => sp,
                    None => 0,
                }) < k <= stop ==> !is_blank(#[trigger] rest[k - 1])
        }),
    decreases n,
{
    if n > 0 {
        lemma_row_scan_facts(rest, max, (n - 1) as nat);
    }
}

/// A row split never leaves out a later blank that still fits: every
/// blank after the split point ends past `max` columns.
pub proof fn lemma_split_greedy(rest: Seq<char>, max: int)
    ensures
        forall|k: int|
            split_point(rest, max) < k <= rest.len() && is_blank(#[trigger] rest[k - 1]) ==> prefix_width(rest, k)
                > max,
{
    lemma_row_scan_facts(rest, max, rest.len());
    let (w, hard, soft) = row_scan(rest, max, rest.len());
    let stop = match hard {
        Some(h) => h,
        None => rest.len() as int,
    };
    assert forall|k: int| split_point(rest, max) < k <= rest.len() && is_blank(#[trigger] rest[k - 1]) implies prefix_width(
        rest,
        k,
    ) > max by {
        if k <= stop {
            assert(false);
        } else {
            let h = hard->Some_0;
            lemma_prefix_width_mono(rest, h + 1, k);
        }
    }
}

/// Rows `i..` of a wrap, joined.
pub open spec fn rows_from(rows: Seq<Seq<char>>, i: int) -> Seq<char> {
    concat(rows.subrange(i, rows.len() as int))
}

proof fn lemma_wrap_rest_greedy(rest: Seq<char>, max: int)
    ensures
        forall|i: int, k: int|
            0 <= i < wrap_rest(rest, max).len() - 1 && wrap_rest(rest, max)[i].len() < k <= rows_from(
                wrap_rest(rest, max),
                i,
            ).len() && is_blank(#[trigger] rows_from(wrap_rest(rest, max), i)[k - 1]) ==> prefix_width(
                rows_from(wrap_rest(rest, max), i),
                k,
            ) > max,
    decreases rest.len(),
{
    let rows = wrap_rest(rest, max);
    if rest.len() == 0 || unicode_str_width(rest) <= max {
    } else {
        let sp = split_point(rest, max);
        if 0 < sp <= rest.len() {
            let tail = wrap_rest(rest.skip(sp), max);
            lemma_wrap_rest_greedy(rest.skip(sp), max);
            lemma_wrap_rest_concat(rest, max);
            lemma_split_greedy(rest, max);
            assert(rows == seq![rest.take(sp)] + tail);
            assert forall|i: int, k: int|
                0 <= i < rows.len() - 1 && rows[i].len() < k <= rows_from(rows, i).len() && is_blank(
                    #[trigger] rows_from(rows, i)[k - 1],
                ) implies prefix_width(rows_from(rows, i), k) > max by {
                if i == 0 {
                    assert(rows.subrange(0, rows.len() as int) =~= rows);
                    assert(rows_from(rows, 0) == rest);
                    assert(rows[0] == rest.take(sp));
                } else {
                    assert(rows.subrange(i, rows.len() as int) =~= tail.subrange(i - 1, tail.len() as int));
                    assert(rows[i] == tail[i - 1]);
                    assert(rows_from(rows, i) == rows_from(tail, i - 1));
                }
            }
        }
    }
}

/// Each row of a wrap but the last ends at the last blank that fits in
/// `max` columns (or, when no blank fits, where the text stops fitting):
/// no longer row ending in a blank would fit.
pub proof fn law_wrap_breaks_at_last_blank(text: Seq<char>, max: int)
    ensures
        forall|i: int, k: int|
            0 <= i < spec_wrap(text, max).len() - 1 && spec_wrap(text, max)[i].len() < k <= rows_from(
                spec_wrap(text, max),
                i,
            ).len() && is_blank(#[trigger] rows_from(spec_wrap(text, max), i)[k - 1]) ==> prefix_width(
                rows_from(spec_wrap(text, max), i),
                k,
            ) > max,
{
    if !(max == 0 || unicode_str_width(text) <= max) {
        lemma_wrap_rest_greedy(text, max);
    }
}

/// Split `text` into chunks that each fit in `max` display columns, breaking
/// at whitespace when possible and hard-breaking long tokens.
pub fn wrap_text(text: &str, max: usize) -> (r: Vec<String>)
    ensures
        crate::parser::strings_view(r@) == spec_wrap(text@, max as int),
{
    if max == 0 || str_width(text) <= max {
        let mut one: Vec<String> = Vec::new();
        one.push(text.to_string());
        assert(crate::parser::strings_view(one@) =~= seq![text@]);
        return one;
    }
    let v = chars_of(text);
    let mut chunks: Vec<String> = Vec::new();
    let mut start: usize = 0;
    assert(v@.skip(0) =~= v@);
    assert(crate::parser::strings_view(chunks@) =~= Seq::<Seq<char>>::empty());
    assert(Seq::<Seq<char>>::empty() + wrap_rest(v@, max as int) =~= wrap_rest(v@, max as int));
    loop
        invariant
            v@ == text@,
            start <= v@.len(),
            max > 0,
            unicode_str_width(text@) > max,
            spec_wrap(text@, max as int) == crate::parser::strings_view(chunks@) + wrap_rest(
                v@.skip(start as int),
                max as int,
            ),
        decreases v.len() - start,
    {
        let rest = string_from_range(v.as_slice(), start, v.len());
        assert(rest@ =~= v@.skip(start as int));
        if str_width(rest.as_str()) <= max {
            let ghost c0 = chunks@;
            chunks.push(rest);
            assert(crate::parser::strings_view(chunks@) =~= crate::parser::strings_view(c0) + seq![v@.skip(start as int)]);
            return chunks;
        }
        let split = split_at(&v, start, max);
        proof {
            lemma_split_point(v@.skip(start as int), max as int);
            assert(v@.skip(start as int).take(split - start) =~= v@.subrange(start as int, split as int));
            assert(v@.skip(start as int).skip(split - start) =~= v@.skip(split as int));
        }
        let piece = string_from_range(v.as_slice(), start, split);
        let ghost c0 = chunks@;
        chunks.push(piece);
        assert(crate::parser::strings_view(chunks@) =~= crate::parser::strings_view(c0) + seq![piece@]);
        assert(crate::parser::strings_view(chunks@) + wrap_rest(v@.skip(split as int), max as int) =~= crate::parser::strings_view(c0) + (seq![piece@] + wrap_rest(v@.skip(split as int), max as int)));
        start = split;
    }
}

/// Columns the line-number gutter takes before a diff line's text.
pub const GUTTER_WIDTH: usize = 9;

pub open spec fn line_text(l: LineModel) -> Seq<char> {
    match l {
        LineModel::Context(t) => t,
        LineModel::Addition(t) => t,
        LineModel::Deletion(t) => t,
    }
}

/// Rows a diff line takes in a box `inner` columns wide: one, or with
/// wrapping one per wrapped chunk of the text beside the gutter.
pub open spec fn spec_line_rows(text: Seq<char>, wrap: bool, inner: int) -> int {
    if wrap {
        spec_wrap(
            text,
            if inner >= GUTTER_WIDTH {
                inner - GUTTER_WIDTH
            } else {
                0
            },
        ).len() as int
    } else {
        1
    }
}

pub proof fn lemma_line_rows_pos(text: Seq<char>, wrap: bool, inner: int)
    ensures
        spec_line_rows(text, wrap, inner) >= 1,
{
    let max = if inner >= GUTTER_WIDTH {
        inner - GUTTER_WIDTH
    } else {
        0
    };
    if wrap && !(max == 0 || unicode_str_width(text) <= max) {
        assert(wrap_rest(text, max).len() >= 1);
    }
}

pub fn line_rows(line: &HunkLine, wrap: bool, inner: usize) -> (r: usize)
    ensures
        r == spec_line_rows(line_text(line@), wrap, inner as int),
        r >= 1,
{
    proof {
        lemma_line_rows_pos(line_text(line@), wrap, inner as int);
    }
    if !wrap {
        return 1;
    }
    let text = match line {
        HunkLine::Context(t) => t,
        HunkLine::Addition(t) => t,
        HunkLine::Deletion(t) => t,
    };
    let max = if inner >= GUTTER_WIDTH {
        inner - GUTTER_WIDTH
    } else {
        0
    };
    let chunks = wrap_text(text.as_str(), max);
    assert(crate::parser::strings_view(chunks@).len() == chunks@.len());
    chunks.len()
}

// ── Match highlighting ──

/// Segments of `p` up to the first `n` matched indices, and where the next
/// plain segment starts: the text before each matched character, then the
/// character itself, highlighted.
pub open spec fn highlight_walk(p: Seq<char>, idx: Seq<usize>, n: nat) -> (Seq<(Seq<char>, bool)>, int)
    decreases n,
{
    if n == 0 {
        (Seq::empty(), 0)
    } else {
        let (segs, last) = highlight_walk(p, idx, (n - 1) as nat);
        let i = idx[n - 1] as int;
        let segs1 = if i > last {
            segs.push((p.subrange(last, i), false))
        } else {
            segs
        };
        if i < p.len() {
            (segs1.push((p.subrange(i, i + 1), true)), i + 1)
        } else {
            (segs1, last)
        }
    }
}

/// `p` cut into plain and highlighted segments by the matched character
/// indices, with the rest of the text after the last match.
pub open spec fn spec_highlight(p: Seq<char>, idx: Seq<usize>) -> Seq<(Seq<char>, bool)> {
    let (segs, last) = highlight_walk(p, idx, idx.len());
    if last < p.len() {
        segs.push((p.subrange(last, p.len() as int), false))
    } else {
        segs
    }
}

proof fn lemma_highlight_walk(p: Seq<char>, idx: Seq<usize>, n: nat)
    requires
        n <= idx.len(),
        forall|k: int| 0 <= k < idx.len() ==> #[trigger] idx[k] <= p.len(),
    ensures
        0 <= highlight_walk(p, idx, n).1 <= p.len(),
    decreases n,
{
    if n > 0 {
        lemma_highlight_walk(p, idx, (n - 1) as nat);
    }
}

/// Split `path` into segments for display, marking the characters at the
/// matched `indices` as highlighted.
pub fn highlight_segments(path: &str, indices: &Vec<usize>) -> (r: Vec<(String, bool)>)
    requires
        forall|k: int| 0 <= k < indices@.len() ==> #[trigger] indices@[k] <= path@.len(),
    ensures
        r@.map_values(|x: (String, bool)| (x.0@, x.1)) == spec_highlight(path@, indices@),
{
    let chars = chars_of(path);
    let n = chars.len();
    let mut segs: Vec<(String, bool)> = Vec::new();
    let mut last: usize = 0;
    let mut k: usize = 0;
    while k < indices.len()
        invariant
            chars@ == path@,
            n == chars@.len(),
            k <= indices@.len(),
            forall|j: int| 0 <= j < indices@.len() ==> #[trigger] indices@[j] <= path@.len(),
            segs@.map_values(|x: (String, bool)| (x.0@, x.1)) == highlight_walk(path@, indices@, k as nat).0,
            last == highlight_walk(path@, indices@, k as nat).1,
        decreases indices.len() - k,
    {
        proof {
            lemma_highlight_walk(path@, indices@, k as nat);
        }
        let i = indices[k];
        let ghost s0 = segs@.map_values(|x: (String, bool)| (x.0@, x.1));
        if i > last {
            let piece = string_from_range(chars.as_slice(), last, i);
            segs.push((piece, false));
        }
        let ghost s1 = segs@.map_values(|x: (String, bool)| (x.0@, x.1));
        assert(s1 == if i > last {
            s0.push((path@.subrange(last as int, i as int), false))
        } else {
            s0
        });
        if i < n {
            let piece = string_from_range(chars.as_slice(), i, i + 1);
            segs.push((piece, true));
            last = i + 1;
            assert(segs@.map_values(|x: (String, bool)| (x.0@, x.1)) =~= s1.push((path@.subrange(i as int, i + 1), true)));
        }
        k += 1;
    }
    proof {
        lemma_highlight_walk(path@, indices@, k as nat);
    }
    if last < n {
        let ghost s0 = segs@.map_values(|x: (String, bool)| (x.0@, x.1));
        let piece = string_from_range(chars.as_slice(), last, n);
        segs.push((piece, false));
        assert(segs@.map_values(|x: (String, bool)| (x.0@, x.1)) =~= s0.push((path@.subrange(last as int, path@.len() as int), false)));
    }
    segs
}

// ── Info line ──

pub open spec fn digit_char(d: int) -> char {
    if d == 0 {
        '0'
    } else if d == 1 {
        '1'
    } else if d == 2 {
        '2'
    } else if d == 3 {
        '3'
    } else if d == 4 {
        '4'
    } else if d == 5 {
        '5'
    } else if d == 6 {
        '6'
    } else if d == 7 {
        '7'
    } else if d == 8 {
        '8'
    } else {
        '9'
    }
}

/// `n` written in decimal.
pub open spec fn spec_decimal(n: nat) -> Seq<char>
    decreases n,
{
    if n < 10 {
        seq![digit_char(n as int)]
    } else {
        spec_decimal(n / 10) + seq![digit_char((n % 10) as int)]
    }
}

fn digit_of(d: usize) -> (c: char)
    requires
        d < 10,
    ensures
        c == digit_char(d as int),
{
    if d == 0 {
        '0'
    } else if d == 1 {
        '1'
    } else if d == 2 {
        '2'
    } else if d == 3 {
        '3'
    } else if d == 4 {
        '4'
    } else if d == 5 {
        '5'
    } else if d == 6 {
        '6'
    } else if d == 7 {
        '7'
    } else if d == 8 {
        '8'
    } else {
        '9'
    }
}

fn push_decimal(out: &mut String, n: usize)
    ensures
        final(out)@ == old(out)@ + spec_decimal(n as nat),
    decreases n,
{
    if n >= 10 {
        push_decimal(out, n / 10);
    }
    crate::text::push_char(out, digit_of(n % 10));
}

/// What the info line under a file without hunks says: the binary sizes
/// known for a binary file, or that only the mode changed.
pub open spec fn spec_info_message(f: crate::parser::FileModel) -> Seq<char> {
    if f.binary {
        match (f.binary_old_size, f.binary_new_size) {
            (Some(old_size), Some(new_size)) => if f.status == crate::parser::FileStatus::Added {
                "  Binary file ("@ + spec_decimal(new_size as nat) + " bytes)"@
            } else if f.status == crate::parser::FileStatus::Deleted {
                "  Binary file (was "@ + spec_decimal(old_size as nat) + " bytes)"@
            } else {
                "  Binary file ("@ + spec_decimal(old_size as nat) + " \u{2192} "@ + spec_decimal(new_size as nat)
                    + " bytes)"@
            },
            _ => "  Binary file"@,
        }
    } else {
        "  Mode change only"@
    }
}

/// The info line under a file without hunks.
pub fn info_message(file: &crate::parser::FileEntry) -> (r: String)
    ensures
        r@ == spec_info_message(file@),
{
    let mut out = String::new();
    if file.binary {
        match (file.binary_old_size, file.binary_new_size) {
            (Some(old_size), Some(new_size)) => {
                if file.status == crate::parser::FileStatus::Added {
                    crate::text::push_str(&mut out, "  Binary file (");
                    push_decimal(&mut out, new_size);
                    crate::text::push_str(&mut out, " bytes)");
                } else if file.status == crate::parser::FileStatus::Deleted {
                    crate::text::push_str(&mut out, "  Binary file (was ");
                    push_decimal(&mut out, old_size);
                    crate::text::push_str(&mut out, " bytes)");
                } else {
                    crate::text::push_str(&mut out, "  Binary file (");
                    push_decimal(&mut out, old_size);
                    crate::text::push_str(&mut out, " \u{2192} ");
                    push_decimal(&mut out, new_size);
                    crate::text::push_str(&mut out, " bytes)");
                }
            },
            _ => {
                crate::text::push_str(&mut out, "  Binary file");
            },
        }
    } else {
        crate::text::push_str(&mut out, "  Mode change only");
    }
    out
}

// ── Clipping ──

/// Total width of the texts.
pub open spec fn widths_sum(ts: Seq<Seq<char>>) -> int
    decreases ts.len(),
{
    if ts.len() == 0 {
        0
    } else {
        widths_sum(ts.drop_last()) + unicode_str_width(ts.last())
    }
}

/// Characters of `s` that fit in `budget` columns, counted from the start:
/// up to the first one that would overflow it.
pub open spec fn fit_len(s: Seq<char>, budget: int) -> int
    decreases s.len(),
{
    if s.len() == 0 {
        0
    } else {
        let k = fit_len(s.drop_last(), budget);
        if k == s.len() - 1 && prefix_width(s, k) + cw(s[k]) <= budget {
            k + 1
        } else {
            k
        }
    }
}

/// Columns of the first `k` characters of `s`, as wrapping counts them.
pub open spec fn prefix_width(s: Seq<char>, k: int) -> int
    decreases k,
{
    if k <= 0 {
        0
    } else {
        prefix_width(s, k - 1) + cw(s[k - 1])
    }
}

/// Clipping the first `n` texts: the texts kept (the last one perhaps cut)
/// and the columns used.
pub open spec fn clip_walk(ts: Seq<Seq<char>>, max: int, n: nat) -> (Seq<Seq<char>>, int)
    decreases n,
{
    if n == 0 {
        (Seq::empty(), 0)
    } else {
        let (out, used) = clip_walk(ts, max, (n - 1) as nat);
        let t = ts[n - 1];
        let w = unicode_str_width(t) as int;
        if used >= max {
            (out, used)
        } else if used + w <= max {
            (out.push(t), used + w)
        } else {
            (out.push(t.take(fit_len(t, max - used))), max)
        }
    }
}

/// The texts cut to at most `max` columns in all: unchanged when they fit;
/// otherwise whole texts while they fit, then the part of the next one
/// that fits.
pub open spec fn spec_clip(ts: Seq<Seq<char>>, max: int) -> Seq<Seq<char>> {
    if widths_sum(ts) <= max {
        ts
    } else {
        clip_walk(ts, max, ts.len()).0
    }
}

/// Whether the texts' total width is at most `max`.
fn texts_fit(ts: &Vec<String>, max: usize) -> (r: bool)
    ensures
        r == (widths_sum(crate::parser::strings_view(ts@)) <= max),
{
    let ghost v = crate::parser::strings_view(ts@);
    let mut acc: usize = 0;
    let mut i: usize = 0;
    while i < ts.len()
        invariant
            v == crate::parser::strings_view(ts@),
            i <= ts@.len(),
            acc == widths_sum(v.take(i as int)),
            acc <= max,
        decreases ts.len() - i,
    {
        assert(v.take(i + 1).drop_last() =~= v.take(i as int));
        let w = str_width(ts[i].as_str());
        if w > max - acc {
            proof {
                lemma_widths_prefix(v, i + 1);
            }
            return false;
        }
        acc = acc + w;
        i += 1;
    }
    assert(v.take(ts.len() as int) =~= v);
    true
}

proof fn lemma_widths_prefix(v: Seq<Seq<char>>, k: int)
    requires
        0 <= k <= v.len(),
    ensures
        widths_sum(v.take(k)) <= widths_sum(v),
    decreases v.len() - k,
{
    if k < v.len() {
        lemma_widths_prefix(v, k + 1);
        assert(v.take(k + 1).drop_last() =~= v.take(k));
    } else {
        assert(v.take(k) =~= v);
    }
}

/// Characters of `s` that fit in `budget` columns.
fn fit_prefix(s: &Vec<char>, budget: usize) -> (r: usize)
    ensures
        r == fit_len(s@, budget as int),
        r <= s@.len(),
{
    let mut acc: usize = 0;
    let mut i: usize = 0;
    while i < s.len()
        invariant
            i <= s@.len(),
            acc == prefix_width(s@, i as int),
            acc <= budget,
            fit_len(s@.take(i as int), budget as int) == i,
        decreases s.len() - i,
    {
        let cw = match char_width(s[i]) {
            Some(w) => w,
            None => 0,
        };
        if cw > budget - acc {
            proof {
                lemma_fit_stops(s@, budget as int, i as int);
            }
            return i;
        }
        proof {
            assert(s@.take(i + 1).drop_last() =~= s@.take(i as int));
            lemma_prefix_width_take(s@, i + 1, i as int);
        }
        acc = acc + cw;
        i += 1;
    }
    assert(s@.take(s.len() as int) =~= s@);
    i
}

proof fn lemma_prefix_width_take(s: Seq<char>, n: int, k: int)
    requires
        0 <= k <= n <= s.len(),
    ensures
        prefix_width(s.take(n), k) == prefix_width(s, k),
    decreases k,
{
    if k > 0 {
        lemma_prefix_width_take(s, n, k - 1);
    }
}

/// Once a character does not fit, no later one is taken.
proof fn lemma_fit_stops(s: Seq<char>, budget: int, i: int)
    requires
        0 <= i < s.len(),
        fit_len(s.take(i), budget) == i,
        prefix_width(s, i) + cw(s[i]) > budget,
    ensures
        fit_len(s, budget) == i,
{
    lemma_fit_stops_upto(s, budget, i, s.len() as int);
    assert(s.take(s.len() as int) =~= s);
}

proof fn lemma_fit_stops_upto(s: Seq<char>, budget: int, i: int, n: int)
    requires
        0 <= i < n <= s.len(),
        fit_len(s.take(i), budget) == i,
        prefix_width(s, i) + cw(s[i]) > budget,
    ensures
        fit_len(s.take(n), budget) == i,
    decreases n,
{
    assert(s.take(n).drop_last() =~= s.take(n - 1));
    if n == i + 1 {
        lemma_prefix_width_take(s, n, i);
        assert(s.take(n)[i] == s[i]);
    } else {
        lemma_fit_stops_upto(s, budget, i, n - 1);
    }
}

/// Truncate texts to at most `max` display columns in all.
pub fn clip_texts(texts: &Vec<String>, max: usize) -> (r: Vec<String>)
    ensures
        crate::parser::strings_view(r@) == spec_clip(crate::parser::strings_view(texts@), max as int),
{
    let ghost v = crate::parser::strings_view(texts@);
    let fits = texts_fit(texts, max);
    let mut out: Vec<String> = Vec::new();
    let mut used: usize = 0;
    let mut i: usize = 0;
    while i < texts.len()
        invariant
            v == crate::parser::strings_view(texts@),
            i <= texts@.len(),
            fits ==> crate::parser::strings_view(out@) == v.take(i as int),
            !fits ==> (crate::parser::strings_view(out@), used as int) == clip_walk(v, max as int, i as nat),
            used <= max,
        decreases texts.len() - i,
    {
        let ghost o0 = out@;
        assert(v[i as int] == texts@[i as int]@);
        if fits {
            out.push(texts[i].clone());
            assert(crate::parser::strings_view(out@) =~= v.take(i + 1));
        } else if used < max {
            let w = str_width(texts[i].as_str());
            if w <= max - used {
                out.push(texts[i].clone());
                used = used + w;
                assert(crate::parser::strings_view(out@) =~= crate::parser::strings_view(o0).push(v[i as int]));
            } else {
                let cs = chars_of(texts[i].as_str());
                let end = fit_prefix(&cs, max - used);
                let piece = string_from_range(cs.as_slice(), 0, end);
                out.push(piece);
                used = max;
                assert(cs@.subrange(0, end as int) =~= v[i as int].take(end as int));
                assert(crate::parser::strings_view(out@) =~= crate::parser::strings_view(o0).push(
                    v[i as int].take(fit_len(v[i as int], (max - (clip_walk(v, max as int, i as nat).1)) as int)),
                ));
            }
        }
        i += 1;
    }
    assert(v.take(texts.len() as int) =~= v);
    out
}

proof fn lemma_fit_le(s: Seq<char>, budget: int)
    ensures
        0 <= fit_len(s, budget) <= s.len(),
    decreases s.len(),
{
    if s.len() > 0 {
        lemma_fit_le(s.drop_last(), budget);
    }
}

/// Clipping only drops texts at the end and cuts one: each kept text is a
/// prefix of the text at its place.
pub proof fn law_clip_prefixes(ts: Seq<Seq<char>>, max: int)
    ensures
        spec_clip(ts, max).len() <= ts.len(),
        forall|k: int| 0 <= k < spec_clip(ts, max).len() ==> has_prefix(ts[k], #[trigger] spec_clip(ts, max)[k]),
{
    if widths_sum(ts) <= max {
        assert forall|k: int| 0 <= k < ts.len() implies has_prefix(ts[k], #[trigger] ts[k]) by {
            assert(ts[k].take(ts[k].len() as int) =~= ts[k]);
        }
    } else {
        lemma_clip_walk(ts, max, ts.len());
    }
}

proof fn lemma_clip_walk(ts: Seq<Seq<char>>, max: int, n: nat)
    requires
        n <= ts.len(),
    ensures
        clip_walk(ts, max, n).0.len() <= n,
        clip_walk(ts, max, n).1 < max ==> clip_walk(ts, max, n).0.len() == n,
        forall|k: int| 0 <= k < clip_walk(ts, max, n).0.len() ==> has_prefix(ts[k], #[trigger] clip_walk(ts, max, n).0[k]),
    decreases n,
{
    if n > 0 {
        lemma_clip_walk(ts, max, (n - 1) as nat);
        let prev = clip_walk(ts, max, (n - 1) as nat).0;
        let out = clip_walk(ts, max, n).0;
        let t = ts[n - 1];
        lemma_fit_le(t, max - clip_walk(ts, max, (n - 1) as nat).1);
        assert forall|k: int| 0 <= k < out.len() implies has_prefix(ts[k], #[trigger] out[k]) by {
            if k < prev.len() {
                assert(out[k] == prev[k]);
            } else {
                assert(k == prev.len());
                assert(k == n - 1);
                if out[k] == t {
                    assert(t.take(t.len() as int) =~= t);
                } else {
                    let e = fit_len(t, max - clip_walk(ts, max, (n - 1) as nat).1);
                    assert(out[k] == t.take(e));
                    assert(t.take(e).len() == e);
                    assert(t.take(t.take(e).len() as int) =~= t.take(e));
                }
            }
        }
    }
}

} // verus!
