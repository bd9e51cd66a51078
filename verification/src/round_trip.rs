//! Formatting confirmed hunks and parsing the result back: the text the
//! formatter writes is read back by the parser as the same files.

use vstd::prelude::*;
use crate::parser::{
    a_path, add_line, body_text, confirmed_hunks, diff_git_text, file_block, hunk_text, hunks_text,
    initial_model, is_meta_line, law_strip_ansi_plain, line_text, lines_text, markers_text, new_pending,
    parse_lines, parse_step, push_hunk, spec_format, spec_parse, spec_strip_ansi, start_pending,
    sum_additions, sum_deletions, flush_pending, FileModel, FileStatus, HunkModel, LineModel,
    ParseModel, ParseState, PendingModel, whole_file_unit, literal_size,
};
use crate::text::{
    all_digits, chomp_cr, digits_value, has_prefix, is_digit, is_white_space, last_match_below, spec_lines, spec_rfind,
    spec_trim, split_state, trim_end_at, trim_start_at,
};

verus! {

// ── Lines of the output ──

/// A diff line as written: its marker, then its text.
pub open spec fn line_str(l: LineModel) -> Seq<char> {
    match l {
        LineModel::Context(s) => seq![' '] + s,
        LineModel::Addition(s) => seq!['+'] + s,
        LineModel::Deletion(s) => seq!['-'] + s,
    }
}

pub open spec fn hunk_lines(h: HunkModel) -> Seq<Seq<char>> {
    seq![h.header] + Seq::new(h.lines.len(), |k: int| line_str(h.lines[k]))
}

pub open spec fn hunks_lines(hs: Seq<HunkModel>) -> Seq<Seq<char>>
    decreases hs.len(),
{
    if hs.len() == 0 {
        Seq::empty()
    } else {
        hunks_lines(hs.drop_last()) + hunk_lines(hs.last())
    }
}

pub open spec fn diff_git_line(f: FileModel) -> Seq<char> {
    "diff --git a/"@ + a_path(f) + " b/"@ + f.rel_path
}

pub open spec fn marker_lines(f: FileModel) -> Seq<Seq<char>> {
    match f.status {
        FileStatus::Added => seq!["--- /dev/null"@, "+++ b/"@ + f.rel_path],
        FileStatus::Deleted => seq!["--- a/"@ + a_path(f), "+++ /dev/null"@],
        _ => seq!["--- a/"@ + a_path(f), "+++ b/"@ + f.rel_path],
    }
}

/// The lines a file is written as: a text file with all hunks confirmed,
/// or a confirmed whole-file unit.
pub open spec fn file_lines(f: FileModel) -> Seq<Seq<char>> {
    if f.binary {
        seq![diff_git_line(f)] + f.header_lines + seq![f.binary_content.drop_last()]
    } else if f.hunks.len() == 0 {
        seq![diff_git_line(f)] + f.header_lines
    } else {
        seq![diff_git_line(f)] + f.header_lines + marker_lines(f) + hunks_lines(f.hunks)
    }
}

pub open spec fn all_lines(fs: Seq<FileModel>) -> Seq<Seq<char>>
    decreases fs.len(),
{
    if fs.len() == 0 {
        Seq::empty()
    } else {
        all_lines(fs.drop_last()) + file_lines(fs.last())
    }
}

proof fn lemma_lines_text_append(a: Seq<Seq<char>>, b: Seq<Seq<char>>)
    ensures
        lines_text(a + b) == lines_text(a) + lines_text(b),
    decreases b.len(),
{
    if b.len() == 0 {
        assert(a + b =~= a);
        assert(lines_text(a) + lines_text(b) =~= lines_text(a));
    } else {
        lemma_lines_text_append(a, b.drop_last());
        assert((a + b).drop_last() =~= a + b.drop_last());
        assert((a + b).last() == b.last());
        assert(lines_text(a) + lines_text(b) =~= lines_text(a) + lines_text(b.drop_last()) + b.last() + seq!['\n']);
    }
}

proof fn lemma_lines_text_one(x: Seq<char>)
    ensures
        lines_text(seq![x]) == x + seq!['\n'],
{
    assert(seq![x].drop_last() =~= Seq::<Seq<char>>::empty());
    assert(lines_text(Seq::<Seq<char>>::empty()) == Seq::<char>::empty());
    assert(Seq::<char>::empty() + x + seq!['\n'] =~= x + seq!['\n']);
}

proof fn lemma_body_text(ls: Seq<LineModel>)
    ensures
        body_text(ls) == lines_text(Seq::new(ls.len(), |k: int| line_str(ls[k]))),
    decreases ls.len(),
{
    let m = Seq::new(ls.len(), |k: int| line_str(ls[k]));
    if ls.len() > 0 {
        lemma_body_text(ls.drop_last());
        assert(m.drop_last() =~= Seq::new(ls.drop_last().len(), |k: int| line_str(ls.drop_last()[k])));
        assert(line_text(ls.last()) =~= m.last() + seq!['\n']);
    } else {
        assert(m =~= Seq::<Seq<char>>::empty());
    }
}

proof fn lemma_hunk_text(h: HunkModel)
    ensures
        hunk_text(h) == lines_text(hunk_lines(h)),
{
    lemma_body_text(h.lines);
    lemma_lines_text_append(seq![h.header], Seq::new(h.lines.len(), |k: int| line_str(h.lines[k])));
    lemma_lines_text_one(h.header);
}

proof fn lemma_hunks_text(hs: Seq<HunkModel>)
    ensures
        hunks_text(hs) == lines_text(hunks_lines(hs)),
    decreases hs.len(),
{
    if hs.len() == 0 {
    } else {
        lemma_hunks_text(hs.drop_last());
        lemma_hunk_text(hs.last());
        lemma_lines_text_append(hunks_lines(hs.drop_last()), hunk_lines(hs.last()));
    }
}

proof fn lemma_all_confirmed(hs: Seq<HunkModel>)
    requires
        forall|k: int| 0 <= k < hs.len() ==> (#[trigger] hs[k]).confirmed,
    ensures
        confirmed_hunks(hs) == hs,
    decreases hs.len(),
{
    if hs.len() > 0 {
        assert forall|k: int| 0 <= k < hs.drop_last().len() implies (#[trigger] hs.drop_last()[k]).confirmed by {
            assert(hs.drop_last()[k] == hs[k]);
        }
        lemma_all_confirmed(hs.drop_last());
        assert(hs.last() == hs[hs.len() - 1]);
        assert(hs.drop_last().push(hs.last()) =~= hs);
    }
}

proof fn lemma_markers_text(f: FileModel)
    ensures
        markers_text(f) == lines_text(marker_lines(f)),
{
    reveal_strlit("--- /dev/null\n");
    reveal_strlit("--- /dev/null");
    reveal_strlit("+++ /dev/null\n");
    reveal_strlit("+++ /dev/null");
    let ls = marker_lines(f);
    lemma_lines_text_append(seq![ls[0]], seq![ls[1]]);
    assert(seq![ls[0]] + seq![ls[1]] =~= ls);
    lemma_lines_text_one(ls[0]);
    lemma_lines_text_one(ls[1]);
    assert(markers_text(f) =~= ls[0] + seq!['\n'] + (ls[1] + seq!['\n']));
}

// ── What the round trip needs of a file ──

/// No newline and no escape character.
pub open spec fn plain_text(s: Seq<char>) -> bool {
    forall|k: int| 0 <= k < s.len() ==> #[trigger] s[k] != '\n' && s[k] != '\x1b'
}

/// A line the line splitter gives back unchanged: plain, and not ending
/// in a carriage return.
pub open spec fn plain_line(s: Seq<char>) -> bool {
    plain_text(s) && (s.len() == 0 || s.last() != '\r')
}

pub open spec fn has_sub(s: Seq<char>, p: Seq<char>) -> bool {
    exists|i: int| 0 <= i && i + p.len() <= s.len() && #[trigger] s.subrange(i, i + p.len()) == p
}

/// A metadata line that no earlier rule of the header state takes.
pub open spec fn meta_only(line: Seq<char>) -> bool {
    &&& is_meta_line(line)
    &&& !has_prefix(line, "diff --git "@)
    &&& !has_prefix(line, "--- /dev/null"@)
    &&& !has_prefix(line, "+++ /dev/null"@)
    &&& !has_prefix(line, "--- "@)
    &&& !has_prefix(line, "+++ "@)
    &&& !has_prefix(line, "@@ "@)
    &&& !has_prefix(line, "rename from "@)
    &&& !has_prefix(line, "copy from "@)
    &&& !has_prefix(line, "Binary files "@)
    &&& !has_prefix(line, "GIT binary patch"@)
}

pub open spec fn hunk_ok(h: HunkModel) -> bool {
    &&& has_prefix(h.header, "@@ "@)
    &&& plain_line(h.header)
    &&& h.confirmed
    &&& forall|k: int| 0 <= k < h.lines.len() ==> plain_line(#[trigger] line_str(h.lines[k]))
}

/// The status and old path that a file's metadata lines give: those of
/// the last `rename from` or `copy from` line, if any.
pub open spec fn header_origin(hl: Seq<Seq<char>>) -> Option<(FileStatus, Seq<char>)>
    decreases hl.len(),
{
    if hl.len() == 0 {
        None
    } else if has_prefix(hl.last(), "rename from "@) {
        Some((FileStatus::Renamed, hl.last().skip("rename from "@.len() as int)))
    } else if has_prefix(hl.last(), "copy from "@) {
        Some((FileStatus::Copied, hl.last().skip("copy from "@.len() as int)))
    } else {
        header_origin(hl.drop_last())
    }
}

proof fn lemma_origin_status(hl: Seq<Seq<char>>)
    ensures
        header_origin(hl) matches Some((st, _)) ==> st == FileStatus::Renamed || st == FileStatus::Copied,
    decreases hl.len(),
{
    if hl.len() > 0 {
        lemma_origin_status(hl.drop_last());
    }
}

/// A metadata line, or the line naming a renamed or copied file's source.
pub open spec fn header_line_ok(line: Seq<char>) -> bool {
    meta_only(line) || has_prefix(line, "rename from "@) || has_prefix(line, "copy from "@)
}

/// The old path and status agree with the metadata lines: a renamed or
/// copied file has the source its last `rename from` / `copy from` line
/// names, and any other file has no old path.
pub open spec fn origin_ok(f: FileModel) -> bool {
    match header_origin(f.header_lines) {
        Some((st, o)) => f.old_path == Some(o) && f.status == st,
        None => f.old_path is None,
    }
}

/// Path, metadata and sizes the round trip keeps: a single plain path
/// with no ` b/` in it, an old path only as the metadata names it, no
/// binary sizes, and metadata lines that are plain and taken as metadata.
pub open spec fn paths_ok(f: FileModel) -> bool {
    &&& f.rel_path.len() > 0
    &&& plain_line(f.rel_path)
    &&& !has_sub(f.rel_path, " b/"@)
    &&& origin_ok(f)
    &&& f.binary_new_size is None
    &&& f.binary_old_size is None
    &&& forall|k: int| 0 <= k < f.header_lines.len() ==> header_line_ok(#[trigger] f.header_lines[k]) && plain_line(
        f.header_lines[k],
    )
}

/// A text file, added, modified, deleted, renamed or copied, with all hunks
/// confirmed and every header and line a plain line.
pub open spec fn text_round_trips(f: FileModel) -> bool {
    &&& paths_ok(f)
    &&& (header_origin(f.header_lines) is None ==> (f.status == FileStatus::Added || f.status == FileStatus::Modified
        || f.status == FileStatus::Deleted))
    &&& !f.binary
    &&& f.binary_content.len() == 0
    &&& f.hunks.len() > 0
    &&& forall|k: int| 0 <= k < f.hunks.len() ==> hunk_ok(#[trigger] f.hunks[k])
}

/// A confirmed change of metadata only (a mode change, a pure rename or
/// copy): metadata lines and no content.
pub open spec fn mode_round_trips(f: FileModel) -> bool {
    &&& paths_ok(f)
    &&& (header_origin(f.header_lines) is None ==> f.status == FileStatus::Modified)
    &&& !f.binary
    &&& f.binary_content.len() == 0
    &&& f.hunks.len() == 0
    &&& f.header_lines.len() > 0
    &&& f.confirmed
}

/// The binary content of a binary file noted by one `Binary files` line.
pub open spec fn note_line(f: FileModel) -> Seq<char> {
    f.binary_content.drop_last()
}

/// A confirmed binary file whose content is one `Binary files ...` line.
pub open spec fn note_round_trips(f: FileModel) -> bool {
    &&& paths_ok(f)
    &&& (header_origin(f.header_lines) is None ==> f.status == FileStatus::Modified)
    &&& f.binary
    &&& f.hunks.len() == 0
    &&& f.confirmed
    &&& f.binary_content.len() > 0
    &&& f.binary_content.last() == '\n'
    &&& plain_line(note_line(f))
    &&& has_prefix(note_line(f), "Binary files "@)
}

/// The files the round trip gives back: text files with their hunks
/// confirmed, confirmed metadata-only changes (mode changes, pure renames
/// and copies), and confirmed binary files noted by one line, each with
/// plain lines the parser takes as what they are; a renamed or copied file
/// keeps the source its metadata names.
pub open spec fn round_trips(f: FileModel) -> bool {
    text_round_trips(f) || mode_round_trips(f) || note_round_trips(f)
}

proof fn lemma_file_block(f: FileModel)
    requires
        round_trips(f),
    ensures
        file_block(f) == lines_text(file_lines(f)),
{
    lemma_lines_text_one(diff_git_line(f));
    assert(diff_git_text(f) =~= diff_git_line(f) + seq!['\n']);
    let a = seq![diff_git_line(f)];
    lemma_lines_text_append(a, f.header_lines);
    if text_round_trips(f) {
        lemma_all_confirmed(f.hunks);
        lemma_hunks_text(f.hunks);
        lemma_markers_text(f);
        lemma_lines_text_append(a + f.header_lines, marker_lines(f));
        lemma_lines_text_append(a + f.header_lines + marker_lines(f), hunks_lines(f.hunks));
    } else if mode_round_trips(f) {
        assert(f.binary_content =~= Seq::<char>::empty());
    } else {
        lemma_lines_text_one(note_line(f));
        lemma_lines_text_append(a + f.header_lines, seq![note_line(f)]);
        assert(note_line(f) + seq!['\n'] =~= f.binary_content);
    }
}

proof fn lemma_format_lines(fs: Seq<FileModel>)
    requires
        forall|k: int| 0 <= k < fs.len() ==> round_trips(#[trigger] fs[k]),
    ensures
        spec_format(fs) == lines_text(all_lines(fs)),
    decreases fs.len(),
{
    if fs.len() > 0 {
        assert forall|k: int| 0 <= k < fs.drop_last().len() implies round_trips(#[trigger] fs.drop_last()[k]) by {
            assert(fs.drop_last()[k] == fs[k]);
        }
        lemma_format_lines(fs.drop_last());
        assert(round_trips(fs[fs.len() - 1]));
        lemma_file_block(fs.last());
        lemma_lines_text_append(all_lines(fs.drop_last()), file_lines(fs.last()));
    }
}

// ── Reading the output back as lines ──

proof fn lemma_lines_text_no_esc(ls: Seq<Seq<char>>)
    requires
        forall|k: int| 0 <= k < ls.len() ==> plain_text(#[trigger] ls[k]),
    ensures
        forall|i: int| 0 <= i < lines_text(ls).len() ==> #[trigger] lines_text(ls)[i] != '\x1b',
    decreases ls.len(),
{
    if ls.len() > 0 {
        assert forall|k: int| 0 <= k < ls.drop_last().len() implies plain_text(#[trigger] ls.drop_last()[k]) by {
            assert(ls.drop_last()[k] == ls[k]);
        }
        lemma_lines_text_no_esc(ls.drop_last());
        let a = lines_text(ls.drop_last());
        let t = lines_text(ls);
        assert(plain_text(ls[ls.len() - 1]));
        assert forall|i: int| 0 <= i < t.len() implies #[trigger] t[i] != '\x1b' by {
            if i < a.len() {
                assert(t[i] == a[i]);
            } else if i < a.len() + ls.last().len() {
                assert(t[i] == ls.last()[i - a.len()]);
            }
        }
    }
}

proof fn lemma_split_append(x: Seq<char>, l: Seq<char>)
    requires
        split_state(x).1.len() == 0,
        plain_text(l),
    ensures
        split_state(x + l) == (split_state(x).0, l),
    decreases l.len(),
{
    if l.len() == 0 {
        assert(x + l =~= x);
    } else {
        assert forall|k: int| 0 <= k < l.drop_last().len() implies #[trigger] l.drop_last()[k] != '\n' && l.drop_last()[k]
            != '\x1b' by {
            assert(l.drop_last()[k] == l[k]);
        }
        lemma_split_append(x, l.drop_last());
        assert((x + l).drop_last() =~= x + l.drop_last());
        assert((x + l).last() == l[l.len() - 1]);
        assert(l.drop_last().push(l.last()) =~= l);
    }
}

proof fn lemma_split_lines(ls: Seq<Seq<char>>)
    requires
        forall|k: int| 0 <= k < ls.len() ==> plain_line(#[trigger] ls[k]),
    ensures
        split_state(lines_text(ls)) == (ls, Seq::<char>::empty()),
    decreases ls.len(),
{
    if ls.len() > 0 {
        assert forall|k: int| 0 <= k < ls.drop_last().len() implies plain_line(#[trigger] ls.drop_last()[k]) by {
            assert(ls.drop_last()[k] == ls[k]);
        }
        lemma_split_lines(ls.drop_last());
        let x = lines_text(ls.drop_last());
        let l = ls.last();
        assert(plain_line(ls[ls.len() - 1]));
        lemma_split_append(x, l);
        let t = lines_text(ls);
        assert(t == x + l + seq!['\n']);
        assert(t.drop_last() =~= x + l);
        assert(chomp_cr(l) == l);
        assert(ls.drop_last().push(l) =~= ls);
    } else {
        assert(split_state(Seq::<char>::empty()).0 =~= ls);
    }
}

/// The formatter's lines, read back: ANSI stripping leaves them alone and
/// line splitting gives them back one by one.
proof fn lemma_read_lines(ls: Seq<Seq<char>>)
    requires
        forall|k: int| 0 <= k < ls.len() ==> plain_line(#[trigger] ls[k]),
    ensures
        spec_lines(spec_strip_ansi(lines_text(ls))) == ls,
{
    lemma_lines_text_no_esc(ls);
    law_strip_ansi_plain(lines_text(ls));
    lemma_split_lines(ls);
}

// ── Reading the lines back ──

/// The parser's model after reading `ls`, starting from `m`.
pub open spec fn run(m: ParseModel, ls: Seq<Seq<char>>) -> ParseModel
    decreases ls.len(),
{
    if ls.len() == 0 {
        m
    } else {
        parse_step(run(m, ls.drop_last()), ls.last())
    }
}

proof fn lemma_run_concat(m: ParseModel, a: Seq<Seq<char>>, b: Seq<Seq<char>>)
    ensures
        run(m, a + b) == run(run(m, a), b),
    decreases b.len(),
{
    if b.len() == 0 {
        assert(a + b =~= a);
    } else {
        lemma_run_concat(m, a, b.drop_last());
        assert((a + b).drop_last() =~= a + b.drop_last());
        assert((a + b).last() == b.last());
    }
}

proof fn lemma_run_one(m: ParseModel, x: Seq<char>)
    ensures
        run(m, seq![x]) == parse_step(m, x),
{
    assert(seq![x].drop_last() =~= Seq::<Seq<char>>::empty());
    assert(run(m, seq![x].drop_last()) == m);
    assert(seq![x].last() == x);
}

proof fn lemma_parse_lines_run(ls: Seq<Seq<char>>)
    ensures
        parse_lines(ls) == run(initial_model(), ls),
    decreases ls.len(),
{
    if ls.len() > 0 {
        lemma_parse_lines_run(ls.drop_last());
    }
}

pub open spec fn at(state: ParseState, p: PendingModel, files: Seq<FileModel>) -> ParseModel {
    ParseModel { state, pending: p, files, error: None }
}

/// `s` does not start with `p`: they differ at `i`.
proof fn lemma_not_prefix(s: Seq<char>, p: Seq<char>, i: int)
    requires
        0 <= i < p.len(),
        i < s.len() ==> s[i] != p[i],
    ensures
        !has_prefix(s, p),
{
    if has_prefix(s, p) {
        assert(s.take(p.len() as int)[i] == s[i]);
    }
}

proof fn lemma_prefix_of(s: Seq<char>, p: Seq<char>, rest: Seq<char>)
    requires
        s == p + rest,
    ensures
        has_prefix(s, p),
{
    assert(s.take(p.len() as int) =~= p);
}

/// Occurrences of ` b/` end at the last one before `r`, when `r` holds none.
proof fn lemma_rfind_last(s: Seq<char>, x: int, k: int)
    requires
        0 <= x,
        x + 3 <= s.len(),
        s.subrange(x, x + 3) == " b/"@,
        x + 1 <= k <= s.len() + 1,
        " b/"@.len() == 3,
        forall|j: int| x < j < k - 0 && j + 3 <= s.len() ==> #[trigger] s.subrange(j, j + 3) != " b/"@,
    ensures
        last_match_below(s, " b/"@, k) == Some(x),
    decreases k,
{
    if k > x + 1 {
        lemma_rfind_last(s, x, k - 1);
    }
}

proof fn lemma_diff_rest(f: FileModel)
    requires
        round_trips(f),
    ensures
        has_prefix(diff_git_line(f), "diff --git "@),
        spec_rfind(diff_git_line(f).skip("diff --git "@.len() as int), " b/"@) == Some(
            (diff_git_line(f).skip("diff --git "@.len() as int).len() - f.rel_path.len() - 3) as int,
        ),
        diff_git_line(f).skip("diff --git "@.len() as int).skip(
            diff_git_line(f).skip("diff --git "@.len() as int).len() - f.rel_path.len(),
        ) == f.rel_path,
{
    reveal_strlit("diff --git a/");
    reveal_strlit("diff --git ");
    reveal_strlit(" b/");
    let line = diff_git_line(f);
    let r = f.rel_path;
    let a = a_path(f);
    let rest = line.skip(11);
    let x = rest.len() - r.len() - 3;
    assert(rest =~= seq!['a', '/'] + a + " b/"@ + r);
    assert(line =~= "diff --git "@ + rest);
    lemma_prefix_of(line, "diff --git "@, rest);
    assert(rest.subrange(x, x + 3) =~= " b/"@);
    assert forall|j: int| x < j < rest.len() + 1 && j + 3 <= rest.len() implies #[trigger] rest.subrange(j, j + 3) != " b/"@ by {
        if j == x + 1 {
            assert(rest.subrange(j, j + 3)[0] == 'b');
        } else if j == x + 2 {
            assert(rest.subrange(j, j + 3)[0] == '/');
        } else {
            let i = j - x - 3;
            assert(rest.subrange(j, j + 3) =~= r.subrange(i, i + 3));
            if rest.subrange(j, j + 3) == " b/"@ {
                assert(has_sub(r, " b/"@));
            }
        }
    }
    lemma_rfind_last(rest, x, rest.len() + 1 as int);
    assert(rest.skip(rest.len() - r.len()) =~= r);
}

/// The `diff --git` line of a file starts it afresh, after emitting the
/// file before it.
proof fn lemma_step_diff(m: ParseModel, f: FileModel)
    requires
        round_trips(f),
        m.error is None,
    ensures
        parse_step(m, diff_git_line(f)) == at(
            ParseState::FileHeader,
            start_pending(f.rel_path),
            if m.state == ParseState::Init {
                m.files
            } else {
                flush_pending(m.pending, m.files).1
            },
        ),
{
    lemma_diff_rest(f);
    let line = diff_git_line(f);
    let rest = line.skip("diff --git "@.len() as int);
    assert(rest.skip(rest.len() - f.rel_path.len()) == f.rel_path);
    assert((rest.len() - f.rel_path.len() - 3) + " b/"@.len() == rest.len() - f.rel_path.len()) by {
        reveal_strlit(" b/");
    }
}

/// A metadata line is kept as a header line.
proof fn lemma_step_meta(p: PendingModel, files: Seq<FileModel>, line: Seq<char>)
    requires
        meta_only(line),
    ensures
        parse_step(at(ParseState::FileHeader, p, files), line) == at(
            ParseState::FileHeader,
            PendingModel { header_lines: p.header_lines.push(line), ..p },
            files,
        ),
{
}

/// The pending file after its metadata lines `hl`: the lines kept, and
/// the status and old path of the last `rename from` / `copy from` line.
pub open spec fn hdr_applied(p: PendingModel, hl: Seq<Seq<char>>) -> PendingModel {
    PendingModel {
        header_lines: p.header_lines + hl,
        old_path: match header_origin(hl) {
            Some((_, o)) => Some(o),
            None => p.old_path,
        },
        status: match header_origin(hl) {
            Some((st, _)) => Some(st),
            None => p.status,
        },
        ..p
    }
}

/// A `rename from` or `copy from` line records the source and the status.
proof fn lemma_step_origin(p: PendingModel, files: Seq<FileModel>, line: Seq<char>)
    requires
        has_prefix(line, "rename from "@) || has_prefix(line, "copy from "@),
    ensures
        parse_step(at(ParseState::FileHeader, p, files), line) == at(
            ParseState::FileHeader,
            hdr_applied(p, seq![line]),
            files,
        ),
{
    reveal_strlit("rename from ");
    reveal_strlit("copy from ");
    reveal_strlit("diff --git ");
    reveal_strlit("--- /dev/null");
    reveal_strlit("+++ /dev/null");
    reveal_strlit("--- ");
    reveal_strlit("+++ ");
    reveal_strlit("@@ ");
    if has_prefix(line, "rename from "@) {
        assert(line.take(12)[0] == line[0]);
    } else {
        assert(line.take(10)[0] == line[0]);
        lemma_not_prefix(line, "rename from "@, 0);
    }
    lemma_not_prefix(line, "diff --git "@, 0);
    lemma_not_prefix(line, "--- /dev/null"@, 0);
    lemma_not_prefix(line, "+++ /dev/null"@, 0);
    lemma_not_prefix(line, "--- "@, 0);
    lemma_not_prefix(line, "+++ "@, 0);
    lemma_not_prefix(line, "@@ "@, 0);
    assert(seq![line].drop_last() =~= Seq::<Seq<char>>::empty());
    assert(seq![line].last() == line);
}

proof fn lemma_run_meta(p: PendingModel, files: Seq<FileModel>, hl: Seq<Seq<char>>)
    requires
        forall|k: int| 0 <= k < hl.len() ==> header_line_ok(#[trigger] hl[k]),
    ensures
        run(at(ParseState::FileHeader, p, files), hl) == at(ParseState::FileHeader, hdr_applied(p, hl), files),
    decreases hl.len(),
{
    if hl.len() == 0 {
        assert(p.header_lines + hl =~= p.header_lines);
        assert(hdr_applied(p, hl) =~= p);
    } else {
        let d = hl.drop_last();
        assert forall|k: int| 0 <= k < d.len() implies header_line_ok(#[trigger] d[k]) by {
            assert(d[k] == hl[k]);
        }
        lemma_run_meta(p, files, d);
        let line = hl.last();
        assert(header_line_ok(hl[hl.len() - 1]));
        let p1 = hdr_applied(p, d);
        if meta_only(line) {
            lemma_step_meta(p1, files, line);
            assert(!has_prefix(line, "rename from "@) && !has_prefix(line, "copy from "@));
            assert(header_origin(hl) == header_origin(d));
            assert((p.header_lines + d).push(line) =~= p.header_lines + hl);
            assert(PendingModel { header_lines: p1.header_lines.push(line), ..p1 } =~= hdr_applied(p, hl));
        } else {
            lemma_step_origin(p1, files, line);
            assert(header_origin(seq![line]) == header_origin(hl));
            assert((p.header_lines + d) + seq![line] =~= p.header_lines + hl);
            assert(hdr_applied(p1, seq![line]) =~= hdr_applied(p, hl));
        }
    }
}

/// The `---` / `+++` lines set the status: added for `--- /dev/null`,
/// deleted for `+++ /dev/null`; the others change nothing.
pub open spec fn marked(p: PendingModel, f: FileModel) -> PendingModel {
    match f.status {
        FileStatus::Added => PendingModel { status: Some(FileStatus::Added), ..p },
        FileStatus::Deleted => PendingModel { is_delete_only: true, ..p },
        _ => p,
    }
}

proof fn lemma_run_markers(p: PendingModel, files: Seq<FileModel>, f: FileModel)
    requires
        round_trips(f),
    ensures
        run(at(ParseState::FileHeader, p, files), marker_lines(f)) == at(ParseState::FileHeader, marked(p, f), files),
{
    reveal_strlit("--- /dev/null");
    reveal_strlit("+++ /dev/null");
    reveal_strlit("--- a/");
    reveal_strlit("+++ b/");
    reveal_strlit("--- ");
    reveal_strlit("+++ ");
    reveal_strlit("diff --git ");
    let ls = marker_lines(f);
    let m0 = at(ParseState::FileHeader, p, files);
    assert(ls =~= seq![ls[0]] + seq![ls[1]]);
    lemma_run_concat(m0, seq![ls[0]], seq![ls[1]]);
    lemma_run_one(m0, ls[0]);
    let dn = "--- /dev/null"@;
    let pn = "+++ /dev/null"@;
    let r = f.rel_path;
    let a = a_path(f);
    // first line
    let m1 = parse_step(m0, ls[0]);
    lemma_not_prefix(ls[0], "diff --git "@, 0);
    if f.status == FileStatus::Added {
        assert(ls[0] == dn);
        assert(ls[0] =~= dn + Seq::<char>::empty());
        lemma_prefix_of(ls[0], dn, Seq::empty());
        assert(m1 == at(ParseState::FileHeader, PendingModel { status: Some(FileStatus::Added), ..p }, files));
    } else {
        assert(ls[0] =~= "--- a/"@ + a);
        lemma_not_prefix(ls[0], dn, 4);
        lemma_not_prefix(ls[0], pn, 0);
        assert(ls[0] =~= "--- "@ + (seq!['a', '/'] + a));
        lemma_prefix_of(ls[0], "--- "@, seq!['a', '/'] + a);
        assert(m1 == m0);
    }
    lemma_run_one(m1, ls[1]);
    lemma_not_prefix(ls[1], "diff --git "@, 0);
    lemma_not_prefix(ls[1], dn, 0);
    if f.status == FileStatus::Deleted {
        assert(ls[1] == pn);
        assert(ls[1] =~= pn + Seq::<char>::empty());
        lemma_prefix_of(ls[1], pn, Seq::empty());
    } else {
        assert(ls[1] =~= "+++ b/"@ + r);
        lemma_not_prefix(ls[1], pn, 4);
        assert(ls[1] =~= "+++ "@ + (seq!['b', '/'] + r));
        lemma_prefix_of(ls[1], "+++ "@, seq!['b', '/'] + r);
    }
}

/// A hunk header opens a hunk, from the header state or inside hunks.
proof fn lemma_step_header(st: ParseState, p: PendingModel, files: Seq<FileModel>, h: Seq<char>)
    requires
        st == ParseState::FileHeader || st == ParseState::HunkContent,
        has_prefix(h, "@@ "@),
    ensures
        parse_step(at(st, p, files), h) == at(ParseState::HunkContent, push_hunk(p, h), files),
{
    reveal_strlit("@@ ");
    reveal_strlit("diff --git ");
    reveal_strlit("--- /dev/null");
    reveal_strlit("+++ /dev/null");
    reveal_strlit("--- ");
    reveal_strlit("+++ ");
    assert(h.take(3)[0] == h[0]);
    lemma_not_prefix(h, "diff --git "@, 0);
    lemma_not_prefix(h, "--- /dev/null"@, 0);
    lemma_not_prefix(h, "+++ /dev/null"@, 0);
    lemma_not_prefix(h, "--- "@, 0);
    lemma_not_prefix(h, "+++ "@, 0);
}

/// A written diff line is read back as the same line of the last hunk.
proof fn lemma_step_line(p: PendingModel, files: Seq<FileModel>, l: LineModel)
    ensures
        parse_step(at(ParseState::HunkContent, p, files), line_str(l)) == at(
            ParseState::HunkContent,
            add_line(p, l),
            files,
        ),
{
    reveal_strlit("@@ ");
    reveal_strlit("diff --git ");
    reveal_strlit("+");
    reveal_strlit("-");
    reveal_strlit(" ");
    let s = line_str(l);
    lemma_not_prefix(s, "diff --git "@, 0);
    lemma_not_prefix(s, "@@ "@, 0);
    match l {
        LineModel::Context(t) => {
            lemma_not_prefix(s, "+"@, 0);
            lemma_not_prefix(s, "-"@, 0);
            assert(s =~= " "@ + t);
            lemma_prefix_of(s, " "@, t);
            assert(s.skip(1) =~= t);
        },
        LineModel::Addition(t) => {
            assert(s =~= "+"@ + t);
            lemma_prefix_of(s, "+"@, t);
            assert(s.skip(1) =~= t);
        },
        LineModel::Deletion(t) => {
            lemma_not_prefix(s, "+"@, 0);
            assert(s =~= "-"@ + t);
            lemma_prefix_of(s, "-"@, t);
            assert(s.skip(1) =~= t);
        },
    }
}

// ── What the parser gives back ──

pub open spec fn count_adds(ls: Seq<LineModel>) -> nat
    decreases ls.len(),
{
    if ls.len() == 0 {
        0
    } else {
        count_adds(ls.drop_last()) + if ls.last() is Addition {
            1nat
        } else {
            0nat
        }
    }
}

pub open spec fn count_dels(ls: Seq<LineModel>) -> nat
    decreases ls.len(),
{
    if ls.len() == 0 {
        0
    } else {
        count_dels(ls.drop_last()) + if ls.last() is Deletion {
            1nat
        } else {
            0nat
        }
    }
}

/// A hunk as read back: unconfirmed, with its additions and deletions
/// counted from its lines.
pub open spec fn reread_hunk(h: HunkModel) -> HunkModel {
    HunkModel { confirmed: false, additions: count_adds(h.lines), deletions: count_dels(h.lines), ..h }
}

pub open spec fn reread_hunks(hs: Seq<HunkModel>) -> Seq<HunkModel> {
    Seq::new(hs.len(), |k: int| reread_hunk(hs[k]))
}

/// A file as read back: unconfirmed, with its counts recomputed.
pub open spec fn reread_file(f: FileModel) -> FileModel {
    let hs = reread_hunks(f.hunks);
    FileModel {
        hunks: hs,
        additions: sum_additions(hs),
        deletions: sum_deletions(hs),
        confirmed: false,
        ..f
    }
}

/// The first `k` lines of `h`, as read so far.
pub open spec fn partial_hunk(h: HunkModel, k: int) -> HunkModel {
    HunkModel {
        header: h.header,
        lines: h.lines.take(k),
        confirmed: false,
        additions: count_adds(h.lines.take(k)),
        deletions: count_dels(h.lines.take(k)),
    }
}

proof fn lemma_run_hunk_lines(p: PendingModel, files: Seq<FileModel>, h: HunkModel, k: nat)
    requires
        k <= h.lines.len(),
    ensures
        run(
            at(ParseState::HunkContent, push_hunk(p, h.header), files),
            Seq::new(k, |i: int| line_str(h.lines[i])),
        ) == at(
            ParseState::HunkContent,
            PendingModel { hunks: p.hunks.push(partial_hunk(h, k as int)), ..p },
            files,
        ),
    decreases k,
{
    let m0 = at(ParseState::HunkContent, push_hunk(p, h.header), files);
    if k == 0 {
        assert(h.lines.take(0) =~= Seq::<LineModel>::empty());
        assert(partial_hunk(h, 0) =~= crate::parser::new_hunk(h.header));
        assert(Seq::new(0, |i: int| line_str(h.lines[i])) =~= Seq::<Seq<char>>::empty());
    } else {
        lemma_run_hunk_lines(p, files, h, (k - 1) as nat);
        let s = Seq::new(k, |i: int| line_str(h.lines[i]));
        assert(s.drop_last() =~= Seq::new((k - 1) as nat, |i: int| line_str(h.lines[i])));
        let p1 = PendingModel { hunks: p.hunks.push(partial_hunk(h, k - 1)), ..p };
        lemma_step_line(p1, files, h.lines[k - 1]);
        assert(h.lines.take(k as int).drop_last() =~= h.lines.take(k - 1));
        assert(h.lines.take(k as int).last() == h.lines[k - 1]);
        assert(h.lines.take(k - 1).push(h.lines[k - 1]) =~= h.lines.take(k as int));
        assert(add_line(p1, h.lines[k - 1]).hunks =~= p.hunks.push(partial_hunk(h, k as int)));
    }
}

/// A written hunk is read back as the next hunk.
proof fn lemma_run_hunk(st: ParseState, p: PendingModel, files: Seq<FileModel>, h: HunkModel)
    requires
        st == ParseState::FileHeader || st == ParseState::HunkContent,
        has_prefix(h.header, "@@ "@),
    ensures
        run(at(st, p, files), hunk_lines(h)) == at(
            ParseState::HunkContent,
            PendingModel { hunks: p.hunks.push(reread_hunk(h)), ..p },
            files,
        ),
{
    let body = Seq::new(h.lines.len(), |k: int| line_str(h.lines[k]));
    lemma_run_concat(at(st, p, files), seq![h.header], body);
    lemma_run_one(at(st, p, files), h.header);
    lemma_step_header(st, p, files, h.header);
    lemma_run_hunk_lines(p, files, h, h.lines.len());
    assert(h.lines.take(h.lines.len() as int) =~= h.lines);
    assert(partial_hunk(h, h.lines.len() as int) == reread_hunk(h));
}

proof fn lemma_run_hunks(p: PendingModel, files: Seq<FileModel>, hs: Seq<HunkModel>)
    requires
        hs.len() > 0,
        forall|k: int| 0 <= k < hs.len() ==> has_prefix((#[trigger] hs[k]).header, "@@ "@),
    ensures
        run(at(ParseState::FileHeader, p, files), hunks_lines(hs)) == at(
            ParseState::HunkContent,
            PendingModel { hunks: p.hunks + reread_hunks(hs), ..p },
            files,
        ),
    decreases hs.len(),
{
    let m0 = at(ParseState::FileHeader, p, files);
    let d = hs.drop_last();
    assert(has_prefix(hs[hs.len() - 1].header, "@@ "@));
    lemma_run_concat(m0, hunks_lines(d), hunk_lines(hs.last()));
    if d.len() == 0 {
        assert(hunks_lines(d) =~= Seq::<Seq<char>>::empty());
        assert(hunks_lines(d) + hunk_lines(hs.last()) =~= hunk_lines(hs.last()));
        lemma_run_hunk(ParseState::FileHeader, p, files, hs.last());
        assert(p.hunks.push(reread_hunk(hs.last())) =~= p.hunks + reread_hunks(hs));
    } else {
        assert forall|k: int| 0 <= k < d.len() implies has_prefix((#[trigger] d[k]).header, "@@ "@) by {
            assert(d[k] == hs[k]);
        }
        lemma_run_hunks(p, files, d);
        let p1 = PendingModel { hunks: p.hunks + reread_hunks(d), ..p };
        lemma_run_hunk(ParseState::HunkContent, p1, files, hs.last());
        assert((p.hunks + reread_hunks(d)).push(reread_hunk(hs.last())) =~= p.hunks + reread_hunks(hs));
    }
}

/// What the parser holds after reading a written file, before emitting it.
pub open spec fn pending_after(f: FileModel) -> PendingModel {
    PendingModel {
        path: f.rel_path,
        old_path: f.old_path,
        status: Some(
            match header_origin(f.header_lines) {
                Some((st, _)) => st,
                None => if f.status == FileStatus::Added {
                    FileStatus::Added
                } else {
                    FileStatus::Modified
                },
            },
        ),
        hunks: reread_hunks(f.hunks),
        is_delete_only: f.status == FileStatus::Deleted,
        is_binary: f.binary,
        binary_new_size: None,
        binary_old_size: None,
        binary_content: f.binary_content,
        header_lines: f.header_lines,
        literal_count: 0,
    }
}

/// The parser's state after reading a written file: inside its hunks, or
/// still in its header for a whole-file unit.
pub open spec fn state_after(f: FileModel) -> ParseState {
    if f.hunks.len() > 0 {
        ParseState::HunkContent
    } else {
        ParseState::FileHeader
    }
}

/// A `Binary files` line marks the file binary and is kept as its content.
proof fn lemma_step_note(p: PendingModel, files: Seq<FileModel>, line: Seq<char>)
    requires
        has_prefix(line, "Binary files "@),
    ensures
        parse_step(at(ParseState::FileHeader, p, files), line) == at(
            ParseState::FileHeader,
            PendingModel { is_binary: true, binary_content: p.binary_content + line.push('\n'), ..p },
            files,
        ),
{
    reveal_strlit("Binary files ");
    reveal_strlit("diff --git ");
    reveal_strlit("--- /dev/null");
    reveal_strlit("+++ /dev/null");
    reveal_strlit("--- ");
    reveal_strlit("+++ ");
    reveal_strlit("@@ ");
    reveal_strlit("rename from ");
    reveal_strlit("copy from ");
    assert(line.take(13)[0] == line[0]);
    lemma_not_prefix(line, "diff --git "@, 0);
    lemma_not_prefix(line, "--- /dev/null"@, 0);
    lemma_not_prefix(line, "+++ /dev/null"@, 0);
    lemma_not_prefix(line, "--- "@, 0);
    lemma_not_prefix(line, "+++ "@, 0);
    lemma_not_prefix(line, "@@ "@, 0);
    lemma_not_prefix(line, "rename from "@, 0);
    lemma_not_prefix(line, "copy from "@, 0);
}

proof fn lemma_run_file(m: ParseModel, f: FileModel)
    requires
        round_trips(f),
        m.error is None,
    ensures
        run(m, file_lines(f)) == at(
            state_after(f),
            pending_after(f),
            if m.state == ParseState::Init {
                m.files
            } else {
                flush_pending(m.pending, m.files).1
            },
        ),
{
    let files = if m.state == ParseState::Init {
        m.files
    } else {
        flush_pending(m.pending, m.files).1
    };
    let a = seq![diff_git_line(f)];
    let b = f.header_lines;
    lemma_run_concat(m, a, b);
    lemma_run_one(m, diff_git_line(f));
    lemma_step_diff(m, f);
    let p0 = start_pending(f.rel_path);
    assert forall|k: int| 0 <= k < b.len() implies header_line_ok(#[trigger] b[k]) by {
        assert(paths_ok(f));
    }
    lemma_run_meta(p0, files, b);
    let p1 = hdr_applied(p0, b);
    assert(p0.header_lines + b =~= b);
    assert(p1.old_path == f.old_path);
    if text_round_trips(f) {
        let c = marker_lines(f);
        let d = hunks_lines(f.hunks);
        lemma_run_concat(m, a + b + c, d);
        lemma_run_concat(m, a + b, c);
        lemma_run_markers(p1, files, f);
        let p2 = marked(p1, f);
        assert forall|k: int| 0 <= k < f.hunks.len() implies has_prefix((#[trigger] f.hunks[k]).header, "@@ "@) by {
            assert(hunk_ok(f.hunks[k]));
        }
        lemma_run_hunks(p2, files, f.hunks);
        assert(p2.hunks + reread_hunks(f.hunks) =~= reread_hunks(f.hunks));
        assert(PendingModel { hunks: p2.hunks + reread_hunks(f.hunks), ..p2 } =~= pending_after(f));
    } else if mode_round_trips(f) {
        assert(reread_hunks(f.hunks) =~= Seq::<HunkModel>::empty());
        assert(f.binary_content =~= Seq::<char>::empty());
        assert(origin_ok(f));
        lemma_origin_status(f.header_lines);
        assert(f.status != FileStatus::Deleted);
        assert(p1.status == pending_after(f).status);
        assert(p1 =~= pending_after(f));
    } else {
        let c = seq![note_line(f)];
        lemma_run_concat(m, a + b, c);
        lemma_run_one(at(ParseState::FileHeader, p1, files), note_line(f));
        lemma_step_note(p1, files, note_line(f));
        assert(reread_hunks(f.hunks) =~= Seq::<HunkModel>::empty());
        assert(Seq::<char>::empty() + note_line(f).push('\n') =~= f.binary_content);
        assert(origin_ok(f));
        lemma_origin_status(f.header_lines);
        assert(f.status != FileStatus::Deleted);
        assert(p1.status == pending_after(f).status);
        assert(PendingModel { is_binary: true, binary_content: p1.binary_content + note_line(f).push('\n'), ..p1 }
            =~= pending_after(f));
    }
}

proof fn lemma_flush_after(f: FileModel, files: Seq<FileModel>)
    requires
        round_trips(f),
    ensures
        flush_pending(pending_after(f), files).1 == files.push(reread_file(f)),
{
    let p = pending_after(f);
    assert(p.hunks.len() > 0 || p.is_binary || p.header_lines.len() > 0);
    let g = flush_pending(p, files).1.last();
    if f.hunks.len() == 0 {
        assert(reread_hunks(f.hunks) =~= Seq::<HunkModel>::empty());
    }
    assert(g =~= reread_file(f));
}

/// The model after reading the lines of `fs`: the last file still pending,
/// the ones before it emitted.
pub open spec fn after_files(fs: Seq<FileModel>) -> ParseModel {
    if fs.len() == 0 {
        initial_model()
    } else {
        at(
            state_after(fs.last()),
            pending_after(fs.last()),
            Seq::new((fs.len() - 1) as nat, |k: int| reread_file(fs[k])),
        )
    }
}

proof fn lemma_run_files(fs: Seq<FileModel>)
    requires
        forall|k: int| 0 <= k < fs.len() ==> round_trips(#[trigger] fs[k]),
    ensures
        parse_lines(all_lines(fs)) == after_files(fs),
    decreases fs.len(),
{
    if fs.len() > 0 {
        let d = fs.drop_last();
        assert forall|k: int| 0 <= k < d.len() implies round_trips(#[trigger] d[k]) by {
            assert(d[k] == fs[k]);
        }
        lemma_run_files(d);
        lemma_parse_lines_run(all_lines(fs));
        lemma_parse_lines_run(all_lines(d));
        lemma_run_concat(initial_model(), all_lines(d), file_lines(fs.last()));
        assert(round_trips(fs[fs.len() - 1]));
        lemma_run_file(after_files(d), fs.last());
        if d.len() == 0 {
            assert(Seq::new((fs.len() - 1) as nat, |k: int| reread_file(fs[k])) =~= Seq::<FileModel>::empty());
        } else {
            assert(round_trips(fs[d.len() - 1]));
            lemma_flush_after(d.last(), Seq::new((d.len() - 1) as nat, |k: int| reread_file(d[k])));
            assert(Seq::new((d.len() - 1) as nat, |k: int| reread_file(d[k])).push(reread_file(d.last()))
                =~= Seq::new((fs.len() - 1) as nat, |k: int| reread_file(fs[k])));
        }
    }
}

proof fn lemma_plain_concat(a: Seq<char>, b: Seq<char>)
    requires
        plain_text(a),
        plain_text(b),
    ensures
        plain_text(a + b),
{
    assert forall|k: int| 0 <= k < (a + b).len() implies #[trigger] (a + b)[k] != '\n' && (a + b)[k] != '\x1b' by {
        if k < a.len() {
            assert((a + b)[k] == a[k]);
        } else {
            assert((a + b)[k] == b[k - a.len()]);
        }
    }
}

proof fn lemma_origin_plain(hl: Seq<Seq<char>>)
    requires
        forall|k: int| 0 <= k < hl.len() ==> plain_line(#[trigger] hl[k]),
    ensures
        header_origin(hl) matches Some((_, o)) ==> plain_line(o),
    decreases hl.len(),
{
    if hl.len() > 0 {
        let d = hl.drop_last();
        assert forall|k: int| 0 <= k < d.len() implies plain_line(#[trigger] d[k]) by {
            assert(d[k] == hl[k]);
        }
        lemma_origin_plain(d);
        let line = hl.last();
        assert(plain_line(hl[hl.len() - 1]));
        assert forall|n: int| 0 <= n <= line.len() implies plain_line(#[trigger] line.skip(n)) by {
            assert forall|k: int| 0 <= k < line.skip(n).len() implies #[trigger] line.skip(n)[k] != '\n' && line.skip(n)[k] != '\x1b' by {
                assert(line.skip(n)[k] == line[k + n]);
            }
            if line.skip(n).len() > 0 {
                assert(line.skip(n).last() == line.last());
            }
        }
        reveal_strlit("rename from ");
        reveal_strlit("copy from ");
    }
}

/// Every written line is a plain line.
proof fn lemma_lines_plain(fs: Seq<FileModel>)
    requires
        forall|k: int| 0 <= k < fs.len() ==> round_trips(#[trigger] fs[k]),
    ensures
        forall|k: int| 0 <= k < all_lines(fs).len() ==> plain_line(#[trigger] all_lines(fs)[k]),
    decreases fs.len(),
{
    if fs.len() > 0 {
        let d = fs.drop_last();
        assert forall|k: int| 0 <= k < d.len() implies round_trips(#[trigger] d[k]) by {
            assert(d[k] == fs[k]);
        }
        lemma_lines_plain(d);
        let f = fs.last();
        assert(round_trips(fs[fs.len() - 1]));
        let fl = file_lines(f);
        reveal_strlit("diff --git a/");
        reveal_strlit(" b/");
        reveal_strlit("--- /dev/null");
        reveal_strlit("+++ /dev/null");
        reveal_strlit("--- a/");
        reveal_strlit("+++ b/");
        let r = f.rel_path;
        let a = a_path(f);
        lemma_origin_plain(f.header_lines);
        assert(origin_ok(f));
        assert(plain_line(a));
        assert(plain_text("diff --git a/"@));
        assert(plain_text(" b/"@));
        assert(plain_text("--- a/"@));
        assert(plain_text("+++ b/"@));
        lemma_plain_concat("diff --git a/"@, a);
        lemma_plain_concat("diff --git a/"@ + a, " b/"@);
        lemma_plain_concat("diff --git a/"@ + a + " b/"@, r);
        lemma_plain_concat("--- a/"@, a);
        lemma_plain_concat("+++ b/"@, r);
        assert(plain_line(diff_git_line(f)));
        let ml = marker_lines(f);
        assert(forall|k: int| 0 <= k < ml.len() ==> plain_line(#[trigger] ml[k]));
        let hb = seq![diff_git_line(f)] + f.header_lines;
        assert forall|k: int| 0 <= k < hb.len() implies plain_line(#[trigger] hb[k]) by {
            if k > 0 {
                assert(hb[k] == f.header_lines[k - 1]);
            }
        }
        let rest = if f.binary {
            seq![f.binary_content.drop_last()]
        } else if f.hunks.len() == 0 {
            Seq::empty()
        } else {
            ml + hunks_lines(f.hunks)
        };
        assert(fl =~= hb + rest);
        if text_round_trips(f) {
            lemma_hunks_lines_plain(f.hunks);
            let hl = hunks_lines(f.hunks);
            assert forall|k: int| 0 <= k < rest.len() implies plain_line(#[trigger] rest[k]) by {
                if k < ml.len() {
                    assert(rest[k] == ml[k]);
                } else {
                    assert(rest[k] == hl[k - ml.len()]);
                }
            }
        }
        let all = all_lines(fs);
        let a = all_lines(d);
        assert forall|k: int| 0 <= k < all.len() implies plain_line(#[trigger] all[k]) by {
            if k < a.len() {
                assert(all[k] == a[k]);
            } else {
                let j = k - a.len();
                assert(all[k] == fl[j]);
                if j < hb.len() {
                    assert(fl[j] == hb[j]);
                } else {
                    assert(fl[j] == rest[j - hb.len()]);
                }
            }
        }
    }
}

proof fn lemma_hunks_lines_plain(hs: Seq<HunkModel>)
    requires
        forall|k: int| 0 <= k < hs.len() ==> hunk_ok(#[trigger] hs[k]),
    ensures
        forall|k: int| 0 <= k < hunks_lines(hs).len() ==> plain_line(#[trigger] hunks_lines(hs)[k]),
    decreases hs.len(),
{
    if hs.len() > 0 {
        let d = hs.drop_last();
        assert forall|k: int| 0 <= k < d.len() implies hunk_ok(#[trigger] d[k]) by {
            assert(d[k] == hs[k]);
        }
        lemma_hunks_lines_plain(d);
        let h = hs.last();
        assert(hunk_ok(hs[hs.len() - 1]));
        let a = hunks_lines(d);
        let hl = hunk_lines(h);
        let all = hunks_lines(hs);
        assert forall|k: int| 0 <= k < all.len() implies plain_line(#[trigger] all[k]) by {
            if k < a.len() {
                assert(all[k] == a[k]);
            } else {
                let j = k - a.len();
                assert(all[k] == hl[j]);
                if j > 0 {
                    assert(hl[j] == line_str(h.lines[j - 1]));
                }
            }
        }
    }
}

/// Formatting fully confirmed files (text files with every hunk
/// confirmed, added, modified, deleted, renamed or copied; metadata-only
/// changes; binary files noted by one line) and parsing the output gives the
/// same files back, each unconfirmed and with its addition and deletion
/// counts taken from its lines.
pub proof fn law_format_parse_round_trip(fs: Seq<FileModel>)
    requires
        forall|k: int| 0 <= k < fs.len() ==> round_trips(#[trigger] fs[k]),
    ensures
        spec_parse(spec_format(fs)) == Ok::<Seq<FileModel>, crate::parser::ErrorModel>(
            Seq::new(fs.len(), |k: int| reread_file(fs[k])),
        ),
{
    lemma_format_lines(fs);
    lemma_lines_plain(fs);
    lemma_read_lines(all_lines(fs));
    lemma_run_files(fs);
    if fs.len() == 0 {
        assert(Seq::new(fs.len(), |k: int| reread_file(fs[k])) =~= Seq::<FileModel>::empty());
    } else {
        assert(round_trips(fs[fs.len() - 1]));
        lemma_flush_after(fs.last(), Seq::new((fs.len() - 1) as nat, |k: int| reread_file(fs[k])));
        assert(Seq::new((fs.len() - 1) as nat, |k: int| reread_file(fs[k])).push(reread_file(fs.last()))
            =~= Seq::new(fs.len(), |k: int| reread_file(fs[k])));
    }
}

// ── Parsing canonical text and confirming everything writes it back ──

proof fn lemma_hunks_text_same(a: Seq<HunkModel>, b: Seq<HunkModel>)
    requires
        a.len() == b.len(),
        forall|k: int| 0 <= k < a.len() ==> (#[trigger] a[k]).header == b[k].header && a[k].lines == b[k].lines,
    ensures
        hunks_text(a) == hunks_text(b),
    decreases a.len(),
{
    if a.len() > 0 {
        lemma_hunks_text_same(a.drop_last(), b.drop_last());
        assert(a[a.len() - 1].header == b[b.len() - 1].header);
    }
}

proof fn lemma_format_same_blocks(a: Seq<FileModel>, b: Seq<FileModel>)
    requires
        a.len() == b.len(),
        forall|k: int| 0 <= k < a.len() ==> file_block(#[trigger] a[k]) == file_block(b[k]),
    ensures
        spec_format(a) == spec_format(b),
    decreases a.len(),
{
    if a.len() > 0 {
        assert forall|k: int| 0 <= k < a.drop_last().len() implies file_block(#[trigger] a.drop_last()[k]) == file_block(
            b.drop_last()[k],
        ) by {
            assert(a.drop_last()[k] == a[k]);
            assert(b.drop_last()[k] == b[k]);
        }
        lemma_format_same_blocks(a.drop_last(), b.drop_last());
        assert(file_block(a[a.len() - 1]) == file_block(b[b.len() - 1]));
    }
}

proof fn lemma_block_after_reread(f: FileModel)
    requires
        round_trips(f),
    ensures
        file_block(crate::model::set_file_confirmed(reread_file(f), true)) == file_block(f),
{
    let g = crate::model::set_file_confirmed(reread_file(f), true);
    if text_round_trips(f) {
        assert forall|k: int| 0 <= k < f.hunks.len() implies (#[trigger] f.hunks[k]).confirmed by {
            assert(hunk_ok(f.hunks[k]));
        }
        lemma_all_confirmed(f.hunks);
        assert forall|k: int| 0 <= k < g.hunks.len() implies (#[trigger] g.hunks[k]).confirmed by {}
        lemma_all_confirmed(g.hunks);
        lemma_hunks_text_same(g.hunks, f.hunks);
        assert(markers_text(g) == markers_text(f));
        assert(diff_git_text(g) == diff_git_text(f));
    } else {
        assert(g.confirmed);
        assert(diff_git_text(g) == diff_git_text(f));
    }
}

/// Text the formatter writes for round-tripping files parses without
/// error; confirming every hunk and every hunk-less file of what was read
/// and formatting it again gives the same text back.
pub proof fn law_parse_format_canonical(fs: Seq<FileModel>)
    requires
        forall|k: int| 0 <= k < fs.len() ==> round_trips(#[trigger] fs[k]),
    ensures
        spec_parse(spec_format(fs)) is Ok,
        spec_format(
            Seq::new(
                spec_parse(spec_format(fs))->Ok_0.len(),
                |k: int| crate::model::set_file_confirmed(spec_parse(spec_format(fs))->Ok_0[k], true),
            ),
        ) == spec_format(fs),
{
    law_format_parse_round_trip(fs);
    let p = spec_parse(spec_format(fs))->Ok_0;
    let c = Seq::new(p.len(), |k: int| crate::model::set_file_confirmed(p[k], true));
    assert forall|k: int| 0 <= k < c.len() implies file_block(#[trigger] c[k]) == file_block(fs[k]) by {
        assert(p[k] == reread_file(fs[k]));
        lemma_block_after_reread(fs[k]);
    }
    lemma_format_same_blocks(c, fs);
}

// ── Lines the hunk reader passes over ──

/// Inside a hunk, a `\ No newline at end of file` line is passed over: the
/// parse neither fails on it nor adds a line to the hunk; everything stays
/// as it was.
pub proof fn law_no_newline_marker_skipped(m: ParseModel, line: Seq<char>)
    requires
        m.state == ParseState::HunkContent,
        has_prefix(line, "\\ No newline at end of file"@),
    ensures
        parse_step(m, line) == m,
        parse_step(m, line).error == m.error,
        parse_step(m, line).pending.hunks == m.pending.hunks,
{
    reveal_strlit("\\ No newline at end of file");
    reveal_strlit("diff --git ");
    reveal_strlit("@@ ");
    reveal_strlit("+");
    reveal_strlit("-");
    reveal_strlit(" ");
    assert(line.take(27)[0] == line[0]);
    lemma_not_prefix(line, "diff --git "@, 0);
    lemma_not_prefix(line, "@@ "@, 0);
    lemma_not_prefix(line, "+"@, 0);
    lemma_not_prefix(line, "-"@, 0);
    lemma_not_prefix(line, " "@, 0);
}

/// Reading a diff in which `\ No newline at end of file` lines follow hunk
/// lines gives what reading it without them gives.
pub proof fn law_no_newline_markers_ignored(ls: Seq<Seq<char>>, k: int, marker: Seq<char>)
    requires
        0 <= k <= ls.len(),
        parse_lines(ls.take(k)).state == ParseState::HunkContent,
        has_prefix(marker, "\\ No newline at end of file"@),
    ensures
        parse_lines(ls.take(k).push(marker) + ls.skip(k)) == parse_lines(ls),
{
    law_no_newline_marker_skipped(parse_lines(ls.take(k)), marker);
    lemma_parse_lines_run(ls.take(k).push(marker) + ls.skip(k));
    lemma_parse_lines_run(ls);
    lemma_parse_lines_run(ls.take(k));
    lemma_parse_lines_run(ls.take(k).push(marker));
    lemma_run_concat(initial_model(), ls.take(k).push(marker), ls.skip(k));
    lemma_run_concat(initial_model(), ls.take(k), ls.skip(k));
    lemma_run_concat(initial_model(), ls.take(k), seq![marker]);
    lemma_run_one(parse_lines(ls.take(k)), marker);
    assert(ls.take(k) + seq![marker] =~= ls.take(k).push(marker));
    assert(ls.take(k) + ls.skip(k) =~= ls);
}

// ── Sizes in a binary patch ──

proof fn lemma_digits_trimmed(s: Seq<char>)
    requires
        s.len() > 0,
        all_digits(s),
    ensures
        spec_trim(s) == s,
{
    assert(is_digit(s[0]));
    assert(is_digit(s[s.len() - 1]));
    assert(!is_white_space(s[0]));
    assert(!is_white_space(s[s.len() - 1]));
    assert(trim_start_at(s, 0) == 0);
    assert(trim_end_at(s, s.len() as int) == s.len());
    assert(s.subrange(0, s.len() as int) =~= s);
}

/// A `literal N` or `delta N` line of a binary patch names the size `N`.
pub proof fn law_size_lines(digits: Seq<char>)
    requires
        digits.len() > 0,
        all_digits(digits),
        digits_value(digits) <= usize::MAX,
    ensures
        literal_size("literal "@ + digits) == Some(digits_value(digits) as usize),
        literal_size("delta "@ + digits) == Some(digits_value(digits) as usize),
{
    reveal_strlit("literal ");
    reveal_strlit("delta ");
    lemma_digits_trimmed(digits);
    assert(is_digit(digits[0]));
    let l = "literal "@ + digits;
    let d = "delta "@ + digits;
    lemma_prefix_of(l, "literal "@, digits);
    lemma_prefix_of(d, "delta "@, digits);
    assert(l.skip(8) =~= digits);
    assert(d.skip(6) =~= digits);
    lemma_not_prefix(d, "literal "@, 0);
}

/// The size line written `kind` then the digits: `literal N` or `delta N`.
pub open spec fn size_line(literal: bool, digits: Seq<char>) -> Seq<char> {
    (if literal {
        "literal "@
    } else {
        "delta "@
    }) + digits
}

/// In a GIT binary patch the first size line sets the new size and the
/// second the old size, whether each reads `literal N` or `delta N`.
pub proof fn law_patch_sizes(m: ParseModel, lit_a: bool, a: Seq<char>, lit_b: bool, b: Seq<char>)
    requires
        m.state == ParseState::BinaryContent,
        m.error is None,
        m.pending.literal_count == 0,
        a.len() > 0,
        all_digits(a),
        digits_value(a) <= usize::MAX,
        b.len() > 0,
        all_digits(b),
        digits_value(b) <= usize::MAX,
    ensures
        ({
            let m2 = parse_step(parse_step(m, size_line(lit_a, a)), size_line(lit_b, b));
            &&& m2.state == ParseState::BinaryContent
            &&& m2.error is None
            &&& m2.pending.binary_new_size == Some(digits_value(a) as usize)
            &&& m2.pending.binary_old_size == Some(digits_value(b) as usize)
        }),
{
    reveal_strlit("literal ");
    reveal_strlit("delta ");
    reveal_strlit("diff --git ");
    law_size_lines(a);
    law_size_lines(b);
    let la = size_line(lit_a, a);
    let lb = size_line(lit_b, b);
    if lit_a {
        lemma_not_prefix(la, "diff --git "@, 0);
    } else {
        lemma_not_prefix(la, "diff --git "@, 1);
    }
    if lit_b {
        lemma_not_prefix(lb, "diff --git "@, 0);
    } else {
        lemma_not_prefix(lb, "diff --git "@, 1);
    }
}

// ── Nothing confirmed, nothing written ──

pub open spec fn unconfirmed(f: FileModel) -> bool {
    !f.confirmed && forall|k: int| 0 <= k < f.hunks.len() ==> !(#[trigger] f.hunks[k]).confirmed
}

proof fn lemma_none_confirmed(hs: Seq<HunkModel>)
    requires
        forall|k: int| 0 <= k < hs.len() ==> !(#[trigger] hs[k]).confirmed,
    ensures
        confirmed_hunks(hs).len() == 0,
    decreases hs.len(),
{
    if hs.len() > 0 {
        assert forall|k: int| 0 <= k < hs.drop_last().len() implies !(#[trigger] hs.drop_last()[k]).confirmed by {
            assert(hs.drop_last()[k] == hs[k]);
        }
        lemma_none_confirmed(hs.drop_last());
        assert(!hs[hs.len() - 1].confirmed);
    }
}

/// With nothing confirmed the output is empty.
pub proof fn law_no_selection_empty(fs: Seq<FileModel>)
    requires
        forall|k: int| 0 <= k < fs.len() ==> unconfirmed(#[trigger] fs[k]),
    ensures
        spec_format(fs).len() == 0,
    decreases fs.len(),
{
    if fs.len() > 0 {
        assert forall|k: int| 0 <= k < fs.drop_last().len() implies unconfirmed(#[trigger] fs.drop_last()[k]) by {
            assert(fs.drop_last()[k] == fs[k]);
        }
        law_no_selection_empty(fs.drop_last());
        assert(unconfirmed(fs[fs.len() - 1]));
        lemma_none_confirmed(fs.last().hunks);
    }
}

/// A file takes part in the output: a whole-file unit by its own flag,
/// any other file by a confirmed hunk.
pub open spec fn file_selected(f: FileModel) -> bool {
    if whole_file_unit(f) {
        f.confirmed
    } else {
        exists|k: int| 0 <= k < f.hunks.len() && (#[trigger] f.hunks[k]).confirmed
    }
}

proof fn lemma_some_confirmed(hs: Seq<HunkModel>, k: int)
    requires
        0 <= k < hs.len(),
        hs[k].confirmed,
    ensures
        confirmed_hunks(hs).len() > 0,
    decreases hs.len(),
{
    if k < hs.len() - 1 {
        assert(hs.drop_last()[k] == hs[k]);
        lemma_some_confirmed(hs.drop_last(), k);
    }
}

proof fn lemma_file_block_empty(f: FileModel)
    ensures
        file_block(f).len() == 0 <==> !file_selected(f),
{
    reveal_strlit("diff --git a/");
    if file_selected(f) {
        if !whole_file_unit(f) {
            let k = choose|k: int| 0 <= k < f.hunks.len() && (#[trigger] f.hunks[k]).confirmed;
            lemma_some_confirmed(f.hunks, k);
        }
        assert(diff_git_text(f).len() > 0);
    } else if !whole_file_unit(f) {
        lemma_none_confirmed(f.hunks);
    }
}

/// The output is empty exactly when no file is selected: any selection
/// gives some output.
pub proof fn law_selection_output(fs: Seq<FileModel>)
    ensures
        spec_format(fs).len() == 0 <==> forall|k: int| 0 <= k < fs.len() ==> !file_selected(#[trigger] fs[k]),
    decreases fs.len(),
{
    if fs.len() > 0 {
        law_selection_output(fs.drop_last());
        lemma_file_block_empty(fs.last());
        if forall|k: int| 0 <= k < fs.len() ==> !file_selected(#[trigger] fs[k]) {
            assert forall|k: int| 0 <= k < fs.drop_last().len() implies !file_selected(#[trigger] fs.drop_last()[k]) by {
                assert(fs.drop_last()[k] == fs[k]);
            }
            assert(!file_selected(fs[fs.len() - 1]));
        } else {
            let k = choose|k: int| 0 <= k < fs.len() && file_selected(#[trigger] fs[k]);
            if k < fs.len() - 1 {
                assert(fs.drop_last()[k] == fs[k]);
            }
        }
    }
}

pub open spec fn hunks_unconfirmed(hs: Seq<HunkModel>) -> bool {
    forall|k: int| 0 <= k < hs.len() ==> !(#[trigger] hs[k]).confirmed
}

pub open spec fn model_unconfirmed(m: ParseModel) -> bool {
    &&& hunks_unconfirmed(m.pending.hunks)
    &&& forall|k: int| 0 <= k < m.files.len() ==> unconfirmed(#[trigger] m.files[k])
}

proof fn lemma_flush_unconfirmed(p: PendingModel, files: Seq<FileModel>)
    requires
        hunks_unconfirmed(p.hunks),
        forall|k: int| 0 <= k < files.len() ==> unconfirmed(#[trigger] files[k]),
    ensures
        hunks_unconfirmed(flush_pending(p, files).0.hunks),
        forall|k: int|
            0 <= k < flush_pending(p, files).1.len() ==> unconfirmed(#[trigger] flush_pending(p, files).1[k]),
{
    let r = flush_pending(p, files);
    assert forall|k: int| 0 <= k < r.1.len() implies unconfirmed(#[trigger] r.1[k]) by {
        if k < files.len() {
            assert(r.1[k] == files[k]);
        }
    }
}

proof fn lemma_step_unconfirmed(m: ParseModel, line: Seq<char>)
    requires
        model_unconfirmed(m),
    ensures
        model_unconfirmed(parse_step(m, line)),
{
    lemma_flush_unconfirmed(m.pending, m.files);
    let p = m.pending;
    assert(hunks_unconfirmed(push_hunk(p, line).hunks)) by {
        assert forall|k: int| 0 <= k < push_hunk(p, line).hunks.len() implies !(#[trigger] push_hunk(p, line).hunks[k]).confirmed by {
            if k < p.hunks.len() {
                assert(push_hunk(p, line).hunks[k] == p.hunks[k]);
            }
        }
    }
    assert forall|l: LineModel| hunks_unconfirmed(#[trigger] add_line(p, l).hunks) by {
        if p.hunks.len() > 0 {
            assert forall|k: int| 0 <= k < add_line(p, l).hunks.len() implies !(#[trigger] add_line(p, l).hunks[k]).confirmed by {
                assert(!p.hunks[k].confirmed);
            }
        }
    }
    assert(hunks_unconfirmed(start_pending(line).hunks));
}

proof fn lemma_parse_unconfirmed(ls: Seq<Seq<char>>)
    ensures
        model_unconfirmed(parse_lines(ls)),
    decreases ls.len(),
{
    if ls.len() > 0 {
        lemma_parse_unconfirmed(ls.drop_last());
        lemma_step_unconfirmed(parse_lines(ls.drop_last()), ls.last());
    }
}

/// Added lines among `ls`.
pub open spec fn count_additions(ls: Seq<LineModel>) -> nat
    decreases ls.len(),
{
    if ls.len() == 0 {
        0
    } else {
        count_additions(ls.drop_last()) + if ls.last() is Addition {
            1nat
        } else {
            0nat
        }
    }
}

/// Deleted lines among `ls`.
pub open spec fn count_deletions(ls: Seq<LineModel>) -> nat
    decreases ls.len(),
{
    if ls.len() == 0 {
        0
    } else {
        count_deletions(ls.drop_last()) + if ls.last() is Deletion {
            1nat
        } else {
            0nat
        }
    }
}

/// A hunk starts with `@@ ` and counts its added and deleted lines.
pub open spec fn hunk_sound(h: HunkModel) -> bool {
    &&& has_prefix(h.header, "@@ "@)
    &&& h.additions == count_additions(h.lines)
    &&& h.deletions == count_deletions(h.lines)
}

pub open spec fn hunks_sound(hs: Seq<HunkModel>) -> bool {
    forall|k: int| 0 <= k < hs.len() ==> hunk_sound(#[trigger] hs[k])
}

/// A parsed file has a path, sums its hunks' counts, and its hunks are
/// sound.
pub open spec fn file_sound(f: FileModel) -> bool {
    &&& f.rel_path.len() > 0
    &&& f.additions == sum_additions(f.hunks)
    &&& f.deletions == sum_deletions(f.hunks)
    &&& hunks_sound(f.hunks)
}

pub open spec fn model_sound(m: ParseModel) -> bool {
    &&& hunks_sound(m.pending.hunks)
    &&& forall|k: int| 0 <= k < m.files.len() ==> file_sound(#[trigger] m.files[k])
}

proof fn lemma_flush_sound(p: PendingModel, files: Seq<FileModel>)
    requires
        hunks_sound(p.hunks),
        forall|k: int| 0 <= k < files.len() ==> file_sound(#[trigger] files[k]),
    ensures
        hunks_sound(flush_pending(p, files).0.hunks),
        forall|k: int| 0 <= k < flush_pending(p, files).1.len() ==> file_sound(#[trigger] flush_pending(p, files).1[k]),
{
    let r = flush_pending(p, files);
    assert forall|k: int| 0 <= k < r.1.len() implies file_sound(#[trigger] r.1[k]) by {
        if k < files.len() {
            assert(r.1[k] == files[k]);
        }
    }
}

proof fn lemma_step_sound(m: ParseModel, line: Seq<char>)
    requires
        model_sound(m),
    ensures
        model_sound(parse_step(m, line)),
{
    lemma_flush_sound(m.pending, m.files);
    let p = m.pending;
    assert forall|l: Seq<char>| has_prefix(l, "@@ "@) implies hunks_sound(#[trigger] push_hunk(p, l).hunks) by {
        assert forall|k: int| 0 <= k < push_hunk(p, l).hunks.len() implies hunk_sound(#[trigger] push_hunk(p, l).hunks[k]) by {
            if k < p.hunks.len() {
                assert(push_hunk(p, l).hunks[k] == p.hunks[k]);
            } else {
                assert(Seq::<LineModel>::empty().len() == 0);
            }
        }
    }
    assert forall|l: LineModel| hunks_sound(#[trigger] add_line(p, l).hunks) by {
        if p.hunks.len() > 0 {
            let h = p.hunks.last();
            let h2 = add_line(p, l).hunks[p.hunks.len() - 1];
            assert(h2.lines.drop_last() =~= h.lines);
            assert(hunk_sound(h));
            assert forall|k: int| 0 <= k < add_line(p, l).hunks.len() implies hunk_sound(#[trigger] add_line(p, l).hunks[k]) by {
                if k < p.hunks.len() - 1 {
                    assert(add_line(p, l).hunks[k] == p.hunks[k]);
                }
            }
        }
    }
    assert(hunks_sound(start_pending(line).hunks));
    assert(hunks_sound(new_pending().hunks));
}

proof fn lemma_parse_sound(ls: Seq<Seq<char>>)
    ensures
        model_sound(parse_lines(ls)),
    decreases ls.len(),
{
    if ls.len() > 0 {
        lemma_parse_sound(ls.drop_last());
        lemma_step_sound(parse_lines(ls.drop_last()), ls.last());
    }
}

/// Every parsed file has a path, its additions and deletions are the sums
/// over its hunks, and each hunk starts with `@@ ` and counts exactly its
/// added and deleted lines.
pub proof fn law_parsed_files_sound(input: Seq<char>)
    requires
        crate::parser::parses(input),
    ensures
        forall|k: int| 0 <= k < spec_parse(input)->Ok_0.len() ==> file_sound(#[trigger] spec_parse(input)->Ok_0[k]),
{
    let m = parse_lines(spec_lines(spec_strip_ansi(input)));
    lemma_parse_sound(spec_lines(spec_strip_ansi(input)));
    lemma_flush_sound(m.pending, m.files);
}

/// Every `diff --git` line names its new path after a ` b/`.
pub open spec fn diff_lines_have_b(ls: Seq<Seq<char>>) -> bool {
    forall|k: int|
        0 <= k < ls.len() && has_prefix(#[trigger] ls[k], "diff --git "@) ==> spec_rfind(
            ls[k].skip("diff --git "@.len() as int),
            " b/"@,
        ) is Some
}

/// A parsed file has hunks, is binary, or has metadata; it is binary
/// exactly when it has binary content.
pub open spec fn file_shaped(f: FileModel) -> bool {
    &&& (f.hunks.len() > 0 || f.binary || f.header_lines.len() > 0)
    &&& (f.binary <==> f.binary_content.len() > 0)
}

pub open spec fn model_shaped(m: ParseModel) -> bool {
    &&& (m.pending.is_binary <==> m.pending.binary_content.len() > 0)
    &&& (m.state == ParseState::BinaryContent ==> m.pending.is_binary)
    &&& forall|k: int| 0 <= k < m.files.len() ==> file_shaped(#[trigger] m.files[k])
}

proof fn lemma_flush_shaped(p: PendingModel, files: Seq<FileModel>)
    requires
        p.is_binary <==> p.binary_content.len() > 0,
        forall|k: int| 0 <= k < files.len() ==> file_shaped(#[trigger] files[k]),
    ensures
        forall|k: int| 0 <= k < flush_pending(p, files).1.len() ==> file_shaped(#[trigger] flush_pending(p, files).1[k]),
{
    let r = flush_pending(p, files);
    assert forall|k: int| 0 <= k < r.1.len() implies file_shaped(#[trigger] r.1[k]) by {
        if k < files.len() {
            assert(r.1[k] == files[k]);
        }
    }
}

proof fn lemma_step_shaped(m: ParseModel, line: Seq<char>)
    requires
        model_shaped(m),
        has_prefix(line, "diff --git "@) ==> spec_rfind(line.skip("diff --git "@.len() as int), " b/"@) is Some,
    ensures
        model_shaped(parse_step(m, line)),
{
    lemma_flush_shaped(m.pending, m.files);
    assert(new_pending().binary_content.len() == 0);
}

proof fn lemma_parse_shaped(ls: Seq<Seq<char>>)
    requires
        diff_lines_have_b(ls),
    ensures
        model_shaped(parse_lines(ls)),
    decreases ls.len(),
{
    if ls.len() > 0 {
        assert(diff_lines_have_b(ls.drop_last())) by {
            assert forall|k: int| 0 <= k < ls.drop_last().len() && has_prefix(#[trigger] ls.drop_last()[k], "diff --git "@) implies spec_rfind(
                ls.drop_last()[k].skip("diff --git "@.len() as int),
                " b/"@,
            ) is Some by {
                assert(ls.drop_last()[k] == ls[k]);
            }
        }
        lemma_parse_shaped(ls.drop_last());
        assert(has_prefix(ls[ls.len() - 1], "diff --git "@) ==> spec_rfind(
            ls[ls.len() - 1].skip("diff --git "@.len() as int),
            " b/"@,
        ) is Some);
        lemma_step_shaped(parse_lines(ls.drop_last()), ls.last());
    }
}

/// When every `diff --git` line names its new path after ` b/`, each parsed
/// file has hunks, is binary, or has metadata, and it is binary exactly
/// when it has binary content.
pub proof fn law_parsed_files_shaped(input: Seq<char>)
    requires
        crate::parser::parses(input),
        diff_lines_have_b(spec_lines(spec_strip_ansi(input))),
    ensures
        forall|k: int| 0 <= k < spec_parse(input)->Ok_0.len() ==> file_shaped(#[trigger] spec_parse(input)->Ok_0[k]),
{
    let m = parse_lines(spec_lines(spec_strip_ansi(input)));
    lemma_parse_shaped(spec_lines(spec_strip_ansi(input)));
    lemma_flush_shaped(m.pending, m.files);
}

/// Right after parsing, nothing is confirmed, so the output is empty.
pub proof fn law_parsed_nothing_confirmed(input: Seq<char>)
    requires
        crate::parser::parses(input),
    ensures
        forall|k: int|
            0 <= k < spec_parse(input)->Ok_0.len() ==> unconfirmed(#[trigger] spec_parse(input)->Ok_0[k]),
        spec_format(spec_parse(input)->Ok_0).len() == 0,
{
    let m = parse_lines(spec_lines(spec_strip_ansi(input)));
    lemma_parse_unconfirmed(spec_lines(spec_strip_ansi(input)));
    lemma_flush_unconfirmed(m.pending, m.files);
    law_no_selection_empty(spec_parse(input)->Ok_0);
}

} // verus!
