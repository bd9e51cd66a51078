//! Parse unified (git) diff format from a string into a list of file entries,
//! and format the confirmed entries back into a unified diff.

use vstd::prelude::*;
use crate::text::{
    chars_of, has_prefix, parse_usize, push_char, push_range, push_str, rfind_from, spec_lines, spec_parse_usize,
    spec_rfind, spec_trim, split_lines, starts_with, string_from_range, trim_range,
};

verus! {

// ── Data ──

#[derive(Debug, Clone, Copy, PartialEq, Eq, Structural)]
pub enum FileStatus {
    Added,
    Modified,
    Deleted,
    Renamed,
    Copied,
}

#[derive(Debug, Clone)]
pub enum HunkLine {
    Context(String),
    Addition(String),
    Deletion(String),
}

/// What a diff line holds, as character sequences.
pub enum LineModel {
    Context(Seq<char>),
    Addition(Seq<char>),
    Deletion(Seq<char>),
}

impl View for HunkLine {
    type V = LineModel;

    open spec fn view(&self) -> LineModel {
        match self {
            HunkLine::Context(s) => LineModel::Context(s@),
            HunkLine::Addition(s) => LineModel::Addition(s@),
            HunkLine::Deletion(s) => LineModel::Deletion(s@),
        }
    }
}

#[derive(Debug, Clone)]
pub struct Hunk {
    pub header: String,
    pub lines: Vec<HunkLine>,
    pub confirmed: bool,
    pub additions: usize,
    pub deletions: usize,
}

#[verifier::ext_equal]
pub struct HunkModel {
    pub header: Seq<char>,
    pub lines: Seq<LineModel>,
    pub confirmed: bool,
    pub additions: nat,
    pub deletions: nat,
}

pub open spec fn lines_view(ls: Seq<HunkLine>) -> Seq<LineModel> {
    ls.map_values(|l: HunkLine| l@)
}

impl View for Hunk {
    type V = HunkModel;

    open spec fn view(&self) -> HunkModel {
        HunkModel {
            header: self.header@,
            lines: lines_view(self.lines@),
            confirmed: self.confirmed,
            additions: self.additions as nat,
            deletions: self.deletions as nat,
        }
    }
}

#[derive(Debug, Clone)]
pub struct FileEntry {
    pub rel_path: String,
    pub old_path: Option<String>,
    pub status: FileStatus,
    pub hunks: Vec<Hunk>,
    pub additions: usize,
    pub deletions: usize,
    pub binary: bool,
    pub binary_new_size: Option<usize>,
    pub binary_old_size: Option<usize>,
    /// File-level confirmation for binary/mode-change files (no hunks).
    pub confirmed: bool,
    /// Metadata lines between `diff --git` and content (index, mode, rename, etc.)
    pub header_lines: Vec<String>,
    /// Raw binary patch data for output (includes `GIT binary patch`, `literal`, base85, etc.)
    pub binary_content: String,
}

#[verifier::ext_equal]
pub struct FileModel {
    pub rel_path: Seq<char>,
    pub old_path: Option<Seq<char>>,
    pub status: FileStatus,
    pub hunks: Seq<HunkModel>,
    pub additions: nat,
    pub deletions: nat,
    pub binary: bool,
    pub binary_new_size: Option<usize>,
    pub binary_old_size: Option<usize>,
    pub confirmed: bool,
    pub header_lines: Seq<Seq<char>>,
    pub binary_content: Seq<char>,
}

pub open spec fn opt_string_view(s: Option<String>) -> Option<Seq<char>> {
    match s {
        Some(t) => Some(t@),
        None => None,
    }
}

pub open spec fn hunks_view(hs: Seq<Hunk>) -> Seq<HunkModel> {
    hs.map_values(|h: Hunk| h@)
}

pub open spec fn strings_view(ss: Seq<String>) -> Seq<Seq<char>> {
    ss.map_values(|s: String| s@)
}

impl View for FileEntry {
    type V = FileModel;

    open spec fn view(&self) -> FileModel {
        FileModel {
            rel_path: self.rel_path@,
            old_path: opt_string_view(self.old_path),
            status: self.status,
            hunks: hunks_view(self.hunks@),
            additions: self.additions as nat,
            deletions: self.deletions as nat,
            binary: self.binary,
            binary_new_size: self.binary_new_size,
            binary_old_size: self.binary_old_size,
            confirmed: self.confirmed,
            header_lines: strings_view(self.header_lines@),
            binary_content: self.binary_content@,
        }
    }
}

pub open spec fn files_view(fs: Seq<FileEntry>) -> Seq<FileModel> {
    fs.map_values(|f: FileEntry| f@)
}

// ── Confirmation units ──

/// Number of confirmed hunks.
pub open spec fn count_confirmed(hs: Seq<HunkModel>) -> nat
    decreases hs.len(),
{
    if hs.len() == 0 {
        0
    } else {
        count_confirmed(hs.drop_last()) + if hs.last().confirmed {
            1nat
        } else {
            0nat
        }
    }
}

impl FileModel {
    /// A file without hunks is one unit confirmed as a whole; otherwise
    /// every hunk is a unit.
    pub open spec fn all_confirmed(self) -> bool {
        if self.hunks.len() == 0 {
            self.confirmed
        } else {
            forall|k: int| 0 <= k < self.hunks.len() ==> #[trigger] self.hunks[k].confirmed
        }
    }

    pub open spec fn confirmed_count(self) -> nat {
        if self.hunks.len() == 0 {
            if self.confirmed {
                1
            } else {
                0
            }
        } else {
            count_confirmed(self.hunks)
        }
    }

    pub open spec fn total_units(self) -> nat {
        if self.hunks.len() == 0 {
            1
        } else {
            self.hunks.len()
        }
    }
}

pub proof fn lemma_count_confirmed(hs: Seq<HunkModel>)
    ensures
        count_confirmed(hs) <= hs.len(),
        count_confirmed(hs) == hs.len() <==> (forall|k: int|
            0 <= k < hs.len() ==> #[trigger] hs[k].confirmed),
    decreases hs.len(),
{
    if hs.len() > 0 {
        lemma_count_confirmed(hs.drop_last());
        if forall|k: int| 0 <= k < hs.len() ==> #[trigger] hs[k].confirmed {
            assert forall|k: int| 0 <= k < hs.drop_last().len() implies #[trigger] hs.drop_last()[k].confirmed by {
                assert(hs[k].confirmed);
            }
        }
        if forall|k: int| 0 <= k < hs.drop_last().len() ==> #[trigger] hs.drop_last()[k].confirmed {
            if hs.last().confirmed {
                assert forall|k: int| 0 <= k < hs.len() implies #[trigger] hs[k].confirmed by {
                    if k < hs.len() - 1 {
                        assert(hs.drop_last()[k].confirmed);
                    }
                }
            }
        }
    }
}

/// A file's confirmed units never exceed its units, and all of them are
/// confirmed exactly when the file counts as confirmed.
pub proof fn law_confirmed_units(f: FileModel)
    ensures
        f.confirmed_count() <= f.total_units(),
        f.all_confirmed() <==> f.confirmed_count() == f.total_units(),
        f.total_units() >= 1,
{
    lemma_count_confirmed(f.hunks);
}

impl FileEntry {
    pub fn all_confirmed(&self) -> (r: bool)
        ensures
            r == self@.all_confirmed(),
    {
        if self.hunks.len() == 0 {
            return self.confirmed;
        }
        let mut i: usize = 0;
        while i < self.hunks.len()
            invariant
                i <= self.hunks@.len(),
                forall|k: int| 0 <= k < i ==> #[trigger] self@.hunks[k].confirmed,
            decreases self.hunks.len() - i,
        {
            if !self.hunks[i].confirmed {
                assert(!self@.hunks[i as int].confirmed);
                return false;
            }
            i += 1;
        }
        true
    }

    pub fn confirmed_count(&self) -> (r: usize)
        ensures
            r == self@.confirmed_count(),
    {
        if self.hunks.len() == 0 {
            return if self.confirmed {
                1
            } else {
                0
            };
        }
        let mut n: usize = 0;
        let mut i: usize = 0;
        while i < self.hunks.len()
            invariant
                i <= self.hunks@.len(),
                n <= i,
                n == count_confirmed(self@.hunks.take(i as int)),
            decreases self.hunks.len() - i,
        {
            assert(self@.hunks.take(i + 1).drop_last() == self@.hunks.take(i as int));
            if self.hunks[i].confirmed {
                n += 1;
            }
            i += 1;
        }
        assert(self@.hunks.take(self.hunks.len() as int) == self@.hunks);
        n
    }

    pub fn total_units(&self) -> (r: usize)
        ensures
            r == self@.total_units(),
    {
        if self.hunks.len() == 0 {
            1
        } else {
            self.hunks.len()
        }
    }
}

// ── ANSI escapes ──

pub enum AnsiState {
    Text,
    Escape,
    Csi,
}

/// Final byte of a control sequence: an ASCII character in 0x40..=0x7E.
pub open spec fn is_csi_final(c: char) -> bool {
    0x40 <= (c as u32) <= 0x7e
}

/// Reading `s` left to right: the scanner state and the characters kept.
/// ESC starts an escape; `ESC [` opens a control sequence that runs up to
/// and including its final byte; any other character after ESC is dropped
/// with it.
pub open spec fn ansi_run(s: Seq<char>) -> (AnsiState, Seq<char>)
    decreases s.len(),
{
    if s.len() == 0 {
        (AnsiState::Text, Seq::empty())
    } else {
        let (st, out) = ansi_run(s.drop_last());
        let c = s.last();
        match st {
            AnsiState::Text => if c == '\x1b' {
                (AnsiState::Escape, out)
            } else {
                (AnsiState::Text, out.push(c))
            },
            AnsiState::Escape => if c == '[' {
                (AnsiState::Csi, out)
            } else {
                (AnsiState::Text, out)
            },
            AnsiState::Csi => if is_csi_final(c) {
                (AnsiState::Text, out)
            } else {
                (AnsiState::Csi, out)
            },
        }
    }
}

pub open spec fn spec_strip_ansi(s: Seq<char>) -> Seq<char> {
    ansi_run(s).1
}

/// Strip ANSI escape sequences from input.
pub fn strip_ansi(input: &str) -> (out: String)
    ensures
        out@ == spec_strip_ansi(input@),
{
    let cs = chars_of(input);
    let mut out = String::new();
    let mut st = AnsiState::Text;
    let mut i: usize = 0;
    while i < cs.len()
        invariant
            cs@ == input@,
            i <= cs@.len(),
            (st, out@) == ansi_run(cs@.take(i as int)),
        decreases cs.len() - i,
    {
        let c = cs[i];
        assert(cs@.take(i + 1).drop_last() == cs@.take(i as int));
        match st {
            AnsiState::Text => {
                if c == '\x1b' {
                    st = AnsiState::Escape;
                } else {
                    push_char(&mut out, c);
                }
            },
            AnsiState::Escape => {
                if c == '[' {
                    st = AnsiState::Csi;
                } else {
                    st = AnsiState::Text;
                }
            },
            AnsiState::Csi => {
                if 0x40 <= (c as u32) && (c as u32) <= 0x7e {
                    st = AnsiState::Text;
                }
            },
        }
        i += 1;
    }
    assert(cs@.take(cs@.len() as int) == cs@);
    out
}

/// Text without ESC comes through unchanged.
pub proof fn law_strip_ansi_plain(s: Seq<char>)
    requires
        forall|k: int| 0 <= k < s.len() ==> s[k] != '\x1b',
    ensures
        spec_strip_ansi(s) == s,
        ansi_run(s).0 == AnsiState::Text,
    decreases s.len(),
{
    if s.len() > 0 {
        law_strip_ansi_plain(s.drop_last());
        assert(s.drop_last().push(s.last()) == s);
    }
}

/// Stripping removes every escape character.
pub proof fn law_strip_ansi_no_escape(s: Seq<char>)
    ensures
        forall|k: int| 0 <= k < spec_strip_ansi(s).len() ==> #[trigger] spec_strip_ansi(s)[k] != '\x1b',
    decreases s.len(),
{
    if s.len() > 0 {
        law_strip_ansi_no_escape(s.drop_last());
        let prev = spec_strip_ansi(s.drop_last());
        let out = spec_strip_ansi(s);
        assert(prev == ansi_run(s.drop_last()).1);
        assert(out == prev || (out == prev.push(s.last()) && s.last() != '\x1b'));
        assert forall|k: int| 0 <= k < out.len() implies #[trigger] out[k] != '\x1b' by {
            if out == prev {
                assert(out[k] == prev[k]);
                assert(prev[k] != '\x1b');
            } else if k < prev.len() {
                assert(out[k] == prev.push(s.last())[k]);
                assert(prev[k] != '\x1b');
            } else {
                assert(out[k] == prev.push(s.last())[k]);
            }
        }
    }
}

/// Stripping twice is stripping once.
pub proof fn law_strip_ansi_idempotent(s: Seq<char>)
    ensures
        spec_strip_ansi(spec_strip_ansi(s)) == spec_strip_ansi(s),
{
    law_strip_ansi_no_escape(s);
    law_strip_ansi_plain(spec_strip_ansi(s));
}

// ── Parsing ──

#[derive(Clone, Copy, PartialEq, Eq, Structural)]
pub enum ParseState {
    Init,
    FileHeader,
    HunkContent,
    BinaryContent,
}

/// Why a diff could not be parsed: a line that fits no rule of the state
/// the parser was in.
#[derive(Debug)]
pub enum ParseError {
    UnexpectedHeaderLine(String),
    UnexpectedHunkLine(String),
}

pub enum ErrorModel {
    Header(Seq<char>),
    Hunk(Seq<char>),
}

impl View for ParseError {
    type V = ErrorModel;

    open spec fn view(&self) -> ErrorModel {
        match self {
            ParseError::UnexpectedHeaderLine(s) => ErrorModel::Header(s@),
            ParseError::UnexpectedHunkLine(s) => ErrorModel::Hunk(s@),
        }
    }
}

/// The file being assembled.
#[verifier::ext_equal]
pub struct PendingModel {
    pub path: Seq<char>,
    pub old_path: Option<Seq<char>>,
    pub status: Option<FileStatus>,
    pub hunks: Seq<HunkModel>,
    pub is_delete_only: bool,
    pub is_binary: bool,
    pub binary_new_size: Option<usize>,
    pub binary_old_size: Option<usize>,
    pub binary_content: Seq<char>,
    pub header_lines: Seq<Seq<char>>,
    pub literal_count: nat,
}

#[verifier::ext_equal]
pub struct ParseModel {
    pub state: ParseState,
    pub pending: PendingModel,
    pub files: Seq<FileModel>,
    pub error: Option<ErrorModel>,
}

pub open spec fn new_pending() -> PendingModel {
    PendingModel {
        path: Seq::empty(),
        old_path: None,
        status: None,
        hunks: Seq::empty(),
        is_delete_only: false,
        is_binary: false,
        binary_new_size: None,
        binary_old_size: None,
        binary_content: Seq::empty(),
        header_lines: Seq::empty(),
        literal_count: 0,
    }
}

pub open spec fn start_pending(path: Seq<char>) -> PendingModel {
    PendingModel { path: path, status: Some(FileStatus::Modified), ..new_pending() }
}

pub open spec fn sum_additions(hs: Seq<HunkModel>) -> nat
    decreases hs.len(),
{
    if hs.len() == 0 {
        0
    } else {
        sum_additions(hs.drop_last()) + hs.last().additions
    }
}

pub open spec fn sum_deletions(hs: Seq<HunkModel>) -> nat
    decreases hs.len(),
{
    if hs.len() == 0 {
        0
    } else {
        sum_deletions(hs.drop_last()) + hs.last().deletions
    }
}

/// Total number of diff lines in `hs`.
pub open spec fn total_lines(hs: Seq<HunkModel>) -> nat
    decreases hs.len(),
{
    if hs.len() == 0 {
        0
    } else {
        total_lines(hs.drop_last()) + hs.last().lines.len()
    }
}

/// Emit the pending file if it has a path, a status and some content;
/// hunks, header lines and binary content move into the emitted entry.
pub open spec fn flush_pending(p: PendingModel, files: Seq<FileModel>) -> (PendingModel, Seq<FileModel>) {
    if p.path.len() == 0 || p.status is None {
        (p, files)
    } else if p.hunks.len() == 0 && !p.is_binary && p.header_lines.len() == 0 {
        (p, files)
    } else {
        let status = if p.is_delete_only {
            FileStatus::Deleted
        } else {
            p.status->0
        };
        let f = FileModel {
            rel_path: p.path,
            old_path: p.old_path,
            status: status,
            hunks: p.hunks,
            additions: sum_additions(p.hunks),
            deletions: sum_deletions(p.hunks),
            binary: p.is_binary,
            binary_new_size: p.binary_new_size,
            binary_old_size: p.binary_old_size,
            confirmed: false,
            header_lines: p.header_lines,
            binary_content: p.binary_content,
        };
        (
            PendingModel {
                hunks: Seq::empty(),
                header_lines: Seq::empty(),
                binary_content: Seq::empty(),
                ..p
            },
            files.push(f),
        )
    }
}

/// A `diff --git` line: emit the pending file (except in the initial state)
/// and start a new one at the path after the last ` b/`.
pub open spec fn diff_line_step(m: ParseModel, line: Seq<char>, flush: bool) -> ParseModel {
    let rest = line.skip("diff --git "@.len() as int);
    let (p1, fs) = if flush {
        flush_pending(m.pending, m.files)
    } else {
        (m.pending, m.files)
    };
    let p2 = match spec_rfind(rest, " b/"@) {
        Some(b) => start_pending(rest.skip(b + " b/"@.len())),
        None => p1,
    };
    ParseModel { state: ParseState::FileHeader, pending: p2, files: fs, error: m.error }
}

pub open spec fn new_hunk(header: Seq<char>) -> HunkModel {
    HunkModel { header: header, lines: Seq::empty(), confirmed: false, additions: 0, deletions: 0 }
}

pub open spec fn push_hunk(p: PendingModel, header: Seq<char>) -> PendingModel {
    PendingModel { hunks: p.hunks.push(new_hunk(header)), ..p }
}

/// Header lines kept as metadata.
pub open spec fn is_meta_line(line: Seq<char>) -> bool {
    ||| has_prefix(line, "index "@)
    ||| has_prefix(line, "old mode "@)
    ||| has_prefix(line, "new mode "@)
    ||| has_prefix(line, "new file mode "@)
    ||| has_prefix(line, "deleted file mode "@)
    ||| has_prefix(line, "similarity index "@)
    ||| has_prefix(line, "dissimilarity index "@)
    ||| has_prefix(line, "rename to "@)
    ||| has_prefix(line, "copy to "@)
}

pub open spec fn with_pending(m: ParseModel, p: PendingModel) -> ParseModel {
    ParseModel { pending: p, ..m }
}

pub open spec fn header_step(m: ParseModel, line: Seq<char>) -> ParseModel {
    let p = m.pending;
    if has_prefix(line, "diff --git "@) {
        diff_line_step(m, line, true)
    } else if has_prefix(line, "--- /dev/null"@) {
        with_pending(m, PendingModel { status: Some(FileStatus::Added), ..p })
    } else if has_prefix(line, "+++ /dev/null"@) {
        with_pending(m, PendingModel { is_delete_only: true, ..p })
    } else if has_prefix(line, "--- "@) || has_prefix(line, "+++ "@) {
        m
    } else if has_prefix(line, "@@ "@) {
        ParseModel { state: ParseState::HunkContent, pending: push_hunk(p, line), ..m }
    } else if has_prefix(line, "rename from "@) {
        with_pending(
            m,
            PendingModel {
                old_path: Some(line.skip("rename from "@.len() as int)),
                status: Some(FileStatus::Renamed),
                header_lines: p.header_lines.push(line),
                ..p
            },
        )
    } else if has_prefix(line, "copy from "@) {
        with_pending(
            m,
            PendingModel {
                old_path: Some(line.skip("copy from "@.len() as int)),
                status: Some(FileStatus::Copied),
                header_lines: p.header_lines.push(line),
                ..p
            },
        )
    } else if has_prefix(line, "Binary files "@) {
        with_pending(
            m,
            PendingModel { is_binary: true, binary_content: p.binary_content + line.push('\n'), ..p },
        )
    } else if has_prefix(line, "GIT binary patch"@) {
        ParseModel {
            state: ParseState::BinaryContent,
            pending: PendingModel {
                is_binary: true,
                binary_content: p.binary_content + line.push('\n'),
                ..p
            },
            ..m
        }
    } else if is_meta_line(line) {
        with_pending(m, PendingModel { header_lines: p.header_lines.push(line), ..p })
    } else {
        ParseModel { error: Some(ErrorModel::Header(line)), ..m }
    }
}

/// Append a diff line to the last hunk, counting additions and deletions.
pub open spec fn add_line(p: PendingModel, l: LineModel) -> PendingModel {
    if p.hunks.len() == 0 {
        p
    } else {
        let h = p.hunks.last();
        let h2 = HunkModel {
            lines: h.lines.push(l),
            additions: h.additions + if l is Addition {
                1nat
            } else {
                0nat
            },
            deletions: h.deletions + if l is Deletion {
                1nat
            } else {
                0nat
            },
            ..h
        };
        PendingModel { hunks: p.hunks.update(p.hunks.len() - 1, h2), ..p }
    }
}

pub open spec fn hunk_step(m: ParseModel, line: Seq<char>) -> ParseModel {
    let p = m.pending;
    if has_prefix(line, "diff --git "@) {
        diff_line_step(m, line, true)
    } else if has_prefix(line, "@@ "@) {
        with_pending(m, push_hunk(p, line))
    } else if has_prefix(line, "+"@) {
        with_pending(m, add_line(p, LineModel::Addition(line.skip(1))))
    } else if has_prefix(line, "-"@) {
        with_pending(m, add_line(p, LineModel::Deletion(line.skip(1))))
    } else if has_prefix(line, " "@) {
        with_pending(m, add_line(p, LineModel::Context(line.skip(1))))
    } else if has_prefix(line, "\\ No newline at end of file"@) || has_prefix(
        line,
        "Binary files "@,
    ) {
        m
    } else {
        ParseModel { error: Some(ErrorModel::Hunk(line)), ..m }
    }
}

/// The size named on a `literal N` / `delta N` line of a binary patch.
pub open spec fn literal_size(line: Seq<char>) -> Option<usize> {
    if has_prefix(line, "literal "@) {
        spec_parse_usize(spec_trim(line.skip("literal "@.len() as int)))
    } else if has_prefix(line, "delta "@) {
        spec_parse_usize(spec_trim(line.skip("delta "@.len() as int)))
    } else {
        None
    }
}

pub open spec fn binary_step(m: ParseModel, line: Seq<char>) -> ParseModel {
    let p = m.pending;
    if has_prefix(line, "diff --git "@) {
        diff_line_step(m, line, true)
    } else {
        let p1 = PendingModel { binary_content: p.binary_content + line.push('\n'), ..p };
        let p2 = match literal_size(line) {
            Some(size) => PendingModel {
                binary_new_size: if p.literal_count == 0 {
                    Some(size)
                } else {
                    p.binary_new_size
                },
                binary_old_size: if p.literal_count == 1 {
                    Some(size)
                } else {
                    p.binary_old_size
                },
                literal_count: p.literal_count + 1,
                ..p1
            },
            None => p1,
        };
        with_pending(m, p2)
    }
}

/// One line of input. After an error the model stays as it was.
pub open spec fn parse_step(m: ParseModel, line: Seq<char>) -> ParseModel {
    if m.error is Some {
        m
    } else {
        match m.state {
            ParseState::Init => if has_prefix(line, "diff --git "@) {
                diff_line_step(m, line, false)
            } else {
                m
            },
            ParseState::FileHeader => header_step(m, line),
            ParseState::HunkContent => hunk_step(m, line),
            ParseState::BinaryContent => binary_step(m, line),
        }
    }
}

pub open spec fn initial_model() -> ParseModel {
    ParseModel {
        state: ParseState::Init,
        pending: new_pending(),
        files: Seq::empty(),
        error: None,
    }
}

/// The model after the lines `ls`, read in order.
pub open spec fn parse_lines(ls: Seq<Seq<char>>) -> ParseModel
    decreases ls.len(),
{
    if ls.len() == 0 {
        initial_model()
    } else {
        parse_step(parse_lines(ls.drop_last()), ls.last())
    }
}

/// What parsing `input` gives: the files (the last one emitted at the end of
/// input), or the first line that fits no rule.
pub open spec fn spec_parse(input: Seq<char>) -> Result<Seq<FileModel>, ErrorModel> {
    let m = parse_lines(spec_lines(spec_strip_ansi(input)));
    match m.error {
        Some(e) => Err(e),
        None => Ok(flush_pending(m.pending, m.files).1),
    }
}

/// Counts stay below `bound`, and each hunk counts no more additions and
/// deletions than it has lines.
pub open spec fn pending_sound(p: PendingModel, bound: nat) -> bool {
    &&& p.literal_count <= bound
    &&& total_lines(p.hunks) <= bound
    &&& forall|k: int|
        0 <= k < p.hunks.len() ==> #[trigger] p.hunks[k].additions + p.hunks[k].deletions
            <= p.hunks[k].lines.len()
}

pub proof fn lemma_sums_bounded(hs: Seq<HunkModel>)
    requires
        forall|k: int|
            0 <= k < hs.len() ==> #[trigger] hs[k].additions + hs[k].deletions <= hs[k].lines.len(),
    ensures
        sum_additions(hs) + sum_deletions(hs) <= total_lines(hs),
    decreases hs.len(),
{
    if hs.len() > 0 {
        assert forall|k: int|
            0 <= k < hs.drop_last().len() implies #[trigger] hs.drop_last()[k].additions
            + hs.drop_last()[k].deletions <= hs.drop_last()[k].lines.len() by {
            assert(hs.drop_last()[k] == hs[k]);
        }
        lemma_sums_bounded(hs.drop_last());
        assert(hs.last() == hs[hs.len() - 1]);
    }
}

pub proof fn lemma_total_lines_prefix(hs: Seq<HunkModel>, k: int)
    requires
        0 <= k <= hs.len(),
    ensures
        total_lines(hs.take(k)) <= total_lines(hs),
    decreases hs.len() - k,
{
    if k < hs.len() {
        lemma_total_lines_prefix(hs, k + 1);
        assert(hs.take(k + 1).drop_last() == hs.take(k));
    } else {
        assert(hs.take(k) == hs);
    }
}

pub proof fn lemma_total_lines_update(hs: Seq<HunkModel>, h: HunkModel)
    requires
        hs.len() > 0,
    ensures
        total_lines(hs.update(hs.len() - 1, h)) == total_lines(hs) - hs.last().lines.len()
            + h.lines.len(),
{
    assert(hs.update(hs.len() - 1, h).drop_last() == hs.drop_last());
}

/// Number of characters in `s`.
fn lit_len(s: &str) -> (n: usize)
    ensures
        n == s@.len(),
{
    chars_of(s).len()
}

struct PendingFile {
    path: String,
    old_path: Option<String>,
    status: Option<FileStatus>,
    hunks: Vec<Hunk>,
    is_delete_only: bool,
    is_binary: bool,
    binary_new_size: Option<usize>,
    binary_old_size: Option<usize>,
    binary_content: String,
    header_lines: Vec<String>,
    literal_count: usize,
}

impl View for PendingFile {
    type V = PendingModel;

    closed spec fn view(&self) -> PendingModel {
        PendingModel {
            path: self.path@,
            old_path: opt_string_view(self.old_path),
            status: self.status,
            hunks: hunks_view(self.hunks@),
            is_delete_only: self.is_delete_only,
            is_binary: self.is_binary,
            binary_new_size: self.binary_new_size,
            binary_old_size: self.binary_old_size,
            binary_content: self.binary_content@,
            header_lines: strings_view(self.header_lines@),
            literal_count: self.literal_count as nat,
        }
    }
}

impl PendingFile {
    fn new() -> (r: Self)
        ensures
            r@ == new_pending(),
    {
        let r = Self {
            path: String::new(),
            old_path: None,
            status: None,
            hunks: Vec::new(),
            is_delete_only: false,
            is_binary: false,
            binary_new_size: None,
            binary_old_size: None,
            binary_content: String::new(),
            header_lines: Vec::new(),
            literal_count: 0,
        };
        assert(r@ =~= new_pending());
        r
    }

    fn start(&mut self, path: String)
        ensures
            final(self)@ == start_pending(path@),
    {
        self.path = path;
        self.old_path = None;
        self.status = Some(FileStatus::Modified);
        self.hunks.clear();
        self.is_delete_only = false;
        self.is_binary = false;
        self.binary_new_size = None;
        self.binary_old_size = None;
        self.binary_content = String::new();
        self.header_lines.clear();
        self.literal_count = 0;
        assert(self@ =~= start_pending(path@));
    }

    fn flush(&mut self, files: &mut Vec<FileEntry>, Ghost(bound): Ghost<nat>)
        requires
            pending_sound(old(self)@, bound),
            bound <= usize::MAX,
        ensures
            final(self)@ == flush_pending(old(self)@, files_view(old(files)@)).0,
            files_view(final(files)@) == flush_pending(old(self)@, files_view(old(files)@)).1,
    {
        let ghost p = self@;
        if self.path.as_str().is_empty() {
            assert(p.path.len() == 0);
            return;
        }
        let status0 = match self.status {
            Some(s) => s,
            None => {
                return;
            },
        };
        let mut status = status0;
        if self.is_delete_only {
            status = FileStatus::Deleted;
        }
        if self.hunks.len() == 0 && !self.is_binary && self.header_lines.len() == 0 {
            return;
        }
        proof {
            lemma_sums_bounded(p.hunks);
        }
        let mut additions: usize = 0;
        let mut deletions: usize = 0;
        let mut i: usize = 0;
        while i < self.hunks.len()
            invariant
                self@ == p,
                i <= self.hunks@.len(),
                additions == sum_additions(p.hunks.take(i as int)),
                deletions == sum_deletions(p.hunks.take(i as int)),
                sum_additions(p.hunks) + sum_deletions(p.hunks) <= total_lines(p.hunks),
                total_lines(p.hunks) <= bound,
                bound <= usize::MAX,
                forall|k: int|
                    0 <= k < p.hunks.len() ==> #[trigger] p.hunks[k].additions
                        + p.hunks[k].deletions <= p.hunks[k].lines.len(),
            decreases self.hunks.len() - i,
        {
            proof {
                let t = p.hunks.take(i + 1);
                assert(t.drop_last() == p.hunks.take(i as int));
                assert(forall|k: int|
                    0 <= k < t.len() ==> #[trigger] t[k].additions + t[k].deletions
                        <= t[k].lines.len());
                lemma_sums_bounded(t);
                lemma_total_lines_prefix(p.hunks, i + 1);
            }
            additions = additions + self.hunks[i].additions;
            deletions = deletions + self.hunks[i].deletions;
            i += 1;
        }
        assert(p.hunks.take(self.hunks.len() as int) == p.hunks);
        let mut hunks: Vec<Hunk> = Vec::new();
        std::mem::swap(&mut hunks, &mut self.hunks);
        let mut header_lines: Vec<String> = Vec::new();
        std::mem::swap(&mut header_lines, &mut self.header_lines);
        let mut binary_content = String::new();
        std::mem::swap(&mut binary_content, &mut self.binary_content);
        let old_path = match &self.old_path {
            Some(s) => Some(s.clone()),
            None => None,
        };
        let entry = FileEntry {
            rel_path: self.path.clone(),
            old_path: old_path,
            status: status,
            hunks: hunks,
            additions: additions,
            deletions: deletions,
            binary: self.is_binary,
            binary_new_size: self.binary_new_size,
            binary_old_size: self.binary_old_size,
            confirmed: false,
            header_lines: header_lines,
            binary_content: binary_content,
        };
        let ghost before = files@;
        files.push(entry);
        proof {
            assert(files_view(files@) =~= files_view(before).push(entry@));
            assert(self@ =~= flush_pending(p, files_view(before)).0);
        }
    }

    /// Append a diff line to the last hunk.
    fn add_line(&mut self, l: HunkLine, Ghost(bound): Ghost<nat>)
        requires
            pending_sound(old(self)@, bound),
            bound < usize::MAX,
        ensures
            final(self)@ == add_line(old(self)@, l@),
            pending_sound(final(self)@, bound + 1),
    {
        if self.hunks.len() == 0 {
            return;
        }
        let ghost p = self@;
        let ghost hs = self.hunks@;
        let mut h = self.hunks.pop().unwrap();
        proof {
            assert(hs.drop_last() == self.hunks@);
            assert(p.hunks.last() == h@);
            assert(p.hunks[p.hunks.len() - 1].additions + p.hunks[p.hunks.len() - 1].deletions
                <= p.hunks[p.hunks.len() - 1].lines.len());
            assert(p.hunks.drop_last() == hunks_view(self.hunks@));
        }
        let ghost lv = l@;
        match &l {
            HunkLine::Addition(_) => {
                h.additions = h.additions + 1;
            },
            HunkLine::Deletion(_) => {
                h.deletions = h.deletions + 1;
            },
            HunkLine::Context(_) => {},
        }
        let ghost before = h@;
        h.lines.push(l);
        proof {
            assert(lines_view(h.lines@) =~= before.lines.push(lv));
        }
        self.hunks.push(h);
        proof {
            let h2 = HunkModel {
                lines: p.hunks.last().lines.push(lv),
                additions: p.hunks.last().additions + if lv is Addition {
                    1nat
                } else {
                    0nat
                },
                deletions: p.hunks.last().deletions + if lv is Deletion {
                    1nat
                } else {
                    0nat
                },
                ..p.hunks.last()
            };
            assert(h@ =~= h2);
            assert(hunks_view(self.hunks@) =~= p.hunks.update(p.hunks.len() - 1, h2));
            assert(self@ =~= add_line(p, lv));
            lemma_total_lines_update(p.hunks, h2);
            let q = self@;
            assert forall|k: int|
                0 <= k < q.hunks.len() implies #[trigger] q.hunks[k].additions
                + q.hunks[k].deletions <= q.hunks[k].lines.len() by {
                if k < q.hunks.len() - 1 {
                    assert(q.hunks[k] == p.hunks[k]);
                }
            }
        }
    }
}

struct DiffParser {
    state: ParseState,
    pending: PendingFile,
    files: Vec<FileEntry>,
    error: Option<ParseError>,
}

pub open spec fn opt_error_view(e: Option<ParseError>) -> Option<ErrorModel> {
    match e {
        Some(x) => Some(x@),
        None => None,
    }
}

impl View for DiffParser {
    type V = ParseModel;

    closed spec fn view(&self) -> ParseModel {
        ParseModel {
            state: self.state,
            pending: self.pending@,
            files: files_view(self.files@),
            error: opt_error_view(self.error),
        }
    }
}

impl DiffParser {
    fn diff_line(&mut self, line: &[char], flush: bool, Ghost(bound): Ghost<nat>)
        requires
            has_prefix(line@, "diff --git "@),
            pending_sound(old(self).pending@, bound),
            bound <= usize::MAX,
        ensures
            final(self)@ == diff_line_step(old(self)@, line@, flush),
            pending_sound(final(self).pending@, bound),
    {
        let ghost m = self@;
        let ghost fl = if flush {
            flush_pending(m.pending, m.files)
        } else {
            (m.pending, m.files)
        };
        if flush {
            self.pending.flush(&mut self.files, Ghost(bound));
        }
        assert(self.pending@ == fl.0 && files_view(self.files@) == fl.1);
        let pre = lit_len("diff --git ");
        let needle = chars_of(" b/");
        let ghost rest = line@.skip("diff --git "@.len() as int);
        let found = rfind_from(line, pre, needle.as_slice());
        assert(line@.skip(pre as int) == rest);
        match found {
            Some(b) => {
                let ll = line.len();
                assert(b + needle@.len() <= ll);
                let path = string_from_range(line, b + needle.len(), line.len());
                proof {
                    assert(spec_rfind(rest, " b/"@) == Some((b - pre) as int));
                    assert(rest.skip((b - pre) + " b/"@.len()) =~= line@.subrange(
                        b + needle@.len(),
                        line@.len() as int,
                    ));
                }
                self.pending.start(path);
            },
            None => {
                assert(spec_rfind(rest, " b/"@) is None);
            },
        }
        self.state = ParseState::FileHeader;
        assert(self@ =~= diff_line_step(m, line@, flush));
    }

    fn header_line(&mut self, line: &[char], Ghost(bound): Ghost<nat>)
        requires
            old(self)@.error is None,
            old(self)@.state == ParseState::FileHeader,
            pending_sound(old(self).pending@, bound),
            bound < usize::MAX,
        ensures
            final(self)@ == header_step(old(self)@, line@),
            pending_sound(final(self).pending@, bound + 1),
    {
        let ghost m = self@;
        if starts_with(line, "diff --git ") {
            self.diff_line(line, true, Ghost(bound));
        } else if starts_with(line, "--- /dev/null") {
            self.pending.status = Some(FileStatus::Added);
            assert(self@ =~= header_step(m, line@));
        } else if starts_with(line, "+++ /dev/null") {
            self.pending.is_delete_only = true;
            assert(self@ =~= header_step(m, line@));
        } else if starts_with(line, "--- ") || starts_with(line, "+++ ") {
        } else if starts_with(line, "@@ ") {
            let h = Hunk {
                header: string_from_range(line, 0, line.len()),
                lines: Vec::new(),
                confirmed: false,
                additions: 0,
                deletions: 0,
            };
            assert(line@.subrange(0, line@.len() as int) == line@);
            assert(h@ =~= new_hunk(line@));
            let ghost hs = self.pending.hunks@;
            self.pending.hunks.push(h);
            self.state = ParseState::HunkContent;
            assert(hunks_view(self.pending.hunks@) =~= hunks_view(hs).push(new_hunk(line@)));
            assert(self@ =~= header_step(m, line@));
            assert(hunks_view(self.pending.hunks@).drop_last() =~= hunks_view(hs));
        } else if starts_with(line, "rename from ") {
            let n = lit_len("rename from ");
            self.pending.old_path = Some(string_from_range(line, n, line.len()));
            self.pending.status = Some(FileStatus::Renamed);
            let ghost hl = self.pending.header_lines@;
            self.pending.header_lines.push(string_from_range(line, 0, line.len()));
            assert(line@.subrange(0, line@.len() as int) == line@);
            assert(line@.subrange(n as int, line@.len() as int) == line@.skip(n as int));
            assert(strings_view(self.pending.header_lines@) =~= strings_view(hl).push(line@));
            assert(self@ =~= header_step(m, line@));
        } else if starts_with(line, "copy from ") {
            let n = lit_len("copy from ");
            self.pending.old_path = Some(string_from_range(line, n, line.len()));
            self.pending.status = Some(FileStatus::Copied);
            let ghost hl = self.pending.header_lines@;
            self.pending.header_lines.push(string_from_range(line, 0, line.len()));
            assert(line@.subrange(0, line@.len() as int) == line@);
            assert(line@.subrange(n as int, line@.len() as int) == line@.skip(n as int));
            assert(strings_view(self.pending.header_lines@) =~= strings_view(hl).push(line@));
            assert(self@ =~= header_step(m, line@));
        } else if starts_with(line, "Binary files ") {
            self.pending.is_binary = true;
            push_range(&mut self.pending.binary_content, line, 0, line.len());
            push_char(&mut self.pending.binary_content, '\n');
            assert(line@.subrange(0, line@.len() as int) == line@);
            assert(self@ =~= header_step(m, line@));
        } else if starts_with(line, "GIT binary patch") {
            self.pending.is_binary = true;
            push_range(&mut self.pending.binary_content, line, 0, line.len());
            push_char(&mut self.pending.binary_content, '\n');
            self.state = ParseState::BinaryContent;
            assert(line@.subrange(0, line@.len() as int) == line@);
            assert(self@ =~= header_step(m, line@));
        } else if starts_with(line, "index ") || starts_with(line, "old mode ") || starts_with(
            line,
            "new mode ",
        ) || starts_with(line, "new file mode ") || starts_with(line, "deleted file mode ")
            || starts_with(line, "similarity index ") || starts_with(
            line,
            "dissimilarity index ",
        ) || starts_with(line, "rename to ") || starts_with(line, "copy to ") {
            let ghost hl = self.pending.header_lines@;
            self.pending.header_lines.push(string_from_range(line, 0, line.len()));
            assert(line@.subrange(0, line@.len() as int) == line@);
            assert(strings_view(self.pending.header_lines@) =~= strings_view(hl).push(line@));
            assert(self@ =~= header_step(m, line@));
        } else {
            self.error = Some(ParseError::UnexpectedHeaderLine(string_from_range(line, 0, line.len())));
            assert(line@.subrange(0, line@.len() as int) == line@);
            assert(self@ =~= header_step(m, line@));
        }
    }

    fn hunk_line(&mut self, line: &[char], Ghost(bound): Ghost<nat>)
        requires
            old(self)@.error is None,
            old(self)@.state == ParseState::HunkContent,
            pending_sound(old(self).pending@, bound),
            bound < usize::MAX,
        ensures
            final(self)@ == hunk_step(old(self)@, line@),
            pending_sound(final(self).pending@, bound + 1),
    {
        let ghost m = self@;
        if starts_with(line, "diff --git ") {
            self.diff_line(line, true, Ghost(bound));
        } else if starts_with(line, "@@ ") {
            let h = Hunk {
                header: string_from_range(line, 0, line.len()),
                lines: Vec::new(),
                confirmed: false,
                additions: 0,
                deletions: 0,
            };
            assert(line@.subrange(0, line@.len() as int) == line@);
            assert(h@ =~= new_hunk(line@));
            let ghost hs = self.pending.hunks@;
            self.pending.hunks.push(h);
            assert(hunks_view(self.pending.hunks@) =~= hunks_view(hs).push(new_hunk(line@)));
            assert(self@ =~= hunk_step(m, line@));
            assert(hunks_view(self.pending.hunks@).drop_last() =~= hunks_view(hs));
        } else if starts_with(line, "+") {
            proof {
                reveal_strlit("+");
            }
            let s = string_from_range(line, 1, line.len());
            assert(line@.subrange(1, line@.len() as int) == line@.skip(1));
            self.pending.add_line(HunkLine::Addition(s), Ghost(bound));
            assert(self@ =~= hunk_step(m, line@));
        } else if starts_with(line, "-") {
            proof {
                reveal_strlit("-");
            }
            let s = string_from_range(line, 1, line.len());
            assert(line@.subrange(1, line@.len() as int) == line@.skip(1));
            self.pending.add_line(HunkLine::Deletion(s), Ghost(bound));
            assert(self@ =~= hunk_step(m, line@));
        } else if starts_with(line, " ") {
            proof {
                reveal_strlit(" ");
            }
            let s = string_from_range(line, 1, line.len());
            assert(line@.subrange(1, line@.len() as int) == line@.skip(1));
            self.pending.add_line(HunkLine::Context(s), Ghost(bound));
            assert(self@ =~= hunk_step(m, line@));
        } else if starts_with(line, "\\ No newline at end of file") || starts_with(
            line,
            "Binary files ",
        ) {
        } else {
            self.error = Some(ParseError::UnexpectedHunkLine(string_from_range(line, 0, line.len())));
            assert(line@.subrange(0, line@.len() as int) == line@);
            assert(self@ =~= hunk_step(m, line@));
        }
    }

    fn binary_line(&mut self, line: &[char], Ghost(bound): Ghost<nat>)
        requires
            old(self)@.error is None,
            old(self)@.state == ParseState::BinaryContent,
            pending_sound(old(self).pending@, bound),
            bound < usize::MAX,
        ensures
            final(self)@ == binary_step(old(self)@, line@),
            pending_sound(final(self).pending@, bound + 1),
    {
        let ghost m = self@;
        if starts_with(line, "diff --git ") {
            self.diff_line(line, true, Ghost(bound));
            return;
        }
        push_range(&mut self.pending.binary_content, line, 0, line.len());
        push_char(&mut self.pending.binary_content, '\n');
        assert(line@.subrange(0, line@.len() as int) == line@);
        let ghost p1 = self.pending@;
        let mut size: Option<usize> = None;
        if starts_with(line, "literal ") {
            let n = lit_len("literal ");
            let (a, b) = trim_range(line, n, line.len());
            assert(line@.subrange(n as int, line@.len() as int) == line@.skip(n as int));
            size = parse_usize(line, a, b);
        } else if starts_with(line, "delta ") {
            let n = lit_len("delta ");
            let (a, b) = trim_range(line, n, line.len());
            assert(line@.subrange(n as int, line@.len() as int) == line@.skip(n as int));
            size = parse_usize(line, a, b);
        }
        assert(size == literal_size(line@));
        match size {
            Some(sz) => {
                if self.pending.literal_count == 0 {
                    self.pending.binary_new_size = Some(sz);
                } else if self.pending.literal_count == 1 {
                    self.pending.binary_old_size = Some(sz);
                }
                self.pending.literal_count = self.pending.literal_count + 1;
            },
            None => {},
        }
        assert(self@ =~= binary_step(m, line@));
    }

    fn feed(&mut self, line: &[char], Ghost(bound): Ghost<nat>)
        requires
            pending_sound(old(self).pending@, bound),
            bound < usize::MAX,
        ensures
            final(self)@ == parse_step(old(self)@, line@),
            pending_sound(final(self).pending@, bound + 1),
    {
        if self.error.is_some() {
            return;
        }
        match self.state {
            ParseState::Init => {
                if starts_with(line, "diff --git ") {
                    self.diff_line(line, false, Ghost(bound));
                }
            },
            ParseState::FileHeader => {
                self.header_line(line, Ghost(bound));
            },
            ParseState::HunkContent => {
                self.hunk_line(line, Ghost(bound));
            },
            ParseState::BinaryContent => {
                self.binary_line(line, Ghost(bound));
            },
        }
    }
}

/// Parse a diff, reporting the first line that fits no rule.
pub fn parse_diff_checked(input: &str) -> (r: Result<Vec<FileEntry>, ParseError>)
    ensures
        match (r, spec_parse(input@)) {
            (Ok(fs), Ok(ms)) => files_view(fs@) == ms,
            (Err(e), Err(em)) => e@ == em,
            _ => false,
        },
{
    let clean = strip_ansi(input);
    let cs = chars_of(clean.as_str());
    let lines = split_lines(cs.as_slice());
    let ghost ls = spec_lines(spec_strip_ansi(input@));
    let mut parser = DiffParser {
        state: ParseState::Init,
        pending: PendingFile::new(),
        files: Vec::new(),
        error: None,
    };
    assert(parser@ =~= initial_model());
    let mut i: usize = 0;
    while i < lines.len()
        invariant
            i <= lines@.len(),
            lines@.len() == ls.len(),
            forall|k: int| 0 <= k < lines@.len() ==> #[trigger] lines@[k]@ == ls[k],
            parser@ == parse_lines(ls.take(i as int)),
            pending_sound(parser.pending@, i as nat),
        decreases lines.len() - i,
    {
        assert(ls.take(i + 1).drop_last() == ls.take(i as int));
        parser.feed(lines[i].as_slice(), Ghost(i as nat));
        i += 1;
    }
    assert(ls.take(lines.len() as int) == ls);
    match parser.error {
        Some(e) => Err(e),
        None => {
            parser.pending.flush(&mut parser.files, Ghost(i as nat));
            Ok(parser.files)
        },
    }
}

/// Whether `input` parses: no line falls outside the rules of the state the
/// parser is in when it reads that line.
pub open spec fn parses(input: Seq<char>) -> bool {
    spec_parse(input) is Ok
}

pub fn parse_diff(input: &str) -> (r: Vec<FileEntry>)
    requires
        parses(input@),
    ensures
        files_view(r@) == spec_parse(input@)->Ok_0,
{
    match parse_diff_checked(input) {
        Ok(fs) => fs,
        Err(_) => {
            assert(false);
            Vec::new()
        },
    }
}

// ── Formatting ──

/// Path on the `a/` side: the old path of a rename or copy, else the path.
pub open spec fn a_path(f: FileModel) -> Seq<char> {
    match f.old_path {
        Some(p) => p,
        None => f.rel_path,
    }
}

/// Binary and mode-change-only files are confirmed as a whole.
pub open spec fn whole_file_unit(f: FileModel) -> bool {
    f.binary || (f.hunks.len() == 0 && f.header_lines.len() > 0)
}

pub open spec fn diff_git_text(f: FileModel) -> Seq<char> {
    "diff --git a/"@ + a_path(f) + " b/"@ + f.rel_path + seq!['\n']
}

/// Each line followed by a newline.
pub open spec fn lines_text(ls: Seq<Seq<char>>) -> Seq<char>
    decreases ls.len(),
{
    if ls.len() == 0 {
        Seq::empty()
    } else {
        lines_text(ls.drop_last()) + ls.last() + seq!['\n']
    }
}

/// The `---` / `+++` lines for a file's status.
pub open spec fn markers_text(f: FileModel) -> Seq<char> {
    match f.status {
        FileStatus::Added => "--- /dev/null\n"@ + "+++ b/"@ + f.rel_path + seq!['\n'],
        FileStatus::Deleted => "--- a/"@ + a_path(f) + seq!['\n'] + "+++ /dev/null\n"@,
        _ => "--- a/"@ + a_path(f) + seq!['\n'] + "+++ b/"@ + f.rel_path + seq!['\n'],
    }
}

pub open spec fn line_text(l: LineModel) -> Seq<char> {
    match l {
        LineModel::Context(s) => seq![' '] + s + seq!['\n'],
        LineModel::Addition(s) => seq!['+'] + s + seq!['\n'],
        LineModel::Deletion(s) => seq!['-'] + s + seq!['\n'],
    }
}

pub open spec fn body_text(ls: Seq<LineModel>) -> Seq<char>
    decreases ls.len(),
{
    if ls.len() == 0 {
        Seq::empty()
    } else {
        body_text(ls.drop_last()) + line_text(ls.last())
    }
}

pub open spec fn hunk_text(h: HunkModel) -> Seq<char> {
    h.header + seq!['\n'] + body_text(h.lines)
}

/// The confirmed hunks, in order.
pub open spec fn confirmed_hunks(hs: Seq<HunkModel>) -> Seq<HunkModel>
    decreases hs.len(),
{
    if hs.len() == 0 {
        Seq::empty()
    } else if hs.last().confirmed {
        confirmed_hunks(hs.drop_last()).push(hs.last())
    } else {
        confirmed_hunks(hs.drop_last())
    }
}

pub open spec fn hunks_text(hs: Seq<HunkModel>) -> Seq<char>
    decreases hs.len(),
{
    if hs.len() == 0 {
        Seq::empty()
    } else {
        hunks_text(hs.drop_last()) + hunk_text(hs.last())
    }
}

/// What one file contributes to the output.
pub open spec fn file_block(f: FileModel) -> Seq<char> {
    if whole_file_unit(f) {
        if f.confirmed {
            diff_git_text(f) + lines_text(f.header_lines) + f.binary_content
        } else {
            Seq::empty()
        }
    } else if confirmed_hunks(f.hunks).len() == 0 {
        Seq::empty()
    } else {
        diff_git_text(f) + lines_text(f.header_lines) + markers_text(f) + hunks_text(
            confirmed_hunks(f.hunks),
        )
    }
}

pub open spec fn spec_format(fs: Seq<FileModel>) -> Seq<char>
    decreases fs.len(),
{
    if fs.len() == 0 {
        Seq::empty()
    } else {
        spec_format(fs.drop_last()) + file_block(fs.last())
    }
}

fn push_lines(out: &mut String, ls: &Vec<String>)
    ensures
        final(out)@ == old(out)@ + lines_text(strings_view(ls@)),
{
    let mut i: usize = 0;
    while i < ls.len()
        invariant
            i <= ls@.len(),
            out@ == old(out)@ + lines_text(strings_view(ls@).take(i as int)),
        decreases ls.len() - i,
    {
        let ghost before = out@;
        push_str(out, ls[i].as_str());
        push_char(out, '\n');
        proof {
            let t = strings_view(ls@).take(i + 1);
            assert(t.drop_last() =~= strings_view(ls@).take(i as int));
            assert(out@ =~= old(out)@ + lines_text(t));
        }
        i += 1;
    }
    assert(strings_view(ls@).take(ls.len() as int) =~= strings_view(ls@));
}

fn push_hunk_text(out: &mut String, h: &Hunk)
    ensures
        final(out)@ == old(out)@ + hunk_text(h@),
{
    push_str(out, h.header.as_str());
    push_char(out, '\n');
    let ghost head = out@;
    let mut i: usize = 0;
    while i < h.lines.len()
        invariant
            i <= h.lines@.len(),
            out@ == head + body_text(lines_view(h.lines@).take(i as int)),
        decreases h.lines.len() - i,
    {
        match &h.lines[i] {
            HunkLine::Context(s) => {
                push_char(out, ' ');
                push_str(out, s.as_str());
                push_char(out, '\n');
            },
            HunkLine::Addition(s) => {
                push_char(out, '+');
                push_str(out, s.as_str());
                push_char(out, '\n');
            },
            HunkLine::Deletion(s) => {
                push_char(out, '-');
                push_str(out, s.as_str());
                push_char(out, '\n');
            },
        }
        proof {
            let t = lines_view(h.lines@).take(i + 1);
            assert(t.drop_last() =~= lines_view(h.lines@).take(i as int));
            assert(out@ =~= head + body_text(t));
        }
        i += 1;
    }
    assert(lines_view(h.lines@).take(h.lines.len() as int) =~= lines_view(h.lines@));
    assert(out@ =~= old(out)@ + hunk_text(h@));
}

fn push_diff_git(out: &mut String, f: &FileEntry)
    ensures
        final(out)@ == old(out)@ + diff_git_text(f@),
{
    push_str(out, "diff --git a/");
    match &f.old_path {
        Some(p) => push_str(out, p.as_str()),
        None => push_str(out, f.rel_path.as_str()),
    }
    push_str(out, " b/");
    push_str(out, f.rel_path.as_str());
    push_char(out, '\n');
    assert(out@ =~= old(out)@ + diff_git_text(f@));
}

fn push_markers(out: &mut String, f: &FileEntry)
    ensures
        final(out)@ == old(out)@ + markers_text(f@),
{
    match f.status {
        FileStatus::Added => {
            push_str(out, "--- /dev/null\n");
            push_str(out, "+++ b/");
            push_str(out, f.rel_path.as_str());
            push_char(out, '\n');
        },
        FileStatus::Deleted => {
            push_str(out, "--- a/");
            match &f.old_path {
                Some(p) => push_str(out, p.as_str()),
                None => push_str(out, f.rel_path.as_str()),
            }
            push_char(out, '\n');
            push_str(out, "+++ /dev/null\n");
        },
        _ => {
            push_str(out, "--- a/");
            match &f.old_path {
                Some(p) => push_str(out, p.as_str()),
                None => push_str(out, f.rel_path.as_str()),
            }
            push_char(out, '\n');
            push_str(out, "+++ b/");
            push_str(out, f.rel_path.as_str());
            push_char(out, '\n');
        },
    }
    assert(out@ =~= old(out)@ + markers_text(f@));
}

proof fn lemma_confirmed_hunks_step(hs: Seq<HunkModel>, i: int)
    requires
        0 <= i < hs.len(),
    ensures
        confirmed_hunks(hs.take(i + 1)) == if hs[i].confirmed {
            confirmed_hunks(hs.take(i)).push(hs[i])
        } else {
            confirmed_hunks(hs.take(i))
        },
{
    assert(hs.take(i + 1).drop_last() == hs.take(i));
}

fn push_file_block(out: &mut String, f: &FileEntry)
    ensures
        final(out)@ == old(out)@ + file_block(f@),
{
    let ghost fm = f@;
    if f.binary || (f.hunks.len() == 0 && f.header_lines.len() > 0) {
        if !f.confirmed {
            assert(file_block(fm) =~= Seq::<char>::empty());
            return;
        }
        push_diff_git(out, f);
        push_lines(out, &f.header_lines);
        push_str(out, f.binary_content.as_str());
        assert(out@ =~= old(out)@ + file_block(fm));
        return;
    }
    // Confirmed hunks, by index.
    let mut chosen: Vec<usize> = Vec::new();
    let mut i: usize = 0;
    while i < f.hunks.len()
        invariant
            i <= f.hunks@.len(),
            fm == f@,
            chosen@.len() == confirmed_hunks(fm.hunks.take(i as int)).len(),
            forall|k: int|
                0 <= k < chosen@.len() ==> #[trigger] chosen@[k] < f.hunks@.len() && fm.hunks[chosen@[k] as int]
                    == confirmed_hunks(fm.hunks.take(i as int))[k],
        decreases f.hunks.len() - i,
    {
        proof {
            lemma_confirmed_hunks_step(fm.hunks, i as int);
        }
        if f.hunks[i].confirmed {
            chosen.push(i);
        }
        i += 1;
    }
    assert(fm.hunks.take(f.hunks.len() as int) == fm.hunks);
    let ghost ch = confirmed_hunks(fm.hunks);
    if chosen.len() == 0 {
        assert(file_block(fm) =~= Seq::<char>::empty());
        return;
    }
    push_diff_git(out, f);
    push_lines(out, &f.header_lines);
    push_markers(out, f);
    let ghost head = out@;
    let mut j: usize = 0;
    while j < chosen.len()
        invariant
            j <= chosen@.len(),
            fm == f@,
            chosen@.len() == ch.len(),
            forall|k: int|
                0 <= k < chosen@.len() ==> #[trigger] chosen@[k] < f.hunks@.len() && fm.hunks[chosen@[k] as int]
                    == ch[k],
            out@ == head + hunks_text(ch.take(j as int)),
        decreases chosen.len() - j,
    {
        let ghost before = out@;
        let k = chosen[j];
        push_hunk_text(out, &f.hunks[k]);
        proof {
            assert(f.hunks@[k as int]@ == ch[j as int]);
            assert(ch.take(j + 1).drop_last() =~= ch.take(j as int));
            assert(out@ =~= head + hunks_text(ch.take(j + 1)));
        }
        j += 1;
    }
    assert(ch.take(chosen.len() as int) == ch);
    assert(out@ =~= old(out)@ + file_block(fm));
}

/// Format confirmed entries back into a unified diff.
pub fn format_confirmed_diff(files: &[FileEntry]) -> (r: String)
    ensures
        r@ == spec_format(files_view(files@)),
{
    let mut output = String::new();
    let mut i: usize = 0;
    while i < files.len()
        invariant
            i <= files@.len(),
            output@ == spec_format(files_view(files@).take(i as int)),
        decreases files.len() - i,
    {
        push_file_block(&mut output, &files[i]);
        proof {
            let t = files_view(files@).take(i + 1);
            assert(t.drop_last() =~= files_view(files@).take(i as int));
        }
        i += 1;
    }
    assert(files_view(files@).take(files.len() as int) =~= files_view(files@));
    output
}

} // verus!
