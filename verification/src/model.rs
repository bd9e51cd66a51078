//! Review state: which files, hunks and folders are shown, folded or
//! confirmed, where the cursor is, and how navigation moves it.

use std::collections::HashSet;
use vstd::prelude::*;
use crate::fuzzy::matcher::{choice_fits, spec_run, ArinaeMatcher, CaseMatching};
use crate::parser::{FileEntry, FileModel, FileStatus, HunkModel};
use crate::text::{chars_of, has_prefix, pop_char, push_char, push_str, starts_with};

verus! {

broadcast use vstd::std_specs::hash::group_hash_axioms;

/// State for the single-file view mode.
pub struct FileViewState {
    pub file_idx: usize,
    pub line_cursor: usize,
    pub scroll_offset: usize,
    pub viewport_height: u16,
}

/// An item in the file view's flat line list.
#[derive(Debug, Clone, Copy, PartialEq, Eq, Structural)]
pub enum FileViewLine {
    HunkHeader(usize),
    HunkLine(usize, usize),
}

#[derive(Debug, Clone)]
pub enum VisibleKind {
    Folder(String),
    File(usize),
    HunkHeader(usize, usize),
    HunkLine(usize, usize, usize),
}

pub enum KindModel {
    Folder(Seq<char>),
    File(int),
    HunkHeader(int, int),
    HunkLine(int, int, int),
}

impl View for VisibleKind {
    type V = KindModel;

    open spec fn view(&self) -> KindModel {
        match self {
            VisibleKind::Folder(p) => KindModel::Folder(p@),
            VisibleKind::File(i) => KindModel::File(*i as int),
            VisibleKind::HunkHeader(i, h) => KindModel::HunkHeader(*i as int, *h as int),
            VisibleKind::HunkLine(i, h, l) => KindModel::HunkLine(*i as int, *h as int, *l as int),
        }
    }
}

#[derive(Debug, Clone)]
pub struct VisibleItem {
    pub kind: VisibleKind,
    pub depth: usize,
}

pub struct ItemModel {
    pub kind: KindModel,
    pub depth: int,
}

impl View for VisibleItem {
    type V = ItemModel;

    open spec fn view(&self) -> ItemModel {
        ItemModel { kind: self.kind@, depth: self.depth as int }
    }
}

pub open spec fn items_view(v: Seq<VisibleItem>) -> Seq<ItemModel> {
    v.map_values(|x: VisibleItem| x@)
}

pub struct App {
    pub files: Vec<FileEntry>,
    /// Per-file merged folder paths.
    merged_folder_stacks: Vec<Vec<String>>,
    /// Folded folder paths, each at most once.
    pub folded: Vec<String>,
    /// Folded file indices (hunks hidden).
    pub folded_files: HashSet<usize>,
    pub cursor: usize,
    pub scroll_offset: usize,
    /// Set by the renderer each frame.
    pub viewport_height: u16,
    /// Word-wrap long diff lines.
    pub wrap: bool,
    /// Row of each visible item in the last rendered frame, and that frame's
    /// total height. Both are published by the renderer, which is the only
    /// place that knows how wrapping expanded lines into rows.
    pub item_ys: Vec<usize>,
    pub rendered_height: usize,
    /// Visible-item index the next frame should place at the top of the
    /// viewport, so a re-layout (wrap toggle) keeps the same code in view.
    pub scroll_anchor: Option<usize>,
    pub should_exit: bool,
    pub show_help: bool,
    pub show_file_list: bool,
    pub file_list_query: String,
    pub file_list_cursor: usize,
    pub file_view: Option<FileViewState>,
    matcher: ArinaeMatcher,
}

/// The review state as values.
pub struct AppModel {
    pub files: Seq<FileModel>,
    pub stacks: Seq<Seq<Seq<char>>>,
    pub folded: Seq<Seq<char>>,
    pub folded_files: Set<usize>,
    pub cursor: usize,
    pub scroll_offset: usize,
    pub viewport_height: u16,
    pub wrap: bool,
    pub item_ys: Seq<usize>,
    pub rendered_height: usize,
    pub scroll_anchor: Option<usize>,
    pub should_exit: bool,
    pub show_help: bool,
    pub show_file_list: bool,
    pub file_list_query: Seq<char>,
    pub file_list_cursor: usize,
    pub file_view: Option<FileViewState>,
    pub case: CaseMatching,
}

impl View for App {
    type V = AppModel;

    closed spec fn view(&self) -> AppModel {
        AppModel {
            files: crate::parser::files_view(self.files@),
            stacks: self.merged_folder_stacks@.map_values(|s: Vec<String>| crate::parser::strings_view(s@)),
            folded: crate::parser::strings_view(self.folded@),
            folded_files: self.folded_files@,
            cursor: self.cursor,
            scroll_offset: self.scroll_offset,
            viewport_height: self.viewport_height,
            wrap: self.wrap,
            item_ys: self.item_ys@,
            rendered_height: self.rendered_height,
            scroll_anchor: self.scroll_anchor,
            should_exit: self.should_exit,
            show_help: self.show_help,
            show_file_list: self.show_file_list,
            file_list_query: self.file_list_query@,
            file_list_cursor: self.file_list_cursor,
            file_view: self.file_view,
            case: self.matcher.case,
        }
    }
}

pub open spec fn has_suffix(s: Seq<char>, p: Seq<char>) -> bool {
    p.len() <= s.len() && s.skip(s.len() - p.len()) == p
}

/// Files folded when the review starts: lock files, deleted files and
/// binary files.
pub open spec fn folded_by_default(f: FileModel) -> bool {
    has_suffix(f.rel_path, ".lock"@) || f.status == FileStatus::Deleted || f.binary
}

/// Folder grouping is disabled: every file has an empty folder stack.
fn compute_merged_folder_stacks(files: &Vec<FileEntry>) -> (r: Vec<Vec<String>>)
    ensures
        r@.len() == files@.len(),
        forall|i: int| 0 <= i < r@.len() ==> #[trigger] r@[i]@.len() == 0,
{
    let mut r: Vec<Vec<String>> = Vec::new();
    while r.len() < files.len()
        invariant
            r@.len() <= files@.len(),
            forall|i: int| 0 <= i < r@.len() ==> #[trigger] r@[i]@.len() == 0,
        decreases files@.len() - r@.len(),
    {
        r.push(Vec::new());
    }
    r
}

fn ends_with(s: &str, suffix: &str) -> (r: bool)
    ensures
        r == has_suffix(s@, suffix@),
{
    let a = chars_of(s);
    let b = chars_of(suffix);
    if b.len() > a.len() {
        return false;
    }
    let al = a.len();
    let off = a.len() - b.len();
    let mut i: usize = 0;
    while i < b.len()
        invariant
            al == a@.len(),
            a@ == s@,
            b@ == suffix@,
            off == a@.len() - b@.len(),
            i <= b@.len(),
            forall|k: int| 0 <= k < i ==> a@[off + k] == b@[k],
        decreases b.len() - i,
    {
        if a[off + i] != b[i] {
            assert(s@.skip(s@.len() - suffix@.len())[i as int] != suffix@[i as int]);
            return false;
        }
        i += 1;
    }
    assert(s@.skip(s@.len() - suffix@.len()) =~= suffix@);
    true
}

/// Folder items of one file's stack, after `emitted` folders were shown:
/// each folder not yet shown is shown (at its depth), and the walk stops
/// after the first folded folder, which hides the file.
pub open spec fn folder_walk(
    stack: Seq<Seq<char>>,
    folded: Set<Seq<char>>,
    emitted: Set<Seq<char>>,
    k: nat,
) -> (Seq<ItemModel>, Set<Seq<char>>, bool)
    decreases k,
{
    if k == 0 {
        (Seq::empty(), emitted, false)
    } else {
        let (items, em, hidden) = folder_walk(stack, folded, emitted, (k - 1) as nat);
        if hidden {
            (items, em, true)
        } else {
            let p = stack[k - 1];
            let (items2, em2) = if em.contains(p) {
                (items, em)
            } else {
                (items.push(ItemModel { kind: KindModel::Folder(p), depth: k - 1 }), em.insert(p))
            };
            (items2, em2, folded.contains(p))
        }
    }
}

/// Headers of `hs` (for file `idx`, at depth `d`), each followed by its
/// lines unless the hunk is confirmed.
pub open spec fn hunk_items(idx: int, hs: Seq<HunkModel>, d: int) -> Seq<ItemModel>
    decreases hs.len(),
{
    if hs.len() == 0 {
        Seq::empty()
    } else {
        let h = hs.last();
        let hi = hs.len() - 1;
        hunk_items(idx, hs.drop_last(), d) + seq![
            ItemModel { kind: KindModel::HunkHeader(idx, hi), depth: d },
        ] + if h.confirmed {
            Seq::empty()
        } else {
            Seq::new(h.lines.len(), |l: int| ItemModel { kind: KindModel::HunkLine(idx, hi, l), depth: d })
        }
    }
}

pub open spec fn strings_set(v: Seq<String>) -> Set<Seq<char>> {
    Set::new(|p: Seq<char>| exists|k: int| 0 <= k < v.len() && #[trigger] v[k]@ == p)
}

/// Indices of the items that are not diff lines.
pub open spec fn spec_targets(items: Seq<ItemModel>) -> Seq<usize>
    decreases items.len(),
{
    if items.len() == 0 {
        Seq::empty()
    } else if items.last().kind is HunkLine {
        spec_targets(items.drop_last())
    } else {
        spec_targets(items.drop_last()).push((items.len() - 1) as usize)
    }
}

/// Indices of the file items.
pub open spec fn file_positions(items: Seq<ItemModel>) -> Seq<usize>
    decreases items.len(),
{
    if items.len() == 0 {
        Seq::empty()
    } else if items.last().kind is File {
        file_positions(items.drop_last()).push((items.len() - 1) as usize)
    } else {
        file_positions(items.drop_last())
    }
}

#[derive(Clone, Copy)]
pub enum Rel {
    Eq,
    Le,
    Lt,
    Ge,
    Gt,
}

/// The test `t <op> x` on a position.
pub open spec fn rel(op: Rel, x: usize) -> spec_fn(usize) -> bool {
    |t: usize|
        match op {
            Rel::Eq => t == x,
            Rel::Le => t <= x,
            Rel::Lt => t < x,
            Rel::Ge => t >= x,
            Rel::Gt => t > x,
        }
}

pub open spec fn kind_is(k: KindModel) -> spec_fn(ItemModel) -> bool {
    |i: ItemModel| i.kind == k
}

pub open spec fn same_text(p: Seq<char>) -> spec_fn(Seq<char>) -> bool {
    |q: Seq<char>| q == p
}

pub open spec fn holds_text(p: Seq<char>) -> spec_fn(Seq<Seq<char>>) -> bool {
    |st: Seq<Seq<char>>| st.contains(p)
}

/// Index of the first element that satisfies `f`.
pub open spec fn first_where<A>(s: Seq<A>, f: spec_fn(A) -> bool) -> Option<int>
    decreases s.len(),
{
    if s.len() == 0 {
        None
    } else {
        match first_where(s.drop_last(), f) {
            Some(i) => Some(i),
            None => if f(s.last()) {
                Some(s.len() - 1)
            } else {
                None
            },
        }
    }
}

/// Index of the last element that satisfies `f`.
pub open spec fn last_where<A>(s: Seq<A>, f: spec_fn(A) -> bool) -> Option<int>
    decreases s.len(),
{
    if s.len() == 0 {
        None
    } else if f(s.last()) {
        Some(s.len() - 1)
    } else {
        last_where(s.drop_last(), f)
    }
}

pub open spec fn dist(a: usize, b: usize) -> int {
    if a <= b {
        b - a
    } else {
        a - b
    }
}

/// The element of `ts` closest to `c`; the first one on a tie.
pub open spec fn nearest(ts: Seq<usize>, c: usize) -> usize
    decreases ts.len(),
{
    if ts.len() <= 1 {
        ts[0]
    } else {
        let b = nearest(ts.drop_last(), c);
        if dist(ts.last(), c) < dist(b, c) {
            ts.last()
        } else {
            b
        }
    }
}

/// Number of items a list of hunks can show at most: each header and line.
pub open spec fn hunks_size(hs: Seq<HunkModel>) -> nat
    decreases hs.len(),
{
    if hs.len() == 0 {
        0
    } else {
        hunks_size(hs.drop_last()) + 1 + hs.last().lines.len()
    }
}

/// Bound on item counts and rows that keeps row arithmetic in range.
pub open spec fn row_limit() -> int {
    (usize::MAX / 8) as int
}

/// Scroll offset that keeps row `cy` inside a `vh`-tall viewport with a
/// quarter-viewport margin above and below.
pub open spec fn spec_scroll_for_cursor(cy: int, scroll: int, vh: int) -> int {
    let margin = vh / 4;
    if cy < scroll + margin {
        if cy >= margin {
            cy - margin
        } else {
            0
        }
    } else if cy + margin >= scroll + vh {
        if cy + margin + 1 >= vh {
            cy + margin + 1 - vh
        } else {
            0
        }
    } else {
        scroll
    }
}

pub open spec fn sat_sub(a: int, b: int) -> int {
    if a >= b {
        a - b
    } else {
        0
    }
}

pub open spec fn half_page(vh: u16) -> int {
    if vh / 2 >= 1 {
        (vh / 2) as int
    } else {
        1
    }
}

/// A file with every unit set to `state`.
pub open spec fn set_file_confirmed(f: FileModel, state: bool) -> FileModel {
    if f.hunks.len() == 0 {
        FileModel { confirmed: state, ..f }
    } else {
        FileModel {
            hunks: Seq::new(f.hunks.len(), |k: int| HunkModel { confirmed: state, ..f.hunks[k] }),
            ..f
        }
    }
}

/// A file with every unit's confirmation inverted.
pub open spec fn invert_file_model(f: FileModel) -> FileModel {
    if f.hunks.len() == 0 {
        FileModel { confirmed: !f.confirmed, ..f }
    } else {
        FileModel {
            hunks: Seq::new(
                f.hunks.len(),
                |k: int| HunkModel { confirmed: !f.hunks[k].confirmed, ..f.hunks[k] },
            ),
            ..f
        }
    }
}

pub open spec fn flip_hunk(f: FileModel, h: int) -> FileModel {
    FileModel {
        hunks: f.hunks.update(h, HunkModel { confirmed: !f.hunks[h].confirmed, ..f.hunks[h] }),
        ..f
    }
}

pub open spec fn set_hunk_model(f: FileModel, h: int, state: bool) -> FileModel {
    FileModel { hunks: f.hunks.update(h, HunkModel { confirmed: state, ..f.hunks[h] }), ..f }
}

/// Set a file's confirmation to `state`, or invert it where `op` is `None`.
pub open spec fn update_file(f: FileModel, op: Option<bool>) -> FileModel {
    match op {
        Some(state) => set_file_confirmed(f, state),
        None => invert_file_model(f),
    }
}

/// Lines of the file view: each hunk header, followed by its lines unless
/// the hunk is confirmed.
pub open spec fn fv_lines(hs: Seq<HunkModel>) -> Seq<FileViewLine>
    decreases hs.len(),
{
    if hs.len() == 0 {
        Seq::empty()
    } else {
        let h = hs.last();
        let hi = (hs.len() - 1) as usize;
        fv_lines(hs.drop_last()) + seq![FileViewLine::HunkHeader(hi)] + if h.confirmed {
            Seq::empty()
        } else {
            Seq::new(h.lines.len(), |l: int| FileViewLine::HunkLine(hi, l as usize))
        }
    }
}

pub open spec fn folder_prefix(p: Seq<char>) -> Seq<char> {
    p.push('/')
}

/// The parent of folder `p` in the first folder stack that holds it.
pub open spec fn parent_in_stacks(stacks: Seq<Seq<Seq<char>>>, p: Seq<char>) -> Option<Seq<char>> {
    match first_where(stacks, holds_text(p)) {
        Some(j) => match first_where(stacks[j], same_text(p)) {
            Some(pos) => if pos > 0 {
                Some(stacks[j][pos - 1])
            } else {
                None
            },
            None => None,
        },
        None => None,
    }
}

/// Insert `x` after the entries that score at least as high.
pub open spec fn insert_by_score(
    s: Seq<(usize, Option<(i64, Seq<usize>)>)>,
    x: (usize, Option<(i64, Seq<usize>)>),
) -> Seq<(usize, Option<(i64, Seq<usize>)>)>
    decreases s.len(),
{
    if s.len() == 0 {
        seq![x]
    } else if entry_score(s.last()) >= entry_score(x) {
        s.push(x)
    } else {
        insert_by_score(s.drop_last(), x).push(s.last())
    }
}

pub open spec fn entry_score(e: (usize, Option<(i64, Seq<usize>)>)) -> i64 {
    match e.1 {
        Some(p) => p.0,
        None => 0,
    }
}

/// Stable sort by score, highest first.
pub open spec fn sort_by_score(s: Seq<(usize, Option<(i64, Seq<usize>)>)>) -> Seq<
    (usize, Option<(i64, Seq<usize>)>),
>
    decreases s.len(),
{
    if s.len() == 0 {
        s
    } else {
        insert_by_score(sort_by_score(s.drop_last()), s.last())
    }
}

/// A file shows no hunks when folded or fully confirmed.
pub open spec fn file_folded(files: Seq<FileModel>, folded_files: Set<usize>, idx: int) -> bool {
    folded_files.contains(idx as usize) || files[idx].all_confirmed()
}

/// Items of the first `n` files, and the folders shown so far.
pub open spec fn visible_upto(
    files: Seq<FileModel>,
    stacks: Seq<Seq<Seq<char>>>,
    folded: Set<Seq<char>>,
    folded_files: Set<usize>,
    n: nat,
) -> (Seq<ItemModel>, Set<Seq<char>>)
    decreases n,
{
    if n == 0 {
        (Seq::empty(), Set::empty())
    } else {
        let (items, em) = visible_upto(files, stacks, folded, folded_files, (n - 1) as nat);
        let idx = n - 1;
        let stack = stacks[idx];
        let (fitems, em2, hidden) = folder_walk(stack, folded, em, stack.len());
        let items2 = items + fitems;
        if hidden {
            (items2, em2)
        } else {
            let d = stack.len() as int;
            (
                items2.push(ItemModel { kind: KindModel::File(idx), depth: d }) + if file_folded(
                    files,
                    folded_files,
                    idx,
                ) {
                    Seq::empty()
                } else {
                    hunk_items(idx, files[idx].hunks, d + 1)
                },
                em2,
            )
        }
    }
}

/// Items a review of `files` with folder `stacks` can show at most, over
/// the first `n` files: every folder, file, hunk and line.
pub open spec fn size_upto(files: Seq<FileModel>, stacks: Seq<Seq<Seq<char>>>, n: nat) -> nat
    decreases n,
{
    if n == 0 {
        0
    } else {
        size_upto(files, stacks, (n - 1) as nat) + stacks[n - 1].len() + 1 + hunks_size(files[n - 1].hunks)
    }
}

/// A file with no hunks, shown unfolded and unconfirmed, gets an info line.
pub open spec fn info_line(files: Seq<FileModel>, folded_files: Set<usize>, idx: int) -> bool {
    files[idx].hunks.len() == 0 && !folded_files.contains(idx as usize) && !files[idx].all_confirmed()
}

/// Estimated rows of the first `n` items, the next free row, and whether
/// the last box opened was a file's.
pub open spec fn ys_walk(files: Seq<FileModel>, folded_files: Set<usize>, items: Seq<ItemModel>, n: nat) -> (
    Seq<int>,
    int,
    bool,
)
    decreases n,
{
    if n == 0 {
        (Seq::empty(), 0, false)
    } else {
        let (ys, y, lwf) = ys_walk(files, folded_files, items, (n - 1) as nat);
        match items[n - 1].kind {
            KindModel::File(idx) => {
                let y1 = if lwf {
                    y + 1
                } else {
                    y
                };
                let y2 = y1 + 1 + if info_line(files, folded_files, idx) {
                    1int
                } else {
                    0int
                };
                (ys.push(y1), y2, true)
            },
            KindModel::Folder(_) => {
                let y1 = if lwf {
                    y + 1
                } else {
                    y
                };
                (ys.push(y1), y1 + 1, false)
            },
            _ => (ys.push(y), y + 1, lwf),
        }
    }
}

/// Width left inside `open` nested boxes, two columns each.
pub open spec fn inner_width(width: int, open: int) -> int {
    if width >= 2 * open {
        width - 2 * open
    } else {
        0
    }
}

/// The main view laid out in rows, for the first `n` items: the row each
/// item starts on, the next free row, and how many boxes are open. A folder
/// or file opens a box at its depth after closing the deeper ones (one row
/// each) and takes a title row, plus an info line for a file without hunks
/// that is shown unfolded and unconfirmed; a hunk header takes one row; a
/// hunk line takes its wrapped rows inside the open boxes.
pub open spec fn layout_walk(
    files: Seq<FileModel>,
    folded_files: Set<usize>,
    wrap: bool,
    width: int,
    items: Seq<ItemModel>,
    n: nat,
) -> (Seq<int>, int, int)
    decreases n,
{
    if n == 0 {
        (Seq::empty(), 0, 0)
    } else {
        let (ys, rows, open) = layout_walk(files, folded_files, wrap, width, items, (n - 1) as nat);
        let (y, rows2, open2) = layout_step(files, folded_files, wrap, width, items[n - 1], rows, open);
        (ys.push(y), rows2, open2)
    }
}

/// One item of the layout: its row, the next free row, and the boxes open
/// after it.
pub open spec fn layout_step(
    files: Seq<FileModel>,
    folded_files: Set<usize>,
    wrap: bool,
    width: int,
    it: ItemModel,
    rows: int,
    open: int,
) -> (int, int, int) {
    let closes = if open > it.depth {
        open - it.depth
    } else {
        0
    };
    match it.kind {
        KindModel::Folder(_) => (rows + closes, rows + closes + 1, open - closes + 1),
        KindModel::File(idx) => (
            rows + closes,
            rows + closes + 1 + if info_line(files, folded_files, idx) {
                1int
            } else {
                0int
            },
            open - closes + 1,
        ),
        KindModel::HunkHeader(_, _) => (rows, rows + 1, open),
        KindModel::HunkLine(f, h, l) => (
            rows,
            rows + crate::display::spec_line_rows(
                crate::display::line_text(files[f].hunks[h].lines[l]),
                wrap,
                inner_width(width, open),
            ),
            open,
        ),
    }
}

pub proof fn lemma_layout_step(
    files: Seq<FileModel>,
    folded_files: Set<usize>,
    wrap: bool,
    width: int,
    it: ItemModel,
    rows: int,
    open: int,
)
    requires
        it.depth >= 0,
        rows >= 0,
        open >= 0,
    ensures
        ({
            let (y, r2, o2) = layout_step(files, folded_files, wrap, width, it, rows, open);
            &&& rows <= y < r2
            &&& o2 >= 0
            &&& r2 + o2 > rows + open
            &&& y <= rows + open
        }),
{
    if let KindModel::HunkLine(f, h, l) = it.kind {
        crate::display::lemma_line_rows_pos(
            crate::display::line_text(files[f].hunks[h].lines[l]),
            wrap,
            inner_width(width, open),
        );
    }
}

pub proof fn lemma_layout_walk(
    files: Seq<FileModel>,
    folded_files: Set<usize>,
    wrap: bool,
    width: int,
    items: Seq<ItemModel>,
    n: nat,
)
    requires
        n <= items.len(),
        forall|k: int| 0 <= k < items.len() ==> #[trigger] items[k].depth >= 0,
    ensures
        ({
            let w = layout_walk(files, folded_files, wrap, width, items, n);
            &&& w.0.len() == n
            &&& w.1 >= 0
            &&& w.2 >= 0
            &&& forall|k: int| 0 <= k < n ==> 0 <= #[trigger] w.0[k] < w.1
        }),
    decreases n,
{
    if n > 0 {
        lemma_layout_walk(files, folded_files, wrap, width, items, (n - 1) as nat);
        let w0 = layout_walk(files, folded_files, wrap, width, items, (n - 1) as nat);
        lemma_layout_step(files, folded_files, wrap, width, items[n - 1], w0.1, w0.2);
    }
}

/// Rows plus open boxes never shrink along the layout.
pub proof fn lemma_layout_mono(
    files: Seq<FileModel>,
    folded_files: Set<usize>,
    wrap: bool,
    width: int,
    items: Seq<ItemModel>,
    m: nat,
    n: nat,
)
    requires
        m <= n <= items.len(),
        forall|k: int| 0 <= k < items.len() ==> #[trigger] items[k].depth >= 0,
    ensures
        layout_walk(files, folded_files, wrap, width, items, m).1 + layout_walk(files, folded_files, wrap, width, items, m).2
            <= layout_walk(files, folded_files, wrap, width, items, n).1 + layout_walk(
            files,
            folded_files,
            wrap,
            width,
            items,
            n,
        ).2,
    decreases n - m,
{
    if m < n {
        lemma_layout_mono(files, folded_files, wrap, width, items, m, (n - 1) as nat);
        lemma_layout_walk(files, folded_files, wrap, width, items, (n - 1) as nat);
        let w0 = layout_walk(files, folded_files, wrap, width, items, (n - 1) as nat);
        lemma_layout_step(files, folded_files, wrap, width, items[n - 1], w0.1, w0.2);
    }
}

/// Rows a file-view line takes at `width` columns.
pub open spec fn fv_line_rows(hs: Seq<HunkModel>, wrap: bool, width: int, line: FileViewLine) -> int {
    match line {
        FileViewLine::HunkHeader(_) => 1,
        FileViewLine::HunkLine(h, l) => crate::display::spec_line_rows(
            crate::display::line_text(hs[h as int].lines[l as int]),
            wrap,
            width,
        ),
    }
}

/// The row each of the first `n` file-view lines starts on, and the next
/// free row.
pub open spec fn fv_row_walk(hs: Seq<HunkModel>, wrap: bool, width: int, lines: Seq<FileViewLine>, n: nat) -> (
    Seq<int>,
    int,
)
    decreases n,
{
    if n == 0 {
        (Seq::empty(), 0)
    } else {
        let (st, r) = fv_row_walk(hs, wrap, width, lines, (n - 1) as nat);
        (st.push(r), r + fv_line_rows(hs, wrap, width, lines[n - 1]))
    }
}

pub proof fn lemma_fv_row_walk(hs: Seq<HunkModel>, wrap: bool, width: int, lines: Seq<FileViewLine>, n: nat)
    requires
        n <= lines.len(),
    ensures
        fv_row_walk(hs, wrap, width, lines, n).0.len() == n,
        fv_row_walk(hs, wrap, width, lines, n).1 >= n,
        forall|k: int|
            0 <= k < n ==> 0 <= #[trigger] fv_row_walk(hs, wrap, width, lines, n).0[k] < fv_row_walk(
                hs,
                wrap,
                width,
                lines,
                n,
            ).1,
        forall|k: int|
            0 <= k < n - 1 ==> #[trigger] fv_row_walk(hs, wrap, width, lines, n).0[k] < fv_row_walk(
                hs,
                wrap,
                width,
                lines,
                n,
            ).0[k + 1],
    decreases n,
{
    if n > 0 {
        lemma_fv_row_walk(hs, wrap, width, lines, (n - 1) as nat);
        if let FileViewLine::HunkLine(h, l) = lines[n - 1] {
            crate::display::lemma_line_rows_pos(crate::display::line_text(hs[h as int].lines[l as int]), wrap, width);
        }
    }
}

/// Rows never shrink along the file view.
pub proof fn lemma_fv_row_mono(hs: Seq<HunkModel>, wrap: bool, width: int, lines: Seq<FileViewLine>, m: nat, n: nat)
    requires
        m <= n <= lines.len(),
    ensures
        fv_row_walk(hs, wrap, width, lines, m).1 <= fv_row_walk(hs, wrap, width, lines, n).1,
    decreases n - m,
{
    if m < n {
        lemma_fv_row_mono(hs, wrap, width, lines, m, (n - 1) as nat);
        if let FileViewLine::HunkLine(h, l) = lines[n - 1] {
            crate::display::lemma_line_rows_pos(crate::display::line_text(hs[h as int].lines[l as int]), wrap, width);
        }
    }
}

/// One row of the main view: a box's title row (a folder or file item), a
/// file's info line, a hunk header, one wrapped row of a hunk line, or the
/// bottom border closing the innermost open box.
#[derive(Debug, Clone, Copy, PartialEq, Eq, Structural)]
pub enum RowPlan {
    Top(usize),
    Info(usize),
    Header(usize),
    Line(usize, usize),
    Bottom,
}

pub open spec fn bottoms(c: int) -> Seq<RowPlan> {
    Seq::new(c as nat, |i: int| RowPlan::Bottom)
}

/// The rows item `k` adds, and the boxes open after it.
pub open spec fn plan_step(
    files: Seq<FileModel>,
    folded_files: Set<usize>,
    wrap: bool,
    width: int,
    items: Seq<ItemModel>,
    k: int,
    open: int,
) -> (Seq<RowPlan>, int) {
    let it = items[k];
    let closes = if open > it.depth {
        open - it.depth
    } else {
        0
    };
    match it.kind {
        KindModel::Folder(_) => (bottoms(closes).push(RowPlan::Top(k as usize)), open - closes + 1),
        KindModel::File(idx) => (
            bottoms(closes).push(RowPlan::Top(k as usize)) + if info_line(files, folded_files, idx) {
                seq![RowPlan::Info(idx as usize)]
            } else {
                Seq::empty()
            },
            open - closes + 1,
        ),
        KindModel::HunkHeader(_, _) => (seq![RowPlan::Header(k as usize)], open),
        KindModel::HunkLine(f, h, l) => (
            Seq::new(
                crate::display::spec_line_rows(
                    crate::display::line_text(files[f].hunks[h].lines[l]),
                    wrap,
                    inner_width(width, open),
                ) as nat,
                |c: int| RowPlan::Line(k as usize, c as usize),
            ),
            open,
        ),
    }
}

pub open spec fn plan_walk(
    files: Seq<FileModel>,
    folded_files: Set<usize>,
    wrap: bool,
    width: int,
    items: Seq<ItemModel>,
    n: nat,
) -> (Seq<RowPlan>, int)
    decreases n,
{
    if n == 0 {
        (Seq::empty(), 0)
    } else {
        let (rows, open) = plan_walk(files, folded_files, wrap, width, items, (n - 1) as nat);
        let (add, open2) = plan_step(files, folded_files, wrap, width, items, n - 1, open);
        (rows + add, open2)
    }
}

/// The row an item starts on.
pub open spec fn start_row(it: ItemModel, k: int) -> RowPlan {
    match it.kind {
        KindModel::HunkHeader(_, _) => RowPlan::Header(k as usize),
        KindModel::HunkLine(_, _, _) => RowPlan::Line(k as usize, 0),
        _ => RowPlan::Top(k as usize),
    }
}

/// The row plan follows the layout: as many rows as the layout counts, the
/// same boxes open, and each item's row where the layout puts it.
proof fn lemma_plan_walk(
    files: Seq<FileModel>,
    folded_files: Set<usize>,
    wrap: bool,
    width: int,
    items: Seq<ItemModel>,
    n: nat,
)
    requires
        n <= items.len(),
        forall|k: int| 0 <= k < items.len() ==> #[trigger] items[k].depth >= 0,
    ensures
        ({
            let pw = plan_walk(files, folded_files, wrap, width, items, n);
            let lw = layout_walk(files, folded_files, wrap, width, items, n);
            &&& pw.0.len() == lw.1
            &&& pw.1 == lw.2
            &&& forall|k: int| 0 <= k < n ==> pw.0[#[trigger] lw.0[k]] == start_row(items[k], k)
        }),
    decreases n,
{
    if n > 0 {
        lemma_plan_walk(files, folded_files, wrap, width, items, (n - 1) as nat);
        lemma_layout_walk(files, folded_files, wrap, width, items, (n - 1) as nat);
        let pw0 = plan_walk(files, folded_files, wrap, width, items, (n - 1) as nat);
        let lw0 = layout_walk(files, folded_files, wrap, width, items, (n - 1) as nat);
        let pw = plan_walk(files, folded_files, wrap, width, items, n);
        let lw = layout_walk(files, folded_files, wrap, width, items, n);
        let it = items[n - 1];
        assert(it.depth >= 0);
        lemma_layout_step(files, folded_files, wrap, width, it, lw0.1, lw0.2);
        let add = plan_step(files, folded_files, wrap, width, items, n - 1, pw0.1).0;
        assert(pw.0 == pw0.0 + add);
        if let KindModel::HunkLine(f, h, l) = it.kind {
            crate::display::lemma_line_rows_pos(
                crate::display::line_text(files[f].hunks[h].lines[l]),
                wrap,
                inner_width(width, lw0.2),
            );
        }
        assert forall|k: int| 0 <= k < n implies pw.0[#[trigger] lw.0[k]] == start_row(items[k], k) by {
            if k < n - 1 {
                assert(lw.0[k] == lw0.0[k]);
                assert(pw.0[lw0.0[k]] == pw0.0[lw0.0[k]]);
            } else {
                assert(lw.0[k] == layout_step(files, folded_files, wrap, width, it, lw0.1, lw0.2).0);
                assert(pw.0[lw.0[k]] == add[lw.0[k] - pw0.0.len()]);
            }
        }
    }
}

impl AppModel {
    pub open spec fn folded_set(self) -> Set<Seq<char>> {
        Set::new(|p: Seq<char>| self.folded.contains(p))
    }

    /// The flat list of visible items: folders, files, hunk headers and
    /// hunk lines. Folded folders hide their files; folded or confirmed files
    /// hide their hunks; confirmed hunks hide their lines.
    pub open spec fn spec_visible(self) -> Seq<ItemModel> {
        self.visible_upto(self.files.len()).0
    }

    pub open spec fn visible_upto(self, n: nat) -> (Seq<ItemModel>, Set<Seq<char>>) {
        visible_upto(self.files, self.stacks, self.folded_set(), self.folded_files, n)
    }

    pub open spec fn file_folded(self, idx: int) -> bool {
        file_folded(self.files, self.folded_files, idx)
    }

    pub open spec fn spec_cursor_targets(self) -> Seq<usize> {
        spec_targets(self.spec_visible())
    }

    pub open spec fn size_upto(self, n: nat) -> nat {
        size_upto(self.files, self.stacks, n)
    }

    /// Most items the review can show: every folder, file, hunk and line.
    pub open spec fn size(self) -> nat {
        self.size_upto(self.files.len())
    }

    /// Every file has a folder stack, no folder is folded twice, every
    /// path fits the matcher, and all counts and rows stay far from the
    /// end of `usize`.
    pub open spec fn wf(self) -> bool {
        &&& self.stacks.len() == self.files.len()
        &&& self.folded.no_duplicates()
        &&& self.size() <= row_limit()
        &&& forall|i: int| 0 <= i < self.files.len() ==> choice_fits(#[trigger] self.files[i].rel_path.len())
        &&& forall|i: int| 0 <= i < self.item_ys.len() ==> #[trigger] self.item_ys[i] <= row_limit()
        &&& self.rendered_height <= row_limit()
        &&& self.scroll_offset <= usize::MAX / 2
        &&& self.cursor <= usize::MAX / 2
        &&& match self.file_view {
            Some(fv) => fv.file_idx < self.files.len() && fv.line_cursor <= usize::MAX / 2,
            None => true,
        }
    }

    pub open spec fn item_at(self, i: int) -> Option<KindModel> {
        if 0 <= i < self.spec_visible().len() {
            Some(self.spec_visible()[i].kind)
        } else {
            None
        }
    }

    // ── Geometry ──

    pub open spec fn geometry_valid(self, count: int) -> bool {
        self.item_ys.len() > 0 && self.item_ys.len() == count
    }

    pub open spec fn ys_walk(self, items: Seq<ItemModel>, n: nat) -> (Seq<int>, int, bool) {
        ys_walk(self.files, self.folded_files, items, n)
    }

    /// Row of each visible item: the last frame's rows while they still
    /// describe the item list, else the one-row-per-line estimate.
    pub open spec fn item_y_positions(self) -> Seq<int> {
        let vis = self.spec_visible();
        if self.geometry_valid(vis.len() as int) {
            self.item_ys.map_values(|y: usize| y as int)
        } else {
            self.ys_walk(vis, vis.len()).0
        }
    }

    pub open spec fn total_rendered_height(self) -> int {
        let vis = self.spec_visible();
        if self.rendered_height > 0 && self.geometry_valid(vis.len() as int) {
            self.rendered_height as int
        } else if vis.len() == 0 {
            0
        } else {
            self.ys_walk(vis, vis.len()).1 + 1
        }
    }

    /// The main view at `width` columns: the row each visible item starts
    /// on, and the total rows once every open box is closed.
    pub open spec fn spec_layout(self, width: int) -> (Seq<int>, int) {
        let vis = self.spec_visible();
        let w = layout_walk(self.files, self.folded_files, self.wrap, width, vis, vis.len());
        (w.0, w.1 + w.2)
    }

    /// One frame of the main view in a `width` by `height` area: the
    /// viewport takes the height; the layout's rows and total height are
    /// published; the scroll offset goes to the anchored item's row when
    /// there is one, and stays within the scroll range. An empty view
    /// publishes no rows; a layout past the row limit publishes nothing.
    pub open spec fn spec_frame_main_view(self, width: int, height: u16) -> AppModel {
        let m = AppModel { viewport_height: height, ..self };
        let vis = self.spec_visible();
        let (ys, total) = self.spec_layout(width);
        if vis.len() == 0 {
            AppModel { item_ys: Seq::empty(), rendered_height: 0, ..m }
        } else if total > row_limit() {
            m
        } else {
            let s0 = match self.scroll_anchor {
                Some(a) => if a < ys.len() {
                    ys[a as int]
                } else {
                    self.scroll_offset as int
                },
                None => self.scroll_offset as int,
            };
            let cap = sat_sub(total, height as int);
            AppModel {
                item_ys: ys.map_values(|y: int| y as usize),
                rendered_height: total as usize,
                scroll_offset: (if s0 <= cap {
                    s0
                } else {
                    cap
                }) as usize,
                scroll_anchor: None,
                ..m
            }
        }
    }

    /// The file view's rows at `width` columns: where each line starts, and
    /// the total.
    pub open spec fn spec_file_view_rows(self, width: int) -> (Seq<int>, int) {
        match self.file_view {
            Some(fv) => {
                let hs = self.files[fv.file_idx as int].hunks;
                let lines = fv_lines(hs);
                fv_row_walk(hs, self.wrap, width, lines, lines.len())
            },
            None => (Seq::empty(), 0),
        }
    }

    /// One frame of the file view in a `width` by `height` area: the
    /// viewport takes the height, the line cursor moves back onto the last
    /// line when past it, and the scroll offset keeps all of the cursor
    /// line's rows in view (`spec_file_view_scroll`). The scroll stays where
    /// it is when the rows pass the row limit or the offset is out of range.
    pub open spec fn spec_frame_file_view(self, width: int, height: u16) -> AppModel {
        match self.file_view {
            Some(fv) => {
                let total = fv_lines(self.files[fv.file_idx as int].hunks).len() as int;
                let lc = if fv.line_cursor >= total {
                    sat_sub(total, 1)
                } else {
                    fv.line_cursor as int
                };
                let fv1 = FileViewState { viewport_height: height, line_cursor: lc as usize, ..fv };
                let (st, total_rows) = self.spec_file_view_rows(width);
                if total == 0 || total_rows > row_limit() || fv.scroll_offset > usize::MAX / 2 {
                    AppModel { file_view: Some(fv1), ..self }
                } else {
                    let end = if lc + 1 < total {
                        st[lc + 1]
                    } else {
                        total_rows
                    };
                    let sc = crate::display::spec_file_view_scroll(
                        st[lc],
                        end,
                        fv.scroll_offset as int,
                        height as int,
                        total_rows,
                    );
                    AppModel { file_view: Some(FileViewState { scroll_offset: sc as usize, ..fv1 }), ..self }
                }
            },
            None => self,
        }
    }

    /// The rows of the main view at `width` columns, closing every box left
    /// open at the end.
    pub open spec fn spec_main_plan(self, width: int) -> Seq<RowPlan> {
        let vis = self.spec_visible();
        let w = plan_walk(self.files, self.folded_files, self.wrap, width, vis, vis.len());
        w.0 + bottoms(w.1)
    }

    pub open spec fn max_scroll(self) -> int {
        sat_sub(self.total_rendered_height(), self.viewport_height as int)
    }

    // ── Transitions ──

    /// Scroll so that the cursor's row is in view, within the scroll range.
    pub open spec fn ensure_visible(self) -> AppModel {
        let ys = self.item_y_positions();
        if self.viewport_height == 0 || self.cursor >= ys.len() {
            self
        } else {
            let s = spec_scroll_for_cursor(ys[self.cursor as int], self.scroll_offset as int, self.viewport_height as int);
            let m = self.max_scroll();
            AppModel {
                scroll_offset: (if s > m {
                    m
                } else {
                    s
                }) as usize,
                ..self
            }
        }
    }

    /// Cursor on the nearest target, or 0 when there is none.
    pub open spec fn clamp(self) -> AppModel {
        let ts = self.spec_cursor_targets();
        AppModel {
            cursor: if ts.len() == 0 {
                0
            } else {
                nearest(ts, self.cursor)
            },
            ..self
        }
    }

    pub open spec fn row_in_view(self, y: int) -> bool {
        self.scroll_offset <= y < self.scroll_offset + self.viewport_height
    }

    pub open spec fn cursor_up(self) -> AppModel {
        let ts = self.spec_cursor_targets();
        let c = self.cursor;
        if ts.len() == 0 {
            self
        } else if self.viewport_height == 0 {
            let idx = match last_where(ts, rel(Rel::Le, c)) {
                Some(i) => i,
                None => 0,
            };
            if idx > 0 {
                AppModel { cursor: ts[idx - 1], ..self }
            } else {
                self
            }
        } else {
            let ys = self.item_y_positions();
            match first_where(ts, rel(Rel::Eq, c)) {
                Some(i) if i > 0 && self.row_in_view(ys[ts[i - 1] as int]) => AppModel { cursor: ts[i - 1], ..self },
                _ => AppModel {
                    scroll_offset: sat_sub(self.scroll_offset as int, half_page(self.viewport_height)) as usize,
                    ..self
                },
            }
        }
    }

    pub open spec fn cursor_down(self) -> AppModel {
        let ts = self.spec_cursor_targets();
        let c = self.cursor;
        if ts.len() == 0 {
            self
        } else if self.viewport_height == 0 {
            let idx = match first_where(ts, rel(Rel::Ge, c)) {
                Some(i) => i,
                None => ts.len() - 1,
            };
            if idx + 1 < ts.len() {
                AppModel { cursor: ts[idx + 1], ..self }
            } else {
                self
            }
        } else {
            let ys = self.item_y_positions();
            match first_where(ts, rel(Rel::Eq, c)) {
                Some(i) if i + 1 < ts.len() && self.row_in_view(ys[ts[i + 1] as int]) => AppModel {
                    cursor: ts[i + 1],
                    ..self
                },
                _ => {
                    let s = self.scroll_offset + half_page(self.viewport_height);
                    let m = self.max_scroll();
                    AppModel {
                        scroll_offset: (if s <= m {
                            s
                        } else {
                            m
                        }) as usize,
                        ..self
                    }
                },
            }
        }
    }

    pub open spec fn scroll_line_up(self) -> AppModel {
        AppModel { scroll_offset: sat_sub(self.scroll_offset as int, 1) as usize, ..self }
    }

    pub open spec fn scroll_line_down(self) -> AppModel {
        if self.viewport_height != 0 && self.scroll_offset < self.max_scroll() {
            AppModel { scroll_offset: (self.scroll_offset + 1) as usize, ..self }
        } else {
            self
        }
    }

    pub open spec fn prev_file(self) -> AppModel {
        let fp = file_positions(self.spec_visible());
        let c = self.cursor;
        if fp.len() == 0 {
            self
        } else {
            let cur = match last_where(fp, rel(Rel::Lt, c)) {
                Some(i) => i,
                None => fp.len() - 1,
            };
            AppModel { cursor: fp[cur], ..self }.ensure_visible()
        }
    }

    pub open spec fn next_file(self) -> AppModel {
        let fp = file_positions(self.spec_visible());
        let c = self.cursor;
        if fp.len() == 0 {
            self
        } else {
            let cur = match first_where(fp, rel(Rel::Gt, c)) {
                Some(i) => i,
                None => 0,
            };
            AppModel { cursor: fp[cur], ..self }.ensure_visible()
        }
    }

    /// Position of the folder item `p`.
    pub open spec fn folder_pos(self, p: Seq<char>) -> Option<int> {
        first_where(self.spec_visible(), kind_is(KindModel::Folder(p)))
    }

    /// Position of the file item of file `idx`.
    pub open spec fn file_pos(self, idx: int) -> Option<int> {
        first_where(self.spec_visible(), kind_is(KindModel::File(idx)))
    }

    pub open spec fn move_to(self, pos: Option<int>) -> AppModel {
        match pos {
            Some(p) => AppModel { cursor: p as usize, ..self },
            None => self,
        }
    }

    pub open spec fn fold_current(self) -> AppModel {
        let next = match self.item_at(self.cursor as int) {
            Some(KindModel::Folder(path)) => if self.folded.contains(path) {
                match parent_in_stacks(self.stacks, path) {
                    Some(parent) => self.move_to(self.folder_pos(parent)),
                    None => self,
                }
            } else {
                AppModel { folded: self.folded.push(path), ..self }
            },
            Some(KindModel::File(idx)) => if self.stacks[idx].len() > 0 {
                self.move_to(self.folder_pos(self.stacks[idx].last()))
            } else {
                self
            },
            Some(KindModel::HunkHeader(fi, _)) => {
                let m = AppModel { folded_files: self.folded_files.insert(fi as usize), ..self };
                m.move_to(m.file_pos(fi))
            },
            _ => self,
        };
        next.ensure_visible()
    }

    /// Move to the first target after the cursor, if any.
    pub open spec fn step_in(self) -> AppModel {
        let ts = self.spec_cursor_targets();
        let c = self.cursor;
        match first_where(ts, rel(Rel::Gt, c)) {
            Some(i) => AppModel { cursor: ts[i], ..self },
            None => self,
        }
    }

    pub open spec fn unfold_current(self) -> AppModel {
        let next = match self.item_at(self.cursor as int) {
            Some(KindModel::Folder(path)) => if self.folded.contains(path) {
                AppModel {
                    folded: self.folded.remove(first_where(self.folded, same_text(path)).unwrap()),
                    ..self
                }
            } else {
                self.step_in()
            },
            Some(KindModel::File(idx)) => if self.folded_files.contains(idx as usize) {
                AppModel { folded_files: self.folded_files.remove(idx as usize), ..self }
            } else {
                self.step_in()
            },
            _ => self,
        };
        next.ensure_visible()
    }

    /// Indices of the files under folder `p`.
    pub open spec fn under_folder(self, p: Seq<char>, i: int) -> bool {
        has_prefix(self.files[i].rel_path, folder_prefix(p))
    }

    pub open spec fn invert_current(self) -> AppModel {
        match self.item_at(self.cursor as int) {
            Some(KindModel::File(idx)) => AppModel {
                files: self.files.update(idx, invert_file_model(self.files[idx])),
                ..self
            },
            Some(KindModel::Folder(path)) => AppModel {
                files: Seq::new(
                    self.files.len(),
                    |i: int| if self.under_folder(path, i) {
                        invert_file_model(self.files[i])
                    } else {
                        self.files[i]
                    },
                ),
                ..self
            },
            Some(KindModel::HunkHeader(fi, hi)) => AppModel {
                files: self.files.update(fi, flip_hunk(self.files[fi], hi)),
                ..self
            },
            _ => self,
        }
    }

    pub open spec fn invert_confirmation(self) -> AppModel {
        self.invert_current().clamp().ensure_visible()
    }

    /// Set the confirmation of the unit under the cursor to `state`: a
    /// file's units, every file under a folder, or one hunk. Confirming a
    /// file or folder also folds it.
    pub open spec fn set_current(self, state: bool) -> AppModel {
        match self.item_at(self.cursor as int) {
            Some(KindModel::File(idx)) => AppModel {
                files: self.files.update(idx, set_file_confirmed(self.files[idx], state)),
                folded_files: if state {
                    self.folded_files.insert(idx as usize)
                } else {
                    self.folded_files
                },
                ..self
            },
            Some(KindModel::Folder(path)) => AppModel {
                files: Seq::new(
                    self.files.len(),
                    |i: int| if self.under_folder(path, i) {
                        set_file_confirmed(self.files[i], state)
                    } else {
                        self.files[i]
                    },
                ),
                folded: if !state || self.folded.contains(path) {
                    self.folded
                } else {
                    self.folded.push(path)
                },
                ..self
            },
            Some(KindModel::HunkHeader(fi, hi)) => if 0 <= hi < self.files[fi].hunks.len() {
                AppModel {
                    files: self.files.update(fi, set_hunk_model(self.files[fi], hi, state)),
                    ..self
                }
            } else {
                self
            },
            _ => self,
        }
    }

    /// The folder holds files and all of them are confirmed.
    pub open spec fn folder_done(self, p: Seq<char>) -> bool {
        (exists|i: int| 0 <= i < self.files.len() && self.under_folder(p, i)) && (forall|i: int|
            0 <= i < self.files.len() && self.under_folder(p, i) ==> #[trigger] self.files[i].all_confirmed())
    }

    /// Whether the unit under the cursor counts as confirmed: a file with
    /// all its units confirmed, a folder whose files all are, a confirmed
    /// hunk.
    pub open spec fn current_confirmed(self) -> bool {
        match self.item_at(self.cursor as int) {
            Some(KindModel::File(idx)) => self.files[idx].all_confirmed(),
            Some(KindModel::Folder(path)) => self.folder_done(path),
            Some(KindModel::HunkHeader(fi, hi)) => 0 <= hi < self.files[fi].hunks.len()
                && self.files[fi].hunks[hi].confirmed,
            _ => false,
        }
    }

    /// Flip the confirmation of the unit under the cursor.
    pub open spec fn toggle_current(self) -> AppModel {
        self.set_current(!self.current_confirmed())
    }

    pub open spec fn toggle_confirmation(self) -> AppModel {
        self.toggle_current().clamp().ensure_visible()
    }

    /// Toggle the unit under the cursor, then move to the first target
    /// after the cursor (the last target when there is none after it).
    pub open spec fn confirm_and_advance(self) -> AppModel {
        let c = self.cursor;
        let m = self.toggle_current();
        let nt = m.spec_cursor_targets();
        if nt.len() == 0 {
            AppModel { cursor: 0, ..m }
        } else {
            AppModel {
                cursor: match first_where(nt, rel(Rel::Gt, c)) {
                    Some(k) => nt[k],
                    None => nt.last(),
                },
                ..m
            }.ensure_visible()
        }
    }

    /// Files in order, each with its match when the query is not empty;
    /// matches sorted by score, highest first.
    pub open spec fn filtered_files(self) -> Seq<(usize, Option<(i64, Seq<usize>)>)> {
        if self.file_list_query.len() == 0 {
            Seq::new(self.files.len(), |i: int| (i as usize, None))
        } else {
            sort_by_score(self.file_matches(self.files.len()))
        }
    }

    /// Matches among the first `n` files, in file order.
    pub open spec fn file_matches(self, n: nat) -> Seq<(usize, Option<(i64, Seq<usize>)>)>
        decreases n,
    {
        if n == 0 {
            Seq::empty()
        } else {
            let prev = self.file_matches((n - 1) as nat);
            match spec_run(self.case, self.files[n - 1].rel_path, self.file_list_query, true) {
                Some(r) => prev.push(((n - 1) as usize, Some((r.0 as i64, r.1)))),
                None => prev,
            }
        }
    }

    pub open spec fn jump_to_file(self, idx: int) -> AppModel {
        self.move_to(self.file_pos(idx)).ensure_visible()
    }

    pub open spec fn enter_file_view(self) -> AppModel {
        let fi = match self.item_at(self.cursor as int) {
            Some(KindModel::File(i)) => Some(i),
            Some(KindModel::HunkHeader(i, _)) => Some(i),
            Some(KindModel::HunkLine(i, _, _)) => Some(i),
            _ => None,
        };
        match fi {
            Some(i) => if self.files[i].hunks.len() == 0 {
                self
            } else {
                AppModel {
                    file_view: Some(
                        FileViewState {
                            file_idx: i as usize,
                            line_cursor: 0,
                            scroll_offset: 0,
                            viewport_height: 0,
                        },
                    ),
                    ..self
                }
            },
            None => self,
        }
    }

    pub open spec fn exit_file_view(self) -> AppModel {
        match self.file_view {
            Some(fv) => AppModel { file_view: None, ..self }.jump_to_file(fv.file_idx as int),
            None => self,
        }
    }

    pub open spec fn with_line_cursor(self, lc: int) -> AppModel {
        match self.file_view {
            Some(fv) => AppModel {
                file_view: Some(FileViewState { line_cursor: lc as usize, ..fv }),
                ..self
            },
            None => self,
        }
    }

    pub open spec fn fv_total(self) -> int {
        match self.file_view {
            Some(fv) => fv_lines(self.files[fv.file_idx as int].hunks).len() as int,
            None => 0,
        }
    }

    pub open spec fn file_view_up(self) -> AppModel {
        match self.file_view {
            Some(fv) => self.with_line_cursor(sat_sub(fv.line_cursor as int, 1)),
            None => self,
        }
    }

    pub open spec fn file_view_down(self) -> AppModel {
        match self.file_view {
            Some(fv) => if fv.line_cursor + 1 < self.fv_total() {
                self.with_line_cursor(fv.line_cursor + 1)
            } else {
                self
            },
            None => self,
        }
    }

    pub open spec fn file_view_half_page_up(self) -> AppModel {
        match self.file_view {
            Some(fv) => self.with_line_cursor(sat_sub(fv.line_cursor as int, half_page(fv.viewport_height))),
            None => self,
        }
    }

    pub open spec fn file_view_half_page_down(self) -> AppModel {
        match self.file_view {
            Some(fv) => {
                let a = fv.line_cursor + half_page(fv.viewport_height);
                let b = sat_sub(self.fv_total(), 1);
                self.with_line_cursor(
                    if a <= b {
                        a
                    } else {
                        b
                    },
                )
            },
            None => self,
        }
    }

    pub open spec fn file_view_toggle(self) -> AppModel {
        match self.file_view {
            Some(fv) => {
                let fi = fv.file_idx as int;
                let lines = fv_lines(self.files[fi].hunks);
                if fv.line_cursor < lines.len() {
                    let hi = match lines[fv.line_cursor as int] {
                        FileViewLine::HunkHeader(h) => h,
                        FileViewLine::HunkLine(h, _) => h,
                    };
                    let m = AppModel { files: self.files.update(fi, flip_hunk(self.files[fi], hi as int)), ..self };
                    let total = m.fv_total();
                    if fv.line_cursor >= total {
                        m.with_line_cursor(sat_sub(total, 1))
                    } else {
                        m
                    }
                } else {
                    self
                }
            },
            None => self,
        }
    }

    pub open spec fn file_view_toggle_and_advance(self) -> AppModel {
        self.file_view_toggle().file_view_down()
    }

    pub open spec fn toggle_wrap(self) -> AppModel {
        let count = self.spec_visible().len() as int;
        let s = self.scroll_offset;
        AppModel {
            scroll_anchor: if self.geometry_valid(count) {
                match last_where(self.item_ys, rel(Rel::Le, s)) {
                    Some(i) => Some(i as usize),
                    None => Some(self.cursor),
                }
            } else {
                Some(self.cursor)
            },
            wrap: !self.wrap,
            item_ys: Seq::empty(),
            rendered_height: 0,
            ..self
        }
    }
}

fn contains_string(v: &Vec<String>, s: &String) -> (r: bool)
    ensures
        r == strings_set(v@).contains(s@),
{
    let mut k: usize = 0;
    while k < v.len()
        invariant
            k <= v@.len(),
            forall|i: int| 0 <= i < k ==> #[trigger] v@[i]@ != s@,
        decreases v.len() - k,
    {
        if v[k] == *s {
            assert(strings_set(v@).contains(s@)) by {
                assert(v@[k as int]@ == s@);
            }
            return true;
        }
        k += 1;
    }
    assert(!strings_set(v@).contains(s@)) by {
        if strings_set(v@).contains(s@) {
            let k = choose|k: int| 0 <= k < v@.len() && #[trigger] v@[k]@ == s@;
            assert(v@[k]@ != s@);
        }
    }
    false
}

pub proof fn lemma_strings_set_push(v: Seq<String>, s: String)
    ensures
        strings_set(v.push(s)) == strings_set(v).insert(s@),
{
    assert forall|p: Seq<char>| strings_set(v.push(s)).contains(p) <==> strings_set(v).insert(s@).contains(p) by {
        if strings_set(v.push(s)).contains(p) {
            let k = choose|k: int| 0 <= k < v.push(s).len() && #[trigger] v.push(s)[k]@ == p;
            if k < v.len() {
                assert(v[k]@ == p);
            }
        }
        if strings_set(v).contains(p) {
            let k = choose|k: int| 0 <= k < v.len() && #[trigger] v[k]@ == p;
            assert(v.push(s)[k]@ == p);
        }
        if p == s@ {
            assert(v.push(s)[v.len() as int]@ == p);
        }
    }
    assert(strings_set(v.push(s)) =~= strings_set(v).insert(s@));
}

/// Number of items the files can show at most, with no folders.
pub open spec fn files_size(fs: Seq<FileModel>) -> nat
    decreases fs.len(),
{
    if fs.len() == 0 {
        0
    } else {
        files_size(fs.drop_last()) + 1 + hunks_size(fs.last().hunks)
    }
}

/// Files a review can hold: item counts far from the end of `usize`, and
/// paths the matcher can take.
pub open spec fn files_fit(fs: Seq<FileModel>) -> bool {
    &&& files_size(fs) <= row_limit()
    &&& forall|i: int| 0 <= i < fs.len() ==> choice_fits(#[trigger] fs[i].rel_path.len())
}

/// The review state right after loading `fs`.
pub open spec fn initial_model(fs: Seq<FileModel>) -> AppModel {
    AppModel {
        files: fs,
        stacks: Seq::new(fs.len(), |i: int| Seq::<Seq<char>>::empty()),
        folded: Seq::empty(),
        folded_files: Set::new(|i: usize| i < fs.len() && folded_by_default(fs[i as int])),
        cursor: 0,
        scroll_offset: 0,
        viewport_height: 0,
        wrap: true,
        item_ys: Seq::empty(),
        rendered_height: 0,
        scroll_anchor: None,
        should_exit: false,
        show_help: false,
        show_file_list: false,
        file_list_query: Seq::empty(),
        file_list_cursor: 0,
        file_view: None,
        case: CaseMatching::Smart,
    }
}

proof fn lemma_initial_size(m: AppModel, n: nat)
    requires
        n <= m.files.len(),
        m.stacks.len() == m.files.len(),
        forall|i: int| 0 <= i < m.stacks.len() ==> #[trigger] m.stacks[i].len() == 0,
    ensures
        m.size_upto(n) == files_size(m.files.take(n as int)),
    decreases n,
{
    if n > 0 {
        lemma_initial_size(m, (n - 1) as nat);
        assert(m.files.take(n as int).drop_last() =~= m.files.take(n - 1));
    }
}

impl App {
    pub fn new(files: Vec<FileEntry>) -> (r: Self)
        requires
            files_fit(crate::parser::files_view(files@)),
        ensures
            r@ == initial_model(crate::parser::files_view(files@)),
            r@.wf(),
    {
        let mut folded_files: HashSet<usize> = HashSet::new();
        let mut idx: usize = 0;
        while idx < files.len()
            invariant
                idx <= files@.len(),
                folded_files@ == Set::new(
                    |i: usize| i < idx && folded_by_default(files@[i as int]@),
                ),
            decreases files.len() - idx,
        {
            let file = &files[idx];
            if ends_with(file.rel_path.as_str(), ".lock") || file.status == FileStatus::Deleted
                || file.binary {
                folded_files.insert(idx);
            }
            proof {
                assert(folded_files@ =~= Set::new(
                    |i: usize| i < idx + 1 && folded_by_default(files@[i as int]@),
                ));
            }
            idx += 1;
        }
        let merged_folder_stacks = compute_merged_folder_stacks(&files);
        let r = Self {
            files,
            merged_folder_stacks,
            folded: Vec::new(),
            folded_files,
            cursor: 0,
            scroll_offset: 0,
            viewport_height: 0,
            wrap: true,
            item_ys: Vec::new(),
            rendered_height: 0,
            scroll_anchor: None,
            should_exit: false,
            show_help: false,
            show_file_list: false,
            file_list_query: String::new(),
            file_list_cursor: 0,
            file_view: None,
            matcher: ArinaeMatcher::new(CaseMatching::Smart),
        };
        proof {
            let fs = crate::parser::files_view(r.files@);
            assert(r@.stacks =~= Seq::new(fs.len(), |i: int| Seq::<Seq<char>>::empty())) by {
                assert forall|i: int| 0 <= i < fs.len() implies r@.stacks[i] =~= Seq::<Seq<char>>::empty() by {
                    assert(r.merged_folder_stacks@[i]@.len() == 0);
                }
            }
            assert(r@.folded_files =~= Set::new(|i: usize| i < fs.len() && folded_by_default(fs[i as int])));
            assert(r@.folded =~= Seq::<Seq<char>>::empty());
            lemma_initial_size(r@, fs.len());
            assert(fs.take(fs.len() as int) =~= fs);
        }
        r
    }

    /// Emit the folder items of file `idx`; returns whether a folded folder
    /// hides the file.
    fn push_folders(&self, idx: usize, emitted: &mut Vec<String>, items: &mut Vec<VisibleItem>) -> (hidden: bool)
        requires
            self@.wf(),
            idx < self.files@.len(),
        ensures
            ({
                let w = folder_walk(
                    self@.stacks[idx as int],
                    self@.folded_set(),
                    strings_set(old(emitted)@),
                    self@.stacks[idx as int].len(),
                );
                &&& items_view(final(items)@) == items_view(old(items)@) + w.0
                &&& strings_set(final(emitted)@) == w.1
                &&& hidden == w.2
            }),
    {
        let stack = &self.merged_folder_stacks[idx];
        let ghost st = self@.stacks[idx as int];
        assert(st == stack@.map_values(|p: String| p@));
        let ghost items0 = items@;
        let ghost em0 = strings_set(emitted@);
        let mut hidden = false;
        let mut depth: usize = 0;
        while depth < stack.len() && !hidden
            invariant
                st == stack@.map_values(|p: String| p@),
                depth <= stack@.len(),
                self@.folded == crate::parser::strings_view(self.folded@),
                ({
                    let w = folder_walk(st, self@.folded_set(), em0, depth as nat);
                    &&& items_view(items@) == items_view(items0) + w.0
                    &&& strings_set(emitted@) == w.1
                    &&& hidden == w.2
                }),
            decreases stack.len() - depth,
        {
            let path = &stack[depth];
            let ghost w = folder_walk(st, self@.folded_set(), em0, depth as nat);
            assert(st[depth as int] == path@);
            if !contains_string(emitted, path) {
                let ghost e0 = emitted@;
                emitted.push(path.clone());
                proof {
                    lemma_strings_set_push(e0, *path);
                }
                let ghost i0 = items@;
                items.push(VisibleItem { kind: VisibleKind::Folder(path.clone()), depth });
                assert(items_view(items@) =~= items_view(i0).push(
                    ItemModel { kind: KindModel::Folder(path@), depth: depth as int },
                ));
            }
            let f = contains_string(&self.folded, path);
            proof {
                lemma_strings_set_view(self.folded@);
            }
            if f {
                hidden = true;
            }
            depth += 1;
        }
        proof {
            if depth < stack@.len() {
                lemma_walk_hidden(st, self@.folded_set(), em0, depth as nat, st.len());
            }
        }
        hidden
    }

    /// Emit hunk headers and lines of file `idx` at depth `d`.
    fn push_hunks(&self, idx: usize, d: usize, items: &mut Vec<VisibleItem>)
        requires
            idx < self.files@.len(),
        ensures
            items_view(final(items)@) == items_view(old(items)@) + hunk_items(
                idx as int,
                self@.files[idx as int].hunks,
                d as int,
            ),
    {
        let file = &self.files[idx];
        let ghost hs = self@.files[idx as int].hunks;
        let ghost items0 = items@;
        let mut hunk_idx: usize = 0;
        while hunk_idx < file.hunks.len()
            invariant
                hs == crate::parser::hunks_view(file.hunks@),
                hunk_idx <= file.hunks@.len(),
                items_view(items@) == items_view(items0) + hunk_items(idx as int, hs.take(hunk_idx as int), d as int),
            decreases file.hunks.len() - hunk_idx,
        {
            let hunk = &file.hunks[hunk_idx];
            let ghost before = items@;
            items.push(VisibleItem { kind: VisibleKind::HunkHeader(idx, hunk_idx), depth: d });
            if !hunk.confirmed {
                let mut line_idx: usize = 0;
                while line_idx < hunk.lines.len()
                    invariant
                        line_idx <= hunk.lines@.len(),
                        items_view(items@) == items_view(before) + seq![
                            ItemModel { kind: KindModel::HunkHeader(idx as int, hunk_idx as int), depth: d as int },
                        ] + Seq::new(
                            line_idx as nat,
                            |l: int| ItemModel { kind: KindModel::HunkLine(idx as int, hunk_idx as int, l), depth: d as int },
                        ),
                    decreases hunk.lines.len() - line_idx,
                {
                    let ghost b2 = items@;
                    items.push(VisibleItem { kind: VisibleKind::HunkLine(idx, hunk_idx, line_idx), depth: d });
                    assert(items_view(items@) =~= items_view(before) + seq![
                        ItemModel { kind: KindModel::HunkHeader(idx as int, hunk_idx as int), depth: d as int },
                    ] + Seq::new(
                        (line_idx + 1) as nat,
                        |l: int| ItemModel { kind: KindModel::HunkLine(idx as int, hunk_idx as int, l), depth: d as int },
                    )) by {
                        assert(items_view(items@) =~= items_view(b2).push(
                            ItemModel { kind: KindModel::HunkLine(idx as int, hunk_idx as int, line_idx as int), depth: d as int },
                        ));
                    }
                    line_idx += 1;
                }
            } else {
                assert(items_view(items@) =~= items_view(before) + seq![
                    ItemModel { kind: KindModel::HunkHeader(idx as int, hunk_idx as int), depth: d as int },
                ] + Seq::new(
                    0,
                    |l: int| ItemModel { kind: KindModel::HunkLine(idx as int, hunk_idx as int, l), depth: d as int },
                ));
            }
            proof {
                let t = hs.take(hunk_idx + 1);
                assert(t.drop_last() =~= hs.take(hunk_idx as int));
                assert(t.last() == hunk@);
                assert(items_view(items@) =~= items_view(items0) + hunk_items(idx as int, t, d as int));
            }
            hunk_idx += 1;
        }
        assert(hs.take(file.hunks.len() as int) =~= hs);
    }

    /// Build flat visible-items list: folders, files, hunk headers, hunk
    /// lines. Files folded or fully confirmed hide their hunks, confirmed
    /// hunks hide their lines, folded folders hide their files.
    pub fn visible_items(&self) -> (r: Vec<VisibleItem>)
        requires
            self@.wf(),
        ensures
            items_view(r@) == self@.spec_visible(),
    {
        let mut items: Vec<VisibleItem> = Vec::new();
        let mut emitted: Vec<String> = Vec::new();
        let mut file_idx: usize = 0;
        assert(strings_set(emitted@) =~= Set::<Seq<char>>::empty());
        while file_idx < self.files.len()
            invariant
                self@.wf(),
                file_idx <= self.files@.len(),
                items_view(items@) == self@.visible_upto(file_idx as nat).0,
                strings_set(emitted@) == self@.visible_upto(file_idx as nat).1,
            decreases self.files.len() - file_idx,
        {
            let hidden = self.push_folders(file_idx, &mut emitted, &mut items);
            if !hidden {
                let file_depth = self.merged_folder_stacks[file_idx].len();
                assert(file_depth == self@.stacks[file_idx as int].len());
                proof {
                    self@.lemma_stack_small(file_idx as int);
                }
                let ghost before = items@;
                items.push(VisibleItem { kind: VisibleKind::File(file_idx), depth: file_depth });
                assert(items_view(items@) =~= items_view(before).push(
                    ItemModel { kind: KindModel::File(file_idx as int), depth: file_depth as int },
                ));
                let file_folded = self.folded_files.contains(&file_idx) || self.files[file_idx].all_confirmed();
                if !file_folded {
                    self.push_hunks(file_idx, file_depth + 1, &mut items);
                } else {
                    assert(items_view(items@) =~= items_view(items@) + Seq::<ItemModel>::empty());
                }
            }
            file_idx += 1;
        }
        items
    }

    /// Items that the cursor can land on (folders, files, hunk headers — not hunk lines).
    pub fn cursor_targets(&self) -> (r: Vec<usize>)
        requires
            self@.wf(),
        ensures
            r@ == self@.spec_cursor_targets(),
    {
        let items = self.visible_items();
        targets_of(&items)
    }
}

pub proof fn lemma_strings_set_view(v: Seq<String>)
    ensures
        strings_set(v) == Set::new(|p: Seq<char>| crate::parser::strings_view(v).contains(p)),
{
    let w = crate::parser::strings_view(v);
    assert forall|p: Seq<char>| strings_set(v).contains(p) <==> w.contains(p) by {
        if strings_set(v).contains(p) {
            let k = choose|k: int| 0 <= k < v.len() && #[trigger] v[k]@ == p;
            assert(w[k] == p);
        }
        if w.contains(p) {
            let k = choose|k: int| 0 <= k < w.len() && w[k] == p;
            assert(v[k]@ == p);
        }
    }
    assert(strings_set(v) =~= Set::new(|p: Seq<char>| w.contains(p)));
}

impl AppModel {
    proof fn lemma_size_upto_mono(self, a: nat, b: nat)
        requires
            a <= b <= self.files.len(),
        ensures
            self.size_upto(a) <= self.size_upto(b),
        decreases b,
    {
        if a < b {
            self.lemma_size_upto_mono(a, (b - 1) as nat);
        }
    }

    /// Every folder stack is far shorter than `usize::MAX`.
    pub proof fn lemma_stack_small(self, i: int)
        requires
            self.wf(),
            0 <= i < self.files.len(),
        ensures
            self.stacks[i].len() < row_limit(),
    {
        self.lemma_size_upto_mono((i + 1) as nat, self.files.len());
    }
}

fn targets_of(items: &Vec<VisibleItem>) -> (r: Vec<usize>)
    ensures
        r@ == spec_targets(items_view(items@)),
{
    let mut r: Vec<usize> = Vec::new();
    let mut i: usize = 0;
    while i < items.len()
        invariant
            i <= items@.len(),
            r@ == spec_targets(items_view(items@).take(i as int)),
        decreases items.len() - i,
    {
        proof {
            assert(items_view(items@).take(i + 1).drop_last() =~= items_view(items@).take(i as int));
        }
        match &items[i].kind {
            VisibleKind::HunkLine(_, _, _) => {},
            _ => {
                r.push(i);
            },
        }
        i += 1;
    }
    assert(items_view(items@).take(items.len() as int) =~= items_view(items@));
    r
}

pub proof fn lemma_walk_hidden(
    stack: Seq<Seq<char>>,
    folded: Set<Seq<char>>,
    emitted: Set<Seq<char>>,
    k: nat,
    k2: nat,
)
    requires
        k <= k2,
        folder_walk(stack, folded, emitted, k).2,
    ensures
        folder_walk(stack, folded, emitted, k2) == folder_walk(stack, folded, emitted, k),
    decreases k2 - k,
{
    if k < k2 {
        lemma_walk_hidden(stack, folded, emitted, k, (k2 - 1) as nat);
    }
}

impl AppModel {
    /// The item refers to a file, hunk or line that exists.
    pub open spec fn kind_valid(self, k: KindModel) -> bool {
        match k {
            KindModel::Folder(_) => true,
            KindModel::File(i) => 0 <= i < self.files.len(),
            KindModel::HunkHeader(i, h) => 0 <= i < self.files.len() && 0 <= h < self.files[i].hunks.len(),
            KindModel::HunkLine(i, h, l) => 0 <= i < self.files.len() && 0 <= h
                < self.files[i].hunks.len() && 0 <= l < self.files[i].hunks[h].lines.len(),
        }
    }

    pub open spec fn items_valid(self, items: Seq<ItemModel>) -> bool {
        forall|k: int| 0 <= k < items.len() ==> self.kind_valid(#[trigger] items[k].kind)
    }

    proof fn lemma_hunk_items(self, idx: int, n: nat, d: int)
        requires
            0 <= idx < self.files.len(),
            n <= self.files[idx].hunks.len(),
        ensures
            self.items_valid(hunk_items(idx, self.files[idx].hunks.take(n as int), d)),
            hunk_items(idx, self.files[idx].hunks.take(n as int), d).len() <= hunks_size(
                self.files[idx].hunks.take(n as int),
            ),
        decreases n,
    {
        let hs = self.files[idx].hunks.take(n as int);
        if n > 0 {
            self.lemma_hunk_items(idx, (n - 1) as nat, d);
            assert(hs.drop_last() =~= self.files[idx].hunks.take(n - 1));
            let a = hunk_items(idx, hs.drop_last(), d);
            let items = hunk_items(idx, hs, d);
            assert forall|k: int| 0 <= k < items.len() implies self.kind_valid(#[trigger] items[k].kind) by {
                if k < a.len() {
                    assert(items[k] == a[k]);
                }
            }
        }
    }

    /// Every visible item exists, and there are at most `size()` of them.
    pub proof fn lemma_visible_valid(self, n: nat)
        requires
            self.stacks.len() == self.files.len(),
            n <= self.files.len(),
        ensures
            self.items_valid(self.visible_upto(n).0),
            self.visible_upto(n).0.len() <= self.size_upto(n),
        decreases n,
    {
        if n > 0 {
            self.lemma_visible_valid((n - 1) as nat);
            let idx = n - 1;
            let (items, em) = self.visible_upto((n - 1) as nat);
            let stack = self.stacks[idx];
            let w = folder_walk(stack, self.folded_set(), em, stack.len());
            lemma_walk_len(stack, self.folded_set(), em, stack.len());
            let items2 = items + w.0;
            assert(self.items_valid(items2)) by {
                assert forall|k: int| 0 <= k < items2.len() implies self.kind_valid(#[trigger] items2[k].kind) by {
                    if k < items.len() {
                        assert(items2[k] == items[k]);
                    } else {
                        assert(items2[k] == w.0[k - items.len()]);
                    }
                }
            }
            if !w.2 {
                let d = stack.len() as int;
                let f = items2.push(ItemModel { kind: KindModel::File(idx), depth: d });
                let h = if self.file_folded(idx) {
                    Seq::empty()
                } else {
                    hunk_items(idx, self.files[idx].hunks, d + 1)
                };
                self.lemma_hunk_items(idx, self.files[idx].hunks.len(), d + 1);
                assert(self.files[idx].hunks.take(self.files[idx].hunks.len() as int) =~= self.files[idx].hunks);
                let all = f + h;
                assert forall|k: int| 0 <= k < all.len() implies self.kind_valid(#[trigger] all[k].kind) by {
                    if k < items2.len() {
                        assert(all[k] == items2[k]);
                    } else if k == items2.len() {
                    } else {
                        assert(all[k] == h[k - f.len()]);
                    }
                }
            }
        }
    }
}

/// A folder walk emits at most one folder item per stack entry.
pub proof fn lemma_walk_len(stack: Seq<Seq<char>>, folded: Set<Seq<char>>, emitted: Set<Seq<char>>, k: nat)
    ensures
        folder_walk(stack, folded, emitted, k).0.len() <= k,
        forall|j: int|
            0 <= j < folder_walk(stack, folded, emitted, k).0.len() ==> (#[trigger] folder_walk(
                stack,
                folded,
                emitted,
                k,
            ).0[j]).kind is Folder,
    decreases k,
{
    if k > 0 {
        lemma_walk_len(stack, folded, emitted, (k - 1) as nat);
    }
}

/// Estimated rows grow by at most three per item and never go backwards.
pub proof fn lemma_ys_walk(files: Seq<FileModel>, folded_files: Set<usize>, items: Seq<ItemModel>, n: nat)
    requires
        n <= items.len(),
    ensures
        ys_walk(files, folded_files, items, n).0.len() == n,
        0 <= ys_walk(files, folded_files, items, n).1 <= 3 * n,
        forall|k: int|
            0 <= k < n ==> 0 <= #[trigger] ys_walk(files, folded_files, items, n).0[k] < ys_walk(
                files,
                folded_files,
                items,
                n,
            ).1,
    decreases n,
{
    if n > 0 {
        lemma_ys_walk(files, folded_files, items, (n - 1) as nat);
    }
}

/// Scroll offset that keeps row `cursor_y` inside a `vh`-tall viewport,
/// with a quarter-viewport margin above and below.
pub fn scroll_for_cursor(cursor_y: usize, scroll: usize, vh: usize) -> (r: usize)
    requires
        cursor_y + vh / 4 + 1 <= usize::MAX,
        scroll + vh <= usize::MAX,
    ensures
        r == spec_scroll_for_cursor(cursor_y as int, scroll as int, vh as int),
{
    let margin = vh / 4;
    if cursor_y < scroll + margin {
        cursor_y.saturating_sub(margin)
    } else if cursor_y + margin >= scroll + vh {
        (cursor_y + margin + 1).saturating_sub(vh)
    } else {
        scroll
    }
}

impl AppModel {
    /// Rows are in range: at most three per item, or what the renderer
    /// published.
    pub proof fn lemma_rows(self)
        requires
            self.wf(),
        ensures
            self.spec_visible().len() <= row_limit(),
            self.items_valid(self.spec_visible()),
            self.item_y_positions().len() == self.spec_visible().len(),
            forall|k: int|
                0 <= k < self.item_y_positions().len() ==> 0 <= #[trigger] self.item_y_positions()[k] <= 3
                    * row_limit(),
            0 <= self.total_rendered_height() <= 3 * row_limit() + 2,
            0 <= self.max_scroll() <= 3 * row_limit() + 2,
    {
        self.lemma_visible_valid(self.files.len());
        let vis = self.spec_visible();
        lemma_ys_walk(self.files, self.folded_files, vis, vis.len());
    }
}

impl App {
    /// True when the cached geometry still describes the current item list.
    fn geometry_valid(&self, item_count: usize) -> (r: bool)
        ensures
            r == self@.geometry_valid(item_count as int),
    {
        !self.item_ys.is_empty() && self.item_ys.len() == item_count
    }

    /// Row of each visible item in the rendered output. Uses the geometry the
    /// renderer published last frame; before the first frame (and right after
    /// a state change that adds or removes items) it falls back to an estimate
    /// that assumes one row per line: each file contributes a top-border row
    /// (the file row itself), an optional info line for binary / mode-only
    /// files, and a bottom-border row after its children.
    pub fn item_y_positions(&self) -> (r: Vec<usize>)
        requires
            self@.wf(),
        ensures
            crate::fuzzy::helpers::usizes_as_ints(r@) == self@.item_y_positions(),
    {
        let items = self.visible_items();
        if self.geometry_valid(items.len()) {
            let r = self.item_ys.clone();
            assert(r@ =~= self.item_ys@);
            return r;
        }
        self.estimate_rows(&items).0
    }

    /// The one-row-per-line estimate: each item's row and the next free row.
    fn estimate_rows(&self, items: &Vec<VisibleItem>) -> (r: (Vec<usize>, usize))
        requires
            self@.wf(),
            items_view(items@) == self@.spec_visible(),
        ensures
            crate::fuzzy::helpers::usizes_as_ints(r.0@) == self@.ys_walk(self@.spec_visible(), self@.spec_visible().len()).0,
            r.1 == self@.ys_walk(self@.spec_visible(), self@.spec_visible().len()).1,
    {
        let ghost vis = self@.spec_visible();
        proof {
            self@.lemma_rows();
        }
        let mut ys: Vec<usize> = Vec::new();
        let mut y: usize = 0;
        let mut last_was_file = false;
        let mut i: usize = 0;
        while i < items.len()
            invariant
                items_view(items@) == vis,
                vis.len() <= row_limit(),
                self@.items_valid(vis),
                i <= items@.len(),
                crate::fuzzy::helpers::usizes_as_ints(ys@) == ys_walk(self@.files, self@.folded_files, vis, i as nat).0,
                y == ys_walk(self@.files, self@.folded_files, vis, i as nat).1,
                last_was_file == ys_walk(self@.files, self@.folded_files, vis, i as nat).2,
            decreases items.len() - i,
        {
            proof {
                lemma_ys_walk(self@.files, self@.folded_files, vis, i as nat);
                assert(self@.kind_valid(vis[i as int].kind));
            }
            let ghost ys0 = ys@;
            match &items[i].kind {
                VisibleKind::File(idx) => {
                    if last_was_file {
                        y += 1;
                    }
                    ys.push(y);
                    y += 1;
                    let file = &self.files[*idx];
                    if file.hunks.len() == 0 && !self.folded_files.contains(idx) && !file.all_confirmed() {
                        y += 1;
                    }
                    last_was_file = true;
                },
                VisibleKind::HunkHeader(_, _) | VisibleKind::HunkLine(_, _, _) => {
                    ys.push(y);
                    y += 1;
                },
                VisibleKind::Folder(_) => {
                    if last_was_file {
                        y += 1;
                    }
                    ys.push(y);
                    y += 1;
                    last_was_file = false;
                },
            }
            assert(crate::fuzzy::helpers::usizes_as_ints(ys@) =~= ys_walk(
                self@.files,
                self@.folded_files,
                vis,
                (i + 1) as nat,
            ).0);
            i += 1;
        }
        (ys, y)
    }

    /// Total height of the rendered main view in rows.
    pub fn total_rendered_height(&self) -> (r: usize)
        requires
            self@.wf(),
        ensures
            r == self@.total_rendered_height(),
    {
        proof {
            self@.lemma_rows();
        }
        let items = self.visible_items();
        if self.rendered_height > 0 && self.geometry_valid(items.len()) {
            return self.rendered_height;
        }
        if items.len() == 0 {
            return 0;
        }
        proof {
            lemma_ys_walk(self@.files, self@.folded_files, self@.spec_visible(), self@.spec_visible().len());
        }
        let (_, end) = self.estimate_rows(&items);
        end + 1
    }

    /// Rows of the main view at `width` columns: where each visible item
    /// starts and the total; `None` when the total passes the row limit.
    pub fn main_view_rows(&self, width: u16) -> (r: Option<(Vec<usize>, usize)>)
        requires
            self@.wf(),
        ensures
            r is Some <==> self@.spec_layout(width as int).1 <= row_limit(),
            r matches Some((ys, t)) ==> crate::fuzzy::helpers::usizes_as_ints(ys@) == self@.spec_layout(
                width as int,
            ).0 && t == self@.spec_layout(width as int).1,
    {
        let items = self.visible_items();
        let ghost vis = self@.spec_visible();
        let ghost fs = self@.files;
        let ghost ff = self@.folded_files;
        let ghost wr = self@.wrap;
        let ghost w = width as int;
        proof {
            self@.lemma_rows();
            assert forall|k: int| 0 <= k < vis.len() implies #[trigger] vis[k].depth >= 0 by {
                assert(vis[k] == items@[k]@);
            }
        }
        let mut ys: Vec<usize> = Vec::new();
        let mut rows: usize = 0;
        let mut open: usize = 0;
        let mut i: usize = 0;
        while i < items.len()
            invariant
                items_view(items@) == vis,
                vis == self@.spec_visible(),
                fs == self@.files,
                ff == self@.folded_files,
                wr == self@.wrap,
                w == width as int,
                self@.wf(),
                vis.len() <= row_limit(),
                self@.items_valid(vis),
                forall|k: int| 0 <= k < vis.len() ==> #[trigger] vis[k].depth >= 0,
                i <= items@.len(),
                crate::fuzzy::helpers::usizes_as_ints(ys@) == layout_walk(fs, ff, wr, w, vis, i as nat).0,
                rows == layout_walk(fs, ff, wr, w, vis, i as nat).1,
                open == layout_walk(fs, ff, wr, w, vis, i as nat).2,
                rows + open <= row_limit(),
            decreases items.len() - i,
        {
            proof {
                assert(self@.kind_valid(vis[i as int].kind));
                assert(vis[i as int] == items@[i as int]@);
            }
            match self.layout_item(&items[i], rows, open, width) {
                None => {
                    proof {
                        lemma_layout_mono(fs, ff, wr, w, vis, (i + 1) as nat, vis.len());
                    }
                    return None;
                },
                Some((y, r2, o2)) => {
                    ys.push(y);
                    rows = r2;
                    open = o2;
                },
            }
            assert(crate::fuzzy::helpers::usizes_as_ints(ys@) =~= layout_walk(fs, ff, wr, w, vis, (i + 1) as nat).0);
            i += 1;
        }
        Some((ys, rows + open))
    }

    /// The rows of the main view at `width` columns, in order; `None` when
    /// they pass the row limit.
    pub fn main_view_plan(&self, width: u16) -> (r: Option<Vec<RowPlan>>)
        requires
            self@.wf(),
        ensures
            r is Some <==> self@.spec_layout(width as int).1 <= row_limit(),
            r matches Some(v) ==> v@ == self@.spec_main_plan(width as int),
    {
        let items = self.visible_items();
        let ghost vis = self@.spec_visible();
        let ghost fs = self@.files;
        let ghost ff = self@.folded_files;
        let ghost wr = self@.wrap;
        let ghost w = width as int;
        proof {
            self@.lemma_rows();
            assert forall|k: int| 0 <= k < vis.len() implies #[trigger] vis[k].depth >= 0 by {
                assert(vis[k] == items@[k]@);
            }
        }
        let mut plan: Vec<RowPlan> = Vec::new();
        let mut rows: usize = 0;
        let mut open: usize = 0;
        let mut i: usize = 0;
        while i < items.len()
            invariant
                items_view(items@) == vis,
                vis == self@.spec_visible(),
                fs == self@.files,
                ff == self@.folded_files,
                wr == self@.wrap,
                w == width as int,
                self@.wf(),
                vis.len() <= row_limit(),
                self@.items_valid(vis),
                forall|k: int| 0 <= k < vis.len() ==> #[trigger] vis[k].depth >= 0,
                i <= items@.len(),
                plan@ == plan_walk(fs, ff, wr, w, vis, i as nat).0,
                open == plan_walk(fs, ff, wr, w, vis, i as nat).1,
                rows == layout_walk(fs, ff, wr, w, vis, i as nat).1,
                open == layout_walk(fs, ff, wr, w, vis, i as nat).2,
                rows + open <= row_limit(),
            decreases items.len() - i,
        {
            proof {
                assert(self@.kind_valid(vis[i as int].kind));
                assert(vis[i as int] == items@[i as int]@);
                lemma_plan_walk(fs, ff, wr, w, vis, i as nat);
            }
            let ghost p0 = plan@;
            match self.layout_item(&items[i], rows, open, width) {
                None => {
                    proof {
                        lemma_layout_mono(fs, ff, wr, w, vis, (i + 1) as nat, vis.len());
                    }
                    return None;
                },
                Some((y, r2, o2)) => {
                    let ghost add = plan_step(fs, ff, wr, w, vis, i as int, open as int).0;
                    match &items[i].kind {
                        VisibleKind::Folder(_) | VisibleKind::File(_) => {
                            let mut c: usize = rows;
                            while c < y
                                invariant
                                    rows <= c <= y,
                                    plan@ == p0 + bottoms(c - rows),
                                decreases y - c,
                            {
                                plan.push(RowPlan::Bottom);
                                assert(plan@ =~= p0 + bottoms(c + 1 - rows));
                                c += 1;
                            }
                            plan.push(RowPlan::Top(i));
                            if r2 - y == 2 {
                                match &items[i].kind {
                                    VisibleKind::File(idx) => plan.push(RowPlan::Info(*idx)),
                                    _ => {},
                                }
                            }
                        },
                        VisibleKind::HunkHeader(_, _) => {
                            plan.push(RowPlan::Header(i));
                        },
                        VisibleKind::HunkLine(_, _, _) => {
                            let mut c: usize = 0;
                            while c < r2 - rows
                                invariant
                                    rows <= r2,
                                    c <= r2 - rows,
                                    plan@ == p0 + Seq::new(c as nat, |j: int| RowPlan::Line(i, j as usize)),
                                decreases r2 - rows - c,
                            {
                                plan.push(RowPlan::Line(i, c));
                                assert(plan@ =~= p0 + Seq::new((c + 1) as nat, |j: int| RowPlan::Line(i, j as usize)));
                                c += 1;
                            }
                        },
                    }
                    assert(plan@ =~= p0 + add);
                    rows = r2;
                    open = o2;
                },
            }
            i += 1;
        }
        let ghost p1 = plan@;
        let mut c: usize = 0;
        while c < open
            invariant
                c <= open,
                plan@ == p1 + bottoms(c as int),
            decreases open - c,
        {
            plan.push(RowPlan::Bottom);
            assert(plan@ =~= p1 + bottoms(c + 1));
            c += 1;
        }
        Some(plan)
    }

    /// One layout step for `item`, or `None` when its rows pass the limit.
    fn layout_item(&self, item: &VisibleItem, rows: usize, open: usize, width: u16) -> (r: Option<(usize, usize, usize)>)
        requires
            self@.wf(),
            self@.kind_valid(item@.kind),
            rows + open <= row_limit(),
        ensures
            ({
                let st = layout_step(self@.files, self@.folded_files, self@.wrap, width as int, item@, rows as int, open as int);
                &&& r is Some <==> st.1 + st.2 <= row_limit()
                &&& r matches Some((y, r2, o2)) ==> y == st.0 && r2 == st.1 && o2 == st.2
            }),
    {
        let ghost st = layout_step(self@.files, self@.folded_files, self@.wrap, width as int, item@, rows as int, open as int);
        proof {
            lemma_layout_step(self@.files, self@.folded_files, self@.wrap, width as int, item@, rows as int, open as int);
        }
        let limit = usize::MAX / 8;
        let depth = item.depth;
        let closes: usize = if open > depth {
            open - depth
        } else {
            0
        };
        let (y, r2, o2) = match &item.kind {
            VisibleKind::File(idx) => {
                let y = rows + closes;
                let file = &self.files[*idx];
                assert(self@.files[*idx as int] == self.files@[*idx as int]@);
                let info: usize = if file.hunks.len() == 0 && !self.folded_files.contains(idx) && !file.all_confirmed() {
                    1
                } else {
                    0
                };
                (y, y + 1 + info, open - closes + 1)
            },
            VisibleKind::Folder(_) => {
                let y = rows + closes;
                (y, y + 1, open - closes + 1)
            },
            VisibleKind::HunkHeader(_, _) => (rows, rows + 1, open),
            VisibleKind::HunkLine(fi, hi, li) => {
                let fi = *fi;
                let hi = *hi;
                let li = *li;
                assert(self@.files[fi as int] == self.files@[fi as int]@);
                assert(self@.files[fi as int].hunks[hi as int] == self.files@[fi as int].hunks@[hi as int]@);
                assert(self@.files[fi as int].hunks[hi as int].lines[li as int]
                    == self.files@[fi as int].hunks@[hi as int].lines@[li as int]@);
                let inner: usize = if open <= (width as usize) / 2 {
                    width as usize - 2 * open
                } else {
                    0
                };
                assert(inner as int == inner_width(width as int, open as int));
                let lr = crate::display::line_rows(&self.files[fi].hunks[hi].lines[li], self.wrap, inner);
                if lr > limit - rows - open {
                    return None;
                }
                (rows, rows + lr, open)
            },
        };
        if r2 + o2 > limit {
            return None;
        }
        Some((y, r2, o2))
    }

    /// Lay out one frame of the main view in a `width` by `height` area and
    /// publish its geometry; false when the layout passes the row limit.
    pub fn frame_main_view(&mut self, width: u16, height: u16) -> (r: bool)
        requires
            old(self)@.wf(),
        ensures
            final(self)@ == old(self)@.spec_frame_main_view(width as int, height),
            final(self)@.wf(),
            r == (old(self)@.spec_visible().len() == 0 || old(self)@.spec_layout(width as int).1 <= row_limit()),
    {
        let ghost m0 = self@;
        self.viewport_height = height;
        assert(self@ == (AppModel { viewport_height: height, ..m0 }));
        let n = self.visible_items().len();
        if n == 0 {
            self.item_ys = Vec::new();
            self.rendered_height = 0;
            assert(self@.item_ys =~= Seq::<usize>::empty());
            return true;
        }
        proof {
            assert(self@.spec_visible() == m0.spec_visible());
            assert(self@.spec_layout(width as int) == m0.spec_layout(width as int));
        }
        let laid = self.main_view_rows(width);
        match laid {
            None => false,
            Some((ys, total)) => {
                let ghost lay = m0.spec_layout(width as int);
                proof {
                    let vis = m0.spec_visible();
                    lemma_layout_walk(m0.files, m0.folded_files, m0.wrap, width as int, vis, vis.len());
                    assert(ys@ =~= lay.0.map_values(|y: int| y as usize));
                }
                let mut scroll = self.scroll_offset;
                match self.scroll_anchor {
                    Some(a) => {
                        if a < ys.len() {
                            scroll = ys[a];
                        }
                    },
                    None => {},
                }
                let cap = total.saturating_sub(height as usize);
                if scroll > cap {
                    scroll = cap;
                }
                self.item_ys = ys;
                self.rendered_height = total;
                self.scroll_offset = scroll;
                self.scroll_anchor = None;
                true
            },
        }
    }

    /// Lay out one frame of the file view in a `width` by `height` area:
    /// settle its viewport, line cursor and scroll offset, and give the row
    /// each line starts on with the total rows (`None` when the view is
    /// empty, the rows pass the row limit, or the offset is out of range).
    #[verifier::rlimit(50)]
    pub fn frame_file_view(&mut self, width: u16, height: u16) -> (r: Option<(Vec<usize>, usize)>)
        requires
            old(self)@.wf(),
            old(self)@.file_view is Some,
        ensures
            final(self)@ == old(self)@.spec_frame_file_view(width as int, height),
            final(self)@.wf(),
            r is Some <==> ({
                let fv = old(self)@.file_view->Some_0;
                &&& fv_lines(old(self)@.files[fv.file_idx as int].hunks).len() > 0
                &&& old(self)@.spec_file_view_rows(width as int).1 <= row_limit()
                &&& fv.scroll_offset <= usize::MAX / 2
            }),
            r matches Some((st, t)) ==> crate::fuzzy::helpers::usizes_as_ints(st@) == old(self)@.spec_file_view_rows(
                width as int,
            ).0 && t == old(self)@.spec_file_view_rows(width as int).1,
    {
        let ghost m0 = self@;
        let (file_idx, lc0, prev) = match &self.file_view {
            Some(fv) => (fv.file_idx, fv.line_cursor, fv.scroll_offset),
            None => {
                return None;
            },
        };
        let lines = self.file_view_lines(file_idx);
        let ghost hs = m0.files[file_idx as int].hunks;
        proof {
            self@.lemma_file_size(file_idx as int);
            lemma_fv_lines(hs);
            lemma_fv_row_walk(hs, m0.wrap, width as int, lines@, lines@.len());
        }
        let total = lines.len();
        let lc = if lc0 >= total {
            total.saturating_sub(1)
        } else {
            lc0
        };
        let mut fv1 = FileViewState { file_idx, line_cursor: lc, scroll_offset: prev, viewport_height: height };
        if total == 0 {
            self.file_view = Some(fv1);
            assert(self@ == (AppModel { file_view: Some(fv1), ..m0 }));
            return None;
        }
        let laid = self.file_view_row_starts(file_idx, &lines, width);
        let (starts, rows) = match laid {
            None => {
                self.file_view = Some(fv1);
            assert(self@ == (AppModel { file_view: Some(fv1), ..m0 }));
                return None;
            },
            Some(x) => x,
        };
        if prev > usize::MAX / 2 {
            self.file_view = Some(fv1);
            assert(self@ == (AppModel { file_view: Some(fv1), ..m0 }));
            return None;
        }
        proof {
            assert(starts@[lc as int] as int == fv_row_walk(hs, m0.wrap, width as int, lines@, total as nat).0[lc as int]);
        }
        let start = starts[lc];
        let end = if lc + 1 < total {
            assert(starts@[lc + 1] as int == fv_row_walk(hs, m0.wrap, width as int, lines@, total as nat).0[lc + 1]);
            starts[lc + 1]
        } else {
            rows
        };
        let sc = crate::display::file_view_scroll(start, end, prev, height as usize, rows);
        fv1.scroll_offset = sc;
        self.file_view = Some(fv1);
        assert(self@ == (AppModel { file_view: Some(fv1), ..m0 }));
            assert(self@ == (AppModel { file_view: Some(fv1), ..m0 }));
        Some((starts, rows))
    }

    /// Row each file-view line of file `file_idx` starts on, and the total
    /// rows; `None` when the total passes the row limit.
    fn file_view_row_starts(&self, file_idx: usize, lines: &Vec<FileViewLine>, width: u16) -> (r: Option<(Vec<usize>, usize)>)
        requires
            self@.wf(),
            file_idx < self@.files.len(),
            lines@ == fv_lines(self@.files[file_idx as int].hunks),
        ensures
            ({
                let hs = self@.files[file_idx as int].hunks;
                let w = fv_row_walk(hs, self@.wrap, width as int, lines@, lines@.len());
                &&& r is Some <==> w.1 <= row_limit()
                &&& r matches Some((st, t)) ==> crate::fuzzy::helpers::usizes_as_ints(st@) == w.0 && t == w.1
            }),
    {
        let ghost m0 = self@;
        let ghost hs = m0.files[file_idx as int].hunks;
        proof {
            self@.lemma_file_size(file_idx as int);
            lemma_fv_lines(hs);
        }
        let total = lines.len();
        let limit = usize::MAX / 8;
        let mut starts: Vec<usize> = Vec::new();
        let mut rows: usize = 0;
        let mut i: usize = 0;
        while i < total
            invariant
                lines@ == fv_lines(hs),
                hs == m0.files[file_idx as int].hunks,
                m0 == self@,
                file_idx < m0.files.len(),
                m0.wf(),
                total == lines@.len(),
                limit == row_limit(),
                i <= total,
                forall|k: int|
                    0 <= k < lines@.len() ==> match #[trigger] lines@[k] {
                        FileViewLine::HunkHeader(h) => h < hs.len(),
                        FileViewLine::HunkLine(h, l) => h < hs.len() && l < hs[h as int].lines.len(),
                    },
                crate::fuzzy::helpers::usizes_as_ints(starts@) == fv_row_walk(hs, m0.wrap, width as int, lines@, i as nat).0,
                rows == fv_row_walk(hs, m0.wrap, width as int, lines@, i as nat).1,
                rows <= limit,
            decreases total - i,
        {
            let lr: usize = match lines[i] {
                FileViewLine::HunkHeader(_) => 1,
                FileViewLine::HunkLine(h, l) => {
                    assert(m0.files[file_idx as int] == self.files@[file_idx as int]@);
                    assert(hs[h as int] == self.files@[file_idx as int].hunks@[h as int]@);
                    assert(hs[h as int].lines[l as int] == self.files@[file_idx as int].hunks@[h as int].lines@[l as int]@);
                    crate::display::line_rows(&self.files[file_idx].hunks[h].lines[l], self.wrap, width as usize)
                },
            };
            starts.push(rows);
            assert(crate::fuzzy::helpers::usizes_as_ints(starts@) =~= fv_row_walk(hs, m0.wrap, width as int, lines@, (i + 1) as nat).0);
            if lr > limit - rows {
                proof {
                    lemma_fv_row_mono(hs, m0.wrap, width as int, lines@, (i + 1) as nat, lines@.len());
                }
                return None;
            }
            rows = rows + lr;
            i += 1;
        }
        Some((starts, rows))
    }

    fn max_scroll(&self) -> (r: usize)
        requires
            self@.wf(),
        ensures
            r == self@.max_scroll(),
    {
        self.total_rendered_height().saturating_sub(self.viewport_height as usize)
    }

    /// Adjust scroll_offset so the cursor sits within the viewport.
    pub fn ensure_cursor_visible(&mut self)
        requires
            old(self)@.wf(),
        ensures
            final(self)@ == old(self)@.ensure_visible(),
            final(self)@.wf(),
    {
        if self.viewport_height == 0 {
            return;
        }
        let ys = self.item_y_positions();
        if self.cursor >= ys.len() {
            return;
        }
        proof {
            self@.lemma_rows();
        }
        let cursor_y = ys[self.cursor];
        assert(cursor_y as int == self@.item_y_positions()[self.cursor as int]);
        let max = self.max_scroll();
        let s = scroll_for_cursor(cursor_y, self.scroll_offset, self.viewport_height as usize);
        self.scroll_offset = if s > max {
            max
        } else {
            s
        };
    }
}

fn holds(op: Rel, t: usize, x: usize) -> (r: bool)
    ensures
        r == rel(op, x)(t),
{
    match op {
        Rel::Eq => t == x,
        Rel::Le => t <= x,
        Rel::Lt => t < x,
        Rel::Ge => t >= x,
        Rel::Gt => t > x,
    }
}

/// First index whose element satisfies `<op> x`.
fn first_index(v: &Vec<usize>, op: Rel, x: usize) -> (r: Option<usize>)
    ensures
        match r {
            Some(i) => first_where(v@, rel(op, x)) == Some(i as int),
            None => first_where(v@, rel(op, x)) is None,
        },
        r matches Some(i) ==> i < v@.len(),
{
    let mut r: Option<usize> = None;
    let mut i: usize = 0;
    while i < v.len()
        invariant
            i <= v@.len(),
            match r {
                Some(k) => first_where(v@.take(i as int), rel(op, x)) == Some(k as int),
                None => first_where(v@.take(i as int), rel(op, x)) is None,
            },
        decreases v.len() - i,
    {
        assert(v@.take(i + 1).drop_last() =~= v@.take(i as int));
        if r.is_none() && holds(op, v[i], x) {
            r = Some(i);
        }
        i += 1;
    }
    assert(v@.take(v.len() as int) =~= v@);
    proof {
        lemma_first_where_some(v@, rel(op, x));
    }
    r
}

/// Last index whose element satisfies `<op> x`.
fn last_index(v: &Vec<usize>, op: Rel, x: usize) -> (r: Option<usize>)
    ensures
        match r {
            Some(i) => last_where(v@, rel(op, x)) == Some(i as int),
            None => last_where(v@, rel(op, x)) is None,
        },
        r matches Some(i) ==> i < v@.len(),
{
    let mut r: Option<usize> = None;
    let mut i: usize = 0;
    while i < v.len()
        invariant
            i <= v@.len(),
            match r {
                Some(k) => last_where(v@.take(i as int), rel(op, x)) == Some(k as int),
                None => last_where(v@.take(i as int), rel(op, x)) is None,
            },
        decreases v.len() - i,
    {
        assert(v@.take(i + 1).drop_last() =~= v@.take(i as int));
        if holds(op, v[i], x) {
            r = Some(i);
        }
        i += 1;
    }
    assert(v@.take(v.len() as int) =~= v@);
    proof {
        lemma_last_where_some(v@, rel(op, x));
    }
    r
}

fn abs_diff(a: usize, b: usize) -> (r: usize)
    ensures
        r == dist(a, b),
{
    if a <= b {
        b - a
    } else {
        a - b
    }
}

/// Positions of the file items.
fn file_positions_of(items: &Vec<VisibleItem>) -> (r: Vec<usize>)
    ensures
        r@ == file_positions(items_view(items@)),
{
    let mut r: Vec<usize> = Vec::new();
    let mut i: usize = 0;
    while i < items.len()
        invariant
            i <= items@.len(),
            r@ == file_positions(items_view(items@).take(i as int)),
        decreases items.len() - i,
    {
        proof {
            assert(items_view(items@).take(i + 1).drop_last() =~= items_view(items@).take(i as int));
        }
        match &items[i].kind {
            VisibleKind::File(_) => {
                r.push(i);
            },
            _ => {},
        }
        i += 1;
    }
    assert(items_view(items@).take(items.len() as int) =~= items_view(items@));
    r
}

/// Position of the file item of file `file_idx`.
fn find_file(items: &Vec<VisibleItem>, file_idx: usize) -> (r: Option<usize>)
    ensures
        match r {
            Some(i) => first_where(items_view(items@), kind_is(KindModel::File(file_idx as int))) == Some(
                i as int,
            ),
            None => first_where(items_view(items@), kind_is(KindModel::File(file_idx as int))) is None,
        },
{
    let ghost f = kind_is(KindModel::File(file_idx as int));
    let mut r: Option<usize> = None;
    let mut i: usize = 0;
    while i < items.len()
        invariant
            f == kind_is(KindModel::File(file_idx as int)),
            i <= items@.len(),
            match r {
                Some(k) => first_where(items_view(items@).take(i as int), f) == Some(k as int),
                None => first_where(items_view(items@).take(i as int), f) is None,
            },
        decreases items.len() - i,
    {
        assert(items_view(items@).take(i + 1).drop_last() =~= items_view(items@).take(i as int));
        let hit = match &items[i].kind {
            VisibleKind::File(fi) => *fi == file_idx,
            _ => false,
        };
        if r.is_none() && hit {
            r = Some(i);
        }
        i += 1;
    }
    assert(items_view(items@).take(items.len() as int) =~= items_view(items@));
    r
}

/// Position of the folder item for `path`.
fn find_folder(items: &Vec<VisibleItem>, path: &String) -> (r: Option<usize>)
    ensures
        match r {
            Some(i) => first_where(items_view(items@), kind_is(KindModel::Folder(path@))) == Some(i as int),
            None => first_where(items_view(items@), kind_is(KindModel::Folder(path@))) is None,
        },
{
    let ghost f = kind_is(KindModel::Folder(path@));
    let mut r: Option<usize> = None;
    let mut i: usize = 0;
    while i < items.len()
        invariant
            f == kind_is(KindModel::Folder(path@)),
            i <= items@.len(),
            match r {
                Some(k) => first_where(items_view(items@).take(i as int), f) == Some(k as int),
                None => first_where(items_view(items@).take(i as int), f) is None,
            },
        decreases items.len() - i,
    {
        assert(items_view(items@).take(i + 1).drop_last() =~= items_view(items@).take(i as int));
        let hit = match &items[i].kind {
            VisibleKind::Folder(p) => *p == *path,
            _ => false,
        };
        if r.is_none() && hit {
            r = Some(i);
        }
        i += 1;
    }
    assert(items_view(items@).take(items.len() as int) =~= items_view(items@));
    r
}

impl App {
    /// Clamp cursor to valid target after state changes.
    fn clamp_cursor(&mut self)
        requires
            old(self)@.wf(),
        ensures
            final(self)@ == old(self)@.clamp(),
            final(self)@.wf(),
    {
        let targets = self.cursor_targets();
        if targets.len() == 0 {
            self.cursor = 0;
            return;
        }
        proof {
            self@.lemma_rows();
            lemma_targets_bound(self@.spec_visible());
        }
        let c = self.cursor;
        let mut best = targets[0];
        let mut i: usize = 1;
        assert(targets@.take(1).drop_last().len() == 0);
        while i < targets.len()
            invariant
                1 <= i <= targets@.len(),
                best == nearest(targets@.take(i as int), c),
            decreases targets.len() - i,
        {
            assert(targets@.take(i + 1).drop_last() =~= targets@.take(i as int));
            let t = targets[i];
            if abs_diff(t, c) < abs_diff(best, c) {
                best = t;
            }
            i += 1;
        }
        assert(targets@.take(targets.len() as int) =~= targets@);
        self.cursor = best;
        proof {
            lemma_nearest_in(targets@, c);
        }
    }

    /// Up arrow: if previous cursor target is visible, move cursor to it;
    /// otherwise scroll the viewport up by a half-page (cursor unchanged).
    pub fn cursor_up(&mut self)
        requires
            old(self)@.wf(),
        ensures
            final(self)@ == old(self)@.cursor_up(),
            final(self)@.wf(),
    {
        let targets = self.cursor_targets();
        if targets.len() == 0 {
            return;
        }
        proof {
            self@.lemma_rows();
            lemma_targets_bound(self@.spec_visible());
        }
        if self.viewport_height == 0 {
            let idx = match last_index(&targets, Rel::Le, self.cursor) {
                Some(i) => i,
                None => 0,
            };
            if idx > 0 {
                self.cursor = targets[idx - 1];
            }
            return;
        }
        let ys = self.item_y_positions();
        let cursor_idx = first_index(&targets, Rel::Eq, self.cursor);
        if let Some(i) = cursor_idx {
            if i > 0 {
                let prev_target = targets[i - 1];
                let prev_y = ys[prev_target];
                assert(prev_y as int == self@.item_y_positions()[prev_target as int]);
                let scroll = self.scroll_offset;
                if prev_y >= scroll && prev_y < scroll + self.viewport_height as usize {
                    self.cursor = prev_target;
                    return;
                }
            }
        }
        let step = if self.viewport_height / 2 >= 1 {
            (self.viewport_height / 2) as usize
        } else {
            1
        };
        self.scroll_offset = self.scroll_offset.saturating_sub(step);
    }

    /// Down arrow: if next cursor target is visible, move cursor to it;
    /// otherwise scroll the viewport down by a half-page (cursor unchanged).
    pub fn cursor_down(&mut self)
        requires
            old(self)@.wf(),
        ensures
            final(self)@ == old(self)@.cursor_down(),
            final(self)@.wf(),
    {
        let targets = self.cursor_targets();
        if targets.len() == 0 {
            return;
        }
        proof {
            self@.lemma_rows();
            lemma_targets_bound(self@.spec_visible());
        }
        if self.viewport_height == 0 {
            let idx = match first_index(&targets, Rel::Ge, self.cursor) {
                Some(i) => i,
                None => targets.len() - 1,
            };
            if idx + 1 < targets.len() {
                self.cursor = targets[idx + 1];
            }
            return;
        }
        let ys = self.item_y_positions();
        let cursor_idx = first_index(&targets, Rel::Eq, self.cursor);
        if let Some(i) = cursor_idx {
            if i + 1 < targets.len() {
                let next_target = targets[i + 1];
                let next_y = ys[next_target];
                assert(next_y as int == self@.item_y_positions()[next_target as int]);
                let scroll = self.scroll_offset;
                if next_y >= scroll && next_y < scroll + self.viewport_height as usize {
                    self.cursor = next_target;
                    return;
                }
            }
        }
        let step = if self.viewport_height / 2 >= 1 {
            (self.viewport_height / 2) as usize
        } else {
            1
        };
        let max = self.max_scroll();
        let s = self.scroll_offset + step;
        self.scroll_offset = if s <= max {
            s
        } else {
            max
        };
    }

    /// Mouse wheel: scroll one line up. Cursor unchanged.
    pub fn scroll_line_up(&mut self)
        requires
            old(self)@.wf(),
        ensures
            final(self)@ == old(self)@.scroll_line_up(),
            final(self)@.wf(),
    {
        self.scroll_offset = self.scroll_offset.saturating_sub(1);
    }

    /// Mouse wheel: scroll one line down. Cursor unchanged.
    pub fn scroll_line_down(&mut self)
        requires
            old(self)@.wf(),
        ensures
            final(self)@ == old(self)@.scroll_line_down(),
            final(self)@.wf(),
    {
        if self.viewport_height == 0 {
            return;
        }
        proof {
            self@.lemma_rows();
        }
        let max = self.max_scroll();
        if self.scroll_offset < max {
            self.scroll_offset += 1;
        }
    }

    /// Jump to previous file header.
    pub fn prev_file(&mut self)
        requires
            old(self)@.wf(),
        ensures
            final(self)@ == old(self)@.prev_file(),
            final(self)@.wf(),
    {
        let items = self.visible_items();
        let file_positions = file_positions_of(&items);
        if file_positions.len() == 0 {
            return;
        }
        proof {
            self@.lemma_rows();
            lemma_file_positions_bound(self@.spec_visible());
        }
        let current = match last_index(&file_positions, Rel::Lt, self.cursor) {
            Some(i) => i,
            None => file_positions.len() - 1,
        };
        self.cursor = file_positions[current];
        self.ensure_cursor_visible();
    }

    /// Jump to next file header.
    pub fn next_file(&mut self)
        requires
            old(self)@.wf(),
        ensures
            final(self)@ == old(self)@.next_file(),
            final(self)@.wf(),
    {
        let items = self.visible_items();
        let file_positions = file_positions_of(&items);
        if file_positions.len() == 0 {
            return;
        }
        proof {
            self@.lemma_rows();
            lemma_file_positions_bound(self@.spec_visible());
        }
        let current = match first_index(&file_positions, Rel::Gt, self.cursor) {
            Some(i) => i,
            None => 0,
        };
        self.cursor = file_positions[current];
        self.ensure_cursor_visible();
    }

    pub fn jump_to_file(&mut self, file_idx: usize)
        requires
            old(self)@.wf(),
        ensures
            final(self)@ == old(self)@.jump_to_file(file_idx as int),
            final(self)@.wf(),
    {
        let items = self.visible_items();
        proof {
            self@.lemma_rows();
        }
        if let Some(pos) = find_file(&items, file_idx) {
            proof {
                lemma_first_where_some(items_view(items@), kind_is(KindModel::File(file_idx as int)));
            }
            self.cursor = pos;
        }
        self.ensure_cursor_visible();
    }
}

/// Targets are positions of items.
pub proof fn lemma_targets_bound(items: Seq<ItemModel>)
    ensures
        forall|k: int| 0 <= k < spec_targets(items).len() ==> #[trigger] spec_targets(items)[k] < items.len(),
        spec_targets(items).len() <= items.len(),
    decreases items.len(),
{
    if items.len() > 0 {
        lemma_targets_bound(items.drop_last());
    }
}

pub proof fn lemma_file_positions_bound(items: Seq<ItemModel>)
    ensures
        forall|k: int|
            0 <= k < file_positions(items).len() ==> #[trigger] file_positions(items)[k] < items.len(),
        file_positions(items).len() <= items.len(),
    decreases items.len(),
{
    if items.len() > 0 {
        lemma_file_positions_bound(items.drop_last());
    }
}

pub proof fn lemma_first_where_some<A>(s: Seq<A>, f: spec_fn(A) -> bool)
    ensures
        first_where(s, f) matches Some(i) ==> 0 <= i < s.len() && f(s[i]),
        first_where(s, f) is None ==> forall|k: int| 0 <= k < s.len() ==> !f(#[trigger] s[k]),
    decreases s.len(),
{
    if s.len() > 0 {
        lemma_first_where_some(s.drop_last(), f);
        assert forall|k: int| 0 <= k < s.len() - 1 implies s.drop_last()[k] == s[k] by {}
    }
}

pub proof fn lemma_last_where_some<A>(s: Seq<A>, f: spec_fn(A) -> bool)
    ensures
        last_where(s, f) matches Some(i) ==> 0 <= i < s.len() && f(s[i]),
        last_where(s, f) is None ==> forall|k: int| 0 <= k < s.len() ==> !f(#[trigger] s[k]),
    decreases s.len(),
{
    if s.len() > 0 {
        lemma_last_where_some(s.drop_last(), f);
        assert forall|k: int| 0 <= k < s.len() - 1 implies s.drop_last()[k] == s[k] by {}
    }
}

/// The nearest element is one of the elements.
pub proof fn lemma_nearest_in(ts: Seq<usize>, c: usize)
    requires
        ts.len() > 0,
    ensures
        exists|k: int| 0 <= k < ts.len() && ts[k] == nearest(ts, c),
    decreases ts.len(),
{
    if ts.len() > 1 {
        lemma_nearest_in(ts.drop_last(), c);
        let k = choose|k: int| 0 <= k < ts.drop_last().len() && ts.drop_last()[k] == nearest(ts.drop_last(), c);
        assert(ts[k] == ts.drop_last()[k]);
        assert(ts[ts.len() - 1] == ts.last());
    } else {
        assert(ts[0] == nearest(ts, c));
    }
}

impl App {
    /// Set the confirmation of hunk `hi` of file `fi`.
    fn set_hunk(&mut self, fi: usize, hi: usize, state: bool)
        requires
            fi < old(self).files@.len(),
            hi < old(self).files@[fi as int].hunks@.len(),
        ensures
            final(self)@ == (AppModel {
                files: old(self)@.files.update(
                    fi as int,
                    FileModel {
                        hunks: old(self)@.files[fi as int].hunks.update(
                            hi as int,
                            HunkModel { confirmed: state, ..old(self)@.files[fi as int].hunks[hi as int] },
                        ),
                        ..old(self)@.files[fi as int]
                    },
                ),
                ..old(self)@
            }),
    {
        self.files[fi].hunks[hi].confirmed = state;
        proof {
            assert(crate::parser::hunks_view(self.files@[fi as int].hunks@) =~= old(self)@.files[fi as int].hunks.update(
                hi as int,
                HunkModel { confirmed: state, ..old(self)@.files[fi as int].hunks[hi as int] },
            ));
            assert(self@.files =~= old(self)@.files.update(
                fi as int,
                FileModel {
                    hunks: old(self)@.files[fi as int].hunks.update(
                        hi as int,
                        HunkModel { confirmed: state, ..old(self)@.files[fi as int].hunks[hi as int] },
                    ),
                    ..old(self)@.files[fi as int]
                },
            ));
        }
    }
}

/// Two file lists with the same paths, hunks and line counts.
pub open spec fn same_shape(a: Seq<FileModel>, b: Seq<FileModel>) -> bool {
    &&& a.len() == b.len()
    &&& forall|i: int|
        0 <= i < a.len() ==> {
            &&& (#[trigger] a[i]).rel_path == b[i].rel_path
            &&& a[i].hunks.len() == b[i].hunks.len()
            &&& forall|k: int| 0 <= k < a[i].hunks.len() ==> (#[trigger] a[i].hunks[k]).lines.len() == b[i].hunks[k].lines.len()
        }
}

proof fn lemma_hunks_size_same(a: Seq<HunkModel>, b: Seq<HunkModel>)
    requires
        a.len() == b.len(),
        forall|k: int| 0 <= k < a.len() ==> (#[trigger] a[k]).lines.len() == b[k].lines.len(),
    ensures
        hunks_size(a) == hunks_size(b),
    decreases a.len(),
{
    if a.len() > 0 {
        assert forall|k: int| 0 <= k < a.drop_last().len() implies (#[trigger] a.drop_last()[k]).lines.len()
            == b.drop_last()[k].lines.len() by {
            assert(a.drop_last()[k] == a[k]);
            assert(b.drop_last()[k] == b[k]);
        }
        lemma_hunks_size_same(a.drop_last(), b.drop_last());
    }
}

proof fn lemma_size_same(a: Seq<FileModel>, b: Seq<FileModel>, stacks: Seq<Seq<Seq<char>>>, n: nat)
    requires
        same_shape(a, b),
        n <= a.len(),
    ensures
        size_upto(a, stacks, n) == size_upto(b, stacks, n),
    decreases n,
{
    if n > 0 {
        lemma_size_same(a, b, stacks, (n - 1) as nat);
        let i = n - 1;
        assert(a[i].hunks.len() == b[i].hunks.len());
        lemma_hunks_size_same(a[i].hunks, b[i].hunks);
    }
}

impl AppModel {
    /// Changing which units are confirmed keeps the state well formed.
    pub proof fn lemma_reshape(self, files: Seq<FileModel>)
        requires
            self.wf(),
            same_shape(self.files, files),
        ensures
            (AppModel { files, ..self }).wf(),
    {
        lemma_size_same(self.files, files, self.stacks, self.files.len());
        let m = AppModel { files, ..self };
        assert forall|i: int| 0 <= i < m.files.len() implies choice_fits(#[trigger] m.files[i].rel_path.len()) by {
            assert(self.files[i].rel_path == files[i].rel_path);
        }
    }
}

impl App {
    fn toggle_file(&mut self, idx: usize, state: bool)
        requires
            old(self)@.wf(),
            idx < old(self)@.files.len(),
        ensures
            final(self)@ == (AppModel {
                files: old(self)@.files.update(idx as int, set_file_confirmed(old(self)@.files[idx as int], state)),
                ..old(self)@
            }),
            final(self)@.wf(),
    {
        let ghost m0 = self@;
        let ghost f0 = self@.files[idx as int];
        let n = self.files[idx].hunks.len();
        if n == 0 {
            self.files[idx].confirmed = state;
            assert(self@.files =~= m0.files.update(idx as int, set_file_confirmed(f0, state)));
        } else {
            let mut k: usize = 0;
            assert(Seq::new(
                n as nat,
                |j: int| if j < 0 {
                    HunkModel { confirmed: state, ..f0.hunks[j] }
                } else {
                    f0.hunks[j]
                },
            ) =~= f0.hunks);
            assert(m0.files.update(idx as int, FileModel { hunks: f0.hunks, ..f0 }) =~= m0.files);
            while k < n
                invariant
                    n == f0.hunks.len(),
                    k <= n,
                    idx < m0.files.len(),
                    self.files@.len() == m0.files.len(),
                    self.files@[idx as int].hunks@.len() == n,
                    self@ == (AppModel {
                        files: m0.files.update(
                            idx as int,
                            FileModel {
                                hunks: Seq::new(
                                    n as nat,
                                    |j: int| if j < k {
                                        HunkModel { confirmed: state, ..f0.hunks[j] }
                                    } else {
                                        f0.hunks[j]
                                    },
                                ),
                                ..f0
                            },
                        ),
                        ..m0
                    }),
                decreases n - k,
            {
                self.set_hunk(idx, k, state);
                assert(self@.files[idx as int].hunks =~= Seq::new(
                    n as nat,
                    |j: int| if j < k + 1 {
                        HunkModel { confirmed: state, ..f0.hunks[j] }
                    } else {
                        f0.hunks[j]
                    },
                ));
                assert(self@.files =~= m0.files.update(
                    idx as int,
                    FileModel {
                        hunks: Seq::new(
                            n as nat,
                            |j: int| if j < k + 1 {
                                HunkModel { confirmed: state, ..f0.hunks[j] }
                            } else {
                                f0.hunks[j]
                            },
                        ),
                        ..f0
                    },
                ));
                k += 1;
            }
            assert(self@.files[idx as int].hunks =~= set_file_confirmed(f0, state).hunks);
            assert(self@.files =~= m0.files.update(idx as int, set_file_confirmed(f0, state)));
        }
        proof {
            m0.lemma_reshape(self@.files);
        }
    }

    fn invert_file(&mut self, idx: usize)
        requires
            old(self)@.wf(),
            idx < old(self)@.files.len(),
        ensures
            final(self)@ == (AppModel {
                files: old(self)@.files.update(idx as int, invert_file_model(old(self)@.files[idx as int])),
                ..old(self)@
            }),
            final(self)@.wf(),
    {
        let ghost m0 = self@;
        let ghost f0 = self@.files[idx as int];
        let n = self.files[idx].hunks.len();
        if n == 0 {
            self.files[idx].confirmed = !self.files[idx].confirmed;
            assert(self@.files =~= m0.files.update(idx as int, invert_file_model(f0)));
        } else {
            let mut k: usize = 0;
            assert(Seq::new(
                n as nat,
                |j: int| if j < 0 {
                    HunkModel { confirmed: !f0.hunks[j].confirmed, ..f0.hunks[j] }
                } else {
                    f0.hunks[j]
                },
            ) =~= f0.hunks);
            assert(m0.files.update(idx as int, FileModel { hunks: f0.hunks, ..f0 }) =~= m0.files);
            while k < n
                invariant
                    n == f0.hunks.len(),
                    k <= n,
                    idx < m0.files.len(),
                    self.files@.len() == m0.files.len(),
                    self.files@[idx as int].hunks@.len() == n,
                    self@ == (AppModel {
                        files: m0.files.update(
                            idx as int,
                            FileModel {
                                hunks: Seq::new(
                                    n as nat,
                                    |j: int| if j < k {
                                        HunkModel { confirmed: !f0.hunks[j].confirmed, ..f0.hunks[j] }
                                    } else {
                                        f0.hunks[j]
                                    },
                                ),
                                ..f0
                            },
                        ),
                        ..m0
                    }),
                decreases n - k,
            {
                let c = self.files[idx].hunks[k].confirmed;
                self.set_hunk(idx, k, !c);
                assert(self@.files[idx as int].hunks =~= Seq::new(
                    n as nat,
                    |j: int| if j < k + 1 {
                        HunkModel { confirmed: !f0.hunks[j].confirmed, ..f0.hunks[j] }
                    } else {
                        f0.hunks[j]
                    },
                ));
                assert(self@.files =~= m0.files.update(
                    idx as int,
                    FileModel {
                        hunks: Seq::new(
                            n as nat,
                            |j: int| if j < k + 1 {
                                HunkModel { confirmed: !f0.hunks[j].confirmed, ..f0.hunks[j] }
                            } else {
                                f0.hunks[j]
                            },
                        ),
                        ..f0
                    },
                ));
                k += 1;
            }
            assert(self@.files[idx as int].hunks =~= invert_file_model(f0).hunks);
            assert(self@.files =~= m0.files.update(idx as int, invert_file_model(f0)));
        }
        proof {
            m0.lemma_reshape(self@.files);
        }
    }
}

fn folder_prefix_of(path: &str) -> (r: String)
    ensures
        r@ == folder_prefix(path@),
{
    let mut s = String::new();
    push_str(&mut s, path);
    push_char(&mut s, '/');
    s
}

impl App {
    fn is_under(&self, i: usize, prefix: &String, Ghost(p): Ghost<Seq<char>>) -> (r: bool)
        requires
            i < self.files@.len(),
            prefix@ == folder_prefix(p),
        ensures
            r == self@.under_folder(p, i as int),
    {
        let cs = chars_of(self.files[i].rel_path.as_str());
        starts_with(cs.as_slice(), prefix.as_str())
    }

    fn files_under_folder(&self, folder_path: &str) -> (r: Vec<usize>)
        ensures
            forall|k: int| 0 <= k < r@.len() ==> #[trigger] r@[k] < self@.files.len() && self@.under_folder(folder_path@, r@[k] as int),
            forall|a: int, b: int| 0 <= a < b < r@.len() ==> #[trigger] r@[a] < #[trigger] r@[b],
            forall|i: int| 0 <= i < self@.files.len() && self@.under_folder(folder_path@, i) ==> r@.contains(i as usize),
    {
        let prefix = folder_prefix_of(folder_path);
        let mut r: Vec<usize> = Vec::new();
        let mut i: usize = 0;
        while i < self.files.len()
            invariant
                prefix@ == folder_prefix(folder_path@),
                i <= self.files@.len(),
                forall|k: int| 0 <= k < r@.len() ==> #[trigger] r@[k] < i && self@.under_folder(folder_path@, r@[k] as int),
                forall|a: int, b: int| 0 <= a < b < r@.len() ==> #[trigger] r@[a] < #[trigger] r@[b],
                forall|j: int| 0 <= j < i && self@.under_folder(folder_path@, j) ==> r@.contains(j as usize),
            decreases self.files.len() - i,
        {
            if self.is_under(i, &prefix, Ghost(folder_path@)) {
                let ghost r0 = r@;
                r.push(i);
                assert forall|j: int| 0 <= j < i + 1 && self@.under_folder(folder_path@, j) implies r@.contains(j as usize) by {
                    if j < i {
                        let k = choose|k: int| 0 <= k < r0.len() && r0[k] == j as usize;
                        assert(r@[k] == j as usize);
                    } else {
                        assert(r@[r0.len() as int] == i);
                    }
                }
            }
            i += 1;
        }
        r
    }

    /// Whether the folder holds files and all of them are confirmed.
    pub fn folder_all_confirmed(&self, folder_path: &str) -> (r: bool)
        ensures
            r == self@.folder_done(folder_path@),
    {
        let n = self.files.len();
        let indices = self.files_under_folder(folder_path);
        if indices.len() == 0 {
            assert forall|i: int| !(0 <= i < self@.files.len() && self@.under_folder(folder_path@, i)) by {
                if 0 <= i < self@.files.len() && self@.under_folder(folder_path@, i) {
                    assert(indices@.contains(i as usize));
                }
            }
            return false;
        }
        assert(self@.under_folder(folder_path@, indices@[0] as int));
        let mut k: usize = 0;
        while k < indices.len()
            invariant
                k <= indices@.len(),
                indices@.len() > 0,
                n == self@.files.len(),
                self@.under_folder(folder_path@, indices@[0] as int),
                forall|j: int| 0 <= j < indices@.len() ==> self@.under_folder(folder_path@, #[trigger] indices@[j] as int),
                forall|j: int| 0 <= j < indices@.len() ==> #[trigger] indices@[j] < self@.files.len(),
                forall|j: int| 0 <= j < k ==> #[trigger] self@.files[indices@[j] as int].all_confirmed(),
            decreases indices.len() - k,
        {
            if !self.files[indices[k]].all_confirmed() {
                assert(self@.under_folder(folder_path@, indices@[k as int] as int));
                return false;
            }
            k += 1;
        }
        assert forall|i: int| 0 <= i < self@.files.len() && self@.under_folder(folder_path@, i) implies #[trigger] self@.files[i].all_confirmed() by {
            assert(indices@.contains(i as usize));
            let j = choose|j: int| 0 <= j < indices@.len() && indices@[j] == i as usize;
            assert(self@.files[indices@[j] as int].all_confirmed());
            assert(indices@[j] as int == i);
        }
        true
    }

    /// Apply `invert_file` (or set confirmed, with `confirm`) to every file
    /// under folder `p`.
    fn update_under(&mut self, path: &String, op: Option<bool>)
        requires
            old(self)@.wf(),
        ensures
            final(self)@ == (AppModel {
                files: Seq::new(
                    old(self)@.files.len(),
                    |i: int| if old(self)@.under_folder(path@, i) {
                        update_file(old(self)@.files[i], op)
                    } else {
                        old(self)@.files[i]
                    },
                ),
                ..old(self)@
            }),
            final(self)@.wf(),
    {
        let ghost m0 = self@;
        let prefix = folder_prefix_of(path.as_str());
        let mut i: usize = 0;
        assert(Seq::new(
            m0.files.len(),
            |j: int| if j < 0 && m0.under_folder(path@, j) {
                update_file(m0.files[j], op)
            } else {
                m0.files[j]
            },
        ) =~= m0.files);
        while i < self.files.len()
            invariant
                prefix@ == folder_prefix(path@),
                i <= self.files@.len(),
                self@.wf(),
                self@ == (AppModel {
                    files: Seq::new(
                        m0.files.len(),
                        |j: int| if j < i && m0.under_folder(path@, j) {
                            update_file(m0.files[j], op)
                        } else {
                            m0.files[j]
                        },
                    ),
                    ..m0
                }),
            decreases self.files.len() - i,
        {
            assert(self@.files[i as int] == m0.files[i as int]);
            if self.is_under(i, &prefix, Ghost(path@)) {
                match op {
                    Some(state) => self.toggle_file(i, state),
                    None => self.invert_file(i),
                }
            }
            assert(self@.files =~= Seq::new(
                m0.files.len(),
                |j: int| if j < i + 1 && m0.under_folder(path@, j) {
                    update_file(m0.files[j], op)
                } else {
                    m0.files[j]
                },
            ));
            i += 1;
        }
        assert(self@.files =~= Seq::new(
            m0.files.len(),
            |j: int| if m0.under_folder(path@, j) {
                update_file(m0.files[j], op)
            } else {
                m0.files[j]
            },
        ));
    }

    /// Flip hunk `hi` of file `fi`.
    fn flip(&mut self, fi: usize, hi: usize)
        requires
            old(self)@.wf(),
            fi < old(self)@.files.len(),
            hi < old(self)@.files[fi as int].hunks.len(),
        ensures
            final(self)@ == (AppModel {
                files: old(self)@.files.update(fi as int, flip_hunk(old(self)@.files[fi as int], hi as int)),
                ..old(self)@
            }),
            final(self)@.wf(),
    {
        let ghost m0 = self@;
        let c = self.files[fi].hunks[hi].confirmed;
        self.set_hunk(fi, hi, !c);
        proof {
            m0.lemma_reshape(self@.files);
        }
    }

    fn invert_current(&mut self)
        requires
            old(self)@.wf(),
        ensures
            final(self)@ == old(self)@.invert_current(),
            final(self)@.wf(),
    {
        let ghost m0 = self@;
        let items = self.visible_items();
        proof {
            self@.lemma_rows();
        }
        if self.cursor < items.len() {
            let ghost k = items@[self.cursor as int].kind@;
            assert(m0.item_at(self.cursor as int) == Some(k));
            assert(self@.kind_valid(k));
            match &items[self.cursor].kind {
                VisibleKind::File(idx) => {
                    let idx = *idx;
                    assert(k == KindModel::File(idx as int));
                    self.invert_file(idx);
                    assert(self@ == m0.invert_current());
                },
                VisibleKind::Folder(path) => {
                    assert(k == KindModel::Folder(path@));
                    self.update_under(path, None);
                    assert(self@.files =~= m0.invert_current().files);
                },
                VisibleKind::HunkHeader(file_idx, hunk_idx) => {
                    let file_idx = *file_idx;
                    let hunk_idx = *hunk_idx;
                    assert(k == KindModel::HunkHeader(file_idx as int, hunk_idx as int));
                    if hunk_idx < self.files[file_idx].hunks.len() {
                        self.flip(file_idx, hunk_idx);
                        assert(self@ == m0.invert_current());
                    }
                },
                _ => {
                    assert(self@ == m0.invert_current());
                },
            }
        } else {
            assert(self@ == m0.invert_current());
        }
    }

    pub fn invert_confirmation(&mut self)
        requires
            old(self)@.wf(),
        ensures
            final(self)@ == old(self)@.invert_confirmation(),
            final(self)@.wf(),
    {
        self.invert_current();
        self.clamp_cursor();
        self.ensure_cursor_visible();
    }

    fn set_current(&mut self, state: bool)
        requires
            old(self)@.wf(),
        ensures
            final(self)@ == old(self)@.set_current(state),
            final(self)@.wf(),
    {
        let ghost m0 = self@;
        let items = self.visible_items();
        proof {
            self@.lemma_rows();
        }
        if self.cursor < items.len() {
            let ghost k = items@[self.cursor as int].kind@;
            assert(m0.item_at(self.cursor as int) == Some(k));
            assert(self@.kind_valid(k));
            match &items[self.cursor].kind {
                VisibleKind::File(idx) => {
                    let idx = *idx;
                    assert(k == KindModel::File(idx as int));
                    self.toggle_file(idx, state);
                    if state {
                        self.folded_files.insert(idx);
                    }
                },
                VisibleKind::Folder(path) => {
                    assert(k == KindModel::Folder(path@));
                    self.update_under(path, Some(state));
                    assert(self@.files =~= m0.set_current(state).files);
                    if state {
                        let present = contains_string(&self.folded, path);
                        proof {
                            lemma_strings_set_view(self.folded@);
                        }
                        if !present {
                            let ghost f0 = self.folded@;
                            self.folded.push(path.clone());
                            proof {
                                assert(crate::parser::strings_view(self.folded@) =~= crate::parser::strings_view(f0).push(path@));
                                lemma_push_no_dup(crate::parser::strings_view(f0), path@);
                            }
                        }
                    }
                },
                VisibleKind::HunkHeader(file_idx, hunk_idx) => {
                    let file_idx = *file_idx;
                    let hunk_idx = *hunk_idx;
                    assert(k == KindModel::HunkHeader(file_idx as int, hunk_idx as int));
                    if hunk_idx < self.files[file_idx].hunks.len() {
                        let ghost m1 = self@;
                        self.set_hunk(file_idx, hunk_idx, state);
                        proof {
                            m1.lemma_reshape(self@.files);
                        }
                    }
                },
                _ => {},
            }
        }
    }

    /// Whether the unit under the cursor counts as confirmed.
    fn current_confirmed(&self) -> (r: bool)
        requires
            self@.wf(),
        ensures
            r == self@.current_confirmed(),
    {
        let items = self.visible_items();
        proof {
            self@.lemma_rows();
        }
        if self.cursor >= items.len() {
            return false;
        }
        let ghost k = items@[self.cursor as int].kind@;
        assert(self@.item_at(self.cursor as int) == Some(k));
        assert(self@.kind_valid(k));
        match &items[self.cursor].kind {
            VisibleKind::File(idx) => {
                assert(k == KindModel::File(*idx as int));
                assert(self@.files[*idx as int] == self.files@[*idx as int]@);
                let r = self.files[*idx].all_confirmed();
                assert(r == self@.current_confirmed());
                r
            },
            VisibleKind::Folder(path) => {
                assert(k == KindModel::Folder(path@));
                let ps = path.as_str();
                assert(ps@ == path@);
                let r = self.folder_all_confirmed(ps);
                r
            },
            VisibleKind::HunkHeader(fi, hi) => {
                let fi = *fi;
                let hi = *hi;
                assert(k == KindModel::HunkHeader(fi as int, hi as int));
                assert(self@.files[fi as int] == self.files@[fi as int]@);
                if hi < self.files[fi].hunks.len() {
                    assert(self@.files[fi as int].hunks[hi as int] == self.files@[fi as int].hunks@[hi as int]@);
                    let r = self.files[fi].hunks[hi].confirmed;
                    assert(r == self@.current_confirmed());
                    r
                } else {
                    false
                }
            },
            VisibleKind::HunkLine(fi, hi, li) => {
                assert(k == KindModel::HunkLine(*fi as int, *hi as int, *li as int));
                false
            },
        }
    }

    /// Keep the file-search cursor on one of the `count` listed files: the
    /// last one when it is past the end. Returns the selected row.
    pub fn clamp_file_list_cursor(&mut self, count: usize) -> (r: Option<usize>)
        requires
            old(self)@.wf(),
        ensures
            final(self)@ == (AppModel {
                file_list_cursor: if count > 0 && old(self)@.file_list_cursor >= count {
                    (count - 1) as usize
                } else {
                    old(self)@.file_list_cursor
                },
                ..old(self)@
            }),
            final(self)@.wf(),
            r == (if count > 0 {
                Some(final(self)@.file_list_cursor)
            } else {
                None::<usize>
            }),
    {
        if count == 0 {
            return None;
        }
        if self.file_list_cursor >= count {
            self.file_list_cursor = count - 1;
        }
        Some(self.file_list_cursor)
    }

    /// Space: flip the confirmation of the file, folder or hunk under the
    /// cursor.
    pub fn toggle_confirmation(&mut self)
        requires
            old(self)@.wf(),
        ensures
            final(self)@ == old(self)@.toggle_confirmation(),
            final(self)@.wf(),
    {
        let state = !self.current_confirmed();
        self.set_current(state);
        self.clamp_cursor();
        self.ensure_cursor_visible();
    }

    /// Enter: flip the confirmation of the unit under the cursor, then move
    /// to the next target (staying on the last one at the end).
    pub fn confirm_and_advance(&mut self)
        requires
            old(self)@.wf(),
        ensures
            final(self)@ == old(self)@.confirm_and_advance(),
            final(self)@.wf(),
    {
        let c = self.cursor;
        let state = !self.current_confirmed();
        self.set_current(state);
        let new_targets = self.cursor_targets();
        if new_targets.len() == 0 {
            self.cursor = 0;
            return;
        }
        proof {
            self@.lemma_rows();
            lemma_targets_bound(self@.spec_visible());
        }
        match first_index(&new_targets, Rel::Gt, c) {
            Some(k) => {
                self.cursor = new_targets[k];
            },
            None => {
                self.cursor = new_targets[new_targets.len() - 1];
            },
        }
        self.ensure_cursor_visible();
    }
}

pub proof fn lemma_push_no_dup(s: Seq<Seq<char>>, p: Seq<char>)
    requires
        s.no_duplicates(),
        !s.contains(p),
    ensures
        s.push(p).no_duplicates(),
{
    assert forall|a: int, b: int| 0 <= a < s.push(p).len() && 0 <= b < s.push(p).len() && a != b implies s.push(p)[a]
        != s.push(p)[b] by {
        if a < s.len() && b < s.len() {
        } else if a < s.len() {
            assert(s.contains(s[a]));
        } else {
            assert(s.contains(s[b]));
        }
    }
}

pub proof fn lemma_first_where_prefix<A>(s: Seq<A>, n: int, f: spec_fn(A) -> bool)
    requires
        0 <= n <= s.len(),
        first_where(s.take(n), f) is Some,
    ensures
        first_where(s, f) == first_where(s.take(n), f),
    decreases s.len(),
{
    if n == s.len() {
        assert(s.take(n) =~= s);
    } else {
        assert(s.drop_last().take(n) =~= s.take(n));
        lemma_first_where_prefix(s.drop_last(), n, f);
    }
}

pub proof fn lemma_remove_no_dup(s: Seq<Seq<char>>, k: int)
    requires
        s.no_duplicates(),
        0 <= k < s.len(),
    ensures
        s.remove(k).no_duplicates(),
{
    let t = s.remove(k);
    assert forall|a: int, b: int| 0 <= a < t.len() && 0 <= b < t.len() && a != b implies t[a] != t[b] by {
        let a2 = if a < k {
            a
        } else {
            a + 1
        };
        let b2 = if b < k {
            b
        } else {
            b + 1
        };
        assert(t[a] == s[a2]);
        assert(t[b] == s[b2]);
    }
}

/// Index of the first entry of `v` equal to `p`.
fn position_in(v: &Vec<String>, p: &String) -> (r: Option<usize>)
    ensures
        match r {
            Some(i) => first_where(crate::parser::strings_view(v@), same_text(p@)) == Some(i as int),
            None => first_where(crate::parser::strings_view(v@), same_text(p@)) is None,
        },
        r matches Some(i) ==> i < v@.len(),
{
    let ghost w = crate::parser::strings_view(v@);
    let mut r: Option<usize> = None;
    let mut i: usize = 0;
    while i < v.len()
        invariant
            w == crate::parser::strings_view(v@),
            i <= v@.len(),
            match r {
                Some(k) => first_where(w.take(i as int), same_text(p@)) == Some(k as int),
                None => first_where(w.take(i as int), same_text(p@)) is None,
            },
            r matches Some(k) ==> k < v@.len(),
        decreases v.len() - i,
    {
        assert(w.take(i + 1).drop_last() =~= w.take(i as int));
        if r.is_none() && v[i] == *p {
            r = Some(i);
        }
        i += 1;
    }
    assert(w.take(v.len() as int) =~= w);
    r
}

impl App {
    /// Find the innermost merged folder for a given file.
    fn parent_folder(&self, file_idx: usize) -> (r: Option<String>)
        requires
            file_idx < self@.stacks.len(),
        ensures
            match r {
                Some(s) => self@.stacks[file_idx as int].len() > 0 && s@ == self@.stacks[file_idx as int].last(),
                None => self@.stacks[file_idx as int].len() == 0,
            },
    {
        let st = &self.merged_folder_stacks[file_idx];
        if st.len() > 0 {
            Some(st[st.len() - 1].clone())
        } else {
            None
        }
    }

    /// Find the parent merged folder of a given folder path.
    fn parent_merged_folder(&self, folder_path: &String) -> (r: Option<String>)
        ensures
            crate::parser::opt_string_view(r) == parent_in_stacks(self@.stacks, folder_path@),
    {
        let ghost p = folder_path@;
        let ghost stacks = self@.stacks;
        let mut j: usize = 0;
        while j < self.merged_folder_stacks.len()
            invariant
                stacks == self@.stacks,
                p == folder_path@,
                j <= stacks.len(),
                first_where(stacks.take(j as int), holds_text(p)) is None,
            decreases self.merged_folder_stacks.len() - j,
        {
            let stack = &self.merged_folder_stacks[j];
            assert(stacks[j as int] == crate::parser::strings_view(stack@));
            assert(stacks.take(j + 1).drop_last() =~= stacks.take(j as int));
            match position_in(stack, folder_path) {
                Some(pos) => {
                    proof {
                        assert(first_where(stacks[j as int], same_text(p)) == Some(pos as int));
                        lemma_first_where_some(stacks[j as int], same_text(p));
                        assert(same_text(p)(stacks[j as int][pos as int]));
                        assert(stacks[j as int][pos as int] == p);
                        assert(stacks[j as int].contains(p));
                        assert(first_where(stacks.take(j + 1), holds_text(p)) == Some(j as int));
                        lemma_first_where_prefix(stacks, j + 1, holds_text(p));
                    }
                    if pos > 0 {
                        let s = stack[pos - 1].clone();
                        assert(s@ == stacks[j as int][pos - 1]);
                        return Some(s);
                    } else {
                        return None;
                    }
                },
                None => {
                    proof {
                        lemma_first_where_some(stacks[j as int], same_text(p));
                        if stacks[j as int].contains(p) {
                            let k = choose|k: int| 0 <= k < stacks[j as int].len() && stacks[j as int][k] == p;
                            assert(same_text(p)(stacks[j as int][k]));
                        }
                    }
                },
            }
            j += 1;
        }
        assert(stacks.take(j as int) =~= stacks);
        None
    }

    pub fn fold_current(&mut self)
        requires
            old(self)@.wf(),
        ensures
            final(self)@ == old(self)@.fold_current(),
            final(self)@.wf(),
    {
        let ghost m0 = self@;
        let items = self.visible_items();
        proof {
            self@.lemma_rows();
        }
        if self.cursor < items.len() {
            let ghost k = items@[self.cursor as int].kind@;
            assert(m0.item_at(self.cursor as int) == Some(k));
            assert(self@.kind_valid(k));
            match &items[self.cursor].kind {
                VisibleKind::Folder(path) => {
                    assert(k == KindModel::Folder(path@));
                    let present = contains_string(&self.folded, path);
                    proof {
                        lemma_strings_set_view(self.folded@);
                    }
                    if present {
                        if let Some(parent) = self.parent_merged_folder(path) {
                            if let Some(pos) = find_folder(&items, &parent) {
                                proof {
                                    lemma_first_where_some(items_view(items@), kind_is(KindModel::Folder(parent@)));
                                }
                                self.cursor = pos;
                            }
                        }
                    } else {
                        let ghost f0 = self.folded@;
                        self.folded.push(path.clone());
                        proof {
                            assert(crate::parser::strings_view(self.folded@) =~= crate::parser::strings_view(f0).push(path@));
                            lemma_push_no_dup(crate::parser::strings_view(f0), path@);
                        }
                    }
                },
                VisibleKind::File(idx) => {
                    assert(k == KindModel::File(*idx as int));
                    if let Some(parent) = self.parent_folder(*idx) {
                        if let Some(pos) = find_folder(&items, &parent) {
                            proof {
                                lemma_first_where_some(items_view(items@), kind_is(KindModel::Folder(parent@)));
                            }
                            self.cursor = pos;
                        }
                    }
                },
                VisibleKind::HunkHeader(file_idx, _) => {
                    let file_idx = *file_idx;
                    assert(k matches KindModel::HunkHeader(fi, _) && fi == file_idx as int);
                    self.folded_files.insert(file_idx);
                    let new_items = self.visible_items();
                    proof {
                        self@.lemma_rows();
                    }
                    if let Some(pos) = find_file(&new_items, file_idx) {
                        proof {
                            lemma_first_where_some(items_view(new_items@), kind_is(KindModel::File(file_idx as int)));
                        }
                        self.cursor = pos;
                    }
                },
                _ => {},
            }
        }
        self.ensure_cursor_visible();
    }

    /// Move to the first target after the cursor, if any.
    fn step_in(&mut self)
        requires
            old(self)@.wf(),
        ensures
            final(self)@ == old(self)@.step_in(),
            final(self)@.wf(),
    {
        let targets = self.cursor_targets();
        proof {
            self@.lemma_rows();
            lemma_targets_bound(self@.spec_visible());
        }
        if let Some(i) = first_index(&targets, Rel::Gt, self.cursor) {
            self.cursor = targets[i];
        }
    }

    pub fn unfold_current(&mut self)
        requires
            old(self)@.wf(),
        ensures
            final(self)@ == old(self)@.unfold_current(),
            final(self)@.wf(),
    {
        let ghost m0 = self@;
        let items = self.visible_items();
        proof {
            self@.lemma_rows();
        }
        if self.cursor < items.len() {
            let ghost k = items@[self.cursor as int].kind@;
            assert(m0.item_at(self.cursor as int) == Some(k));
            match &items[self.cursor].kind {
                VisibleKind::Folder(path) => {
                    assert(k == KindModel::Folder(path@));
                    match position_in(&self.folded, path) {
                        Some(pos) => {
                            let ghost f0 = self.folded@;
                            proof {
                                lemma_first_where_some(crate::parser::strings_view(f0), same_text(path@));
                                assert(crate::parser::strings_view(f0)[pos as int] == path@);
                                assert(m0.folded.contains(path@));
                            }
                            self.folded.remove(pos);
                            proof {
                                assert(crate::parser::strings_view(self.folded@) =~= crate::parser::strings_view(f0).remove(pos as int));
                                lemma_remove_no_dup(crate::parser::strings_view(f0), pos as int);
                            }
                        },
                        None => {
                            proof {
                                lemma_first_where_some(m0.folded, same_text(path@));
                                if m0.folded.contains(path@) {
                                    let j = choose|j: int| 0 <= j < m0.folded.len() && m0.folded[j] == path@;
                                    assert(same_text(path@)(m0.folded[j]));
                                }
                            }
                            self.step_in();
                        },
                    }
                },
                VisibleKind::File(idx) => {
                    let idx = *idx;
                    assert(k == KindModel::File(idx as int));
                    if self.folded_files.contains(&idx) {
                        self.folded_files.remove(&idx);
                    } else {
                        self.step_in();
                    }
                },
                _ => {},
            }
        }
        self.ensure_cursor_visible();
    }
}

impl AppModel {
    /// Each file's units count towards the size.
    pub proof fn lemma_file_size(self, i: int)
        requires
            self.wf(),
            0 <= i < self.files.len(),
        ensures
            hunks_size(self.files[i].hunks) <= row_limit(),
    {
        self.lemma_size_upto_mono((i + 1) as nat, self.files.len());
    }
}

/// File-view lines name existing hunks and lines, at most one per unit.
pub proof fn lemma_hunks_size_bounds(hs: Seq<HunkModel>)
    ensures
        hs.len() <= hunks_size(hs),
        forall|k: int| 0 <= k < hs.len() ==> (#[trigger] hs[k]).lines.len() <= hunks_size(hs),
    decreases hs.len(),
{
    if hs.len() > 0 {
        lemma_hunks_size_bounds(hs.drop_last());
        assert forall|k: int| 0 <= k < hs.len() implies (#[trigger] hs[k]).lines.len() <= hunks_size(hs) by {
            if k < hs.len() - 1 {
                assert(hs.drop_last()[k] == hs[k]);
            }
        }
    }
}

pub proof fn lemma_fv_lines(hs: Seq<HunkModel>)
    requires
        hunks_size(hs) <= usize::MAX,
    ensures
        fv_lines(hs).len() <= hunks_size(hs),
        forall|k: int|
            0 <= k < fv_lines(hs).len() ==> match #[trigger] fv_lines(hs)[k] {
                FileViewLine::HunkHeader(h) => h < hs.len(),
                FileViewLine::HunkLine(h, l) => h < hs.len() && l < hs[h as int].lines.len(),
            },
    decreases hs.len(),
{
    lemma_hunks_size_bounds(hs);
    if hs.len() > 0 {
        lemma_hunks_size_bounds(hs.drop_last());
        lemma_fv_lines(hs.drop_last());
        let a = fv_lines(hs.drop_last());
        let all = fv_lines(hs);
        assert forall|k: int| 0 <= k < all.len() implies match #[trigger] all[k] {
            FileViewLine::HunkHeader(h) => h < hs.len(),
            FileViewLine::HunkLine(h, l) => h < hs.len() && l < hs[h as int].lines.len(),
        } by {
            if k < a.len() {
                assert(all[k] == a[k]);
                match a[k] {
                    FileViewLine::HunkHeader(h) => {},
                    FileViewLine::HunkLine(h, l) => {
                        assert(hs.drop_last()[h as int] == hs[h as int]);
                    },
                }
            } else if k == a.len() {
                assert(all[k] == FileViewLine::HunkHeader((hs.len() - 1) as usize));
            } else {
                let hi = (hs.len() - 1) as usize;
                assert(!hs.last().confirmed);
                assert(all[k] == FileViewLine::HunkLine(hi, (k - a.len() - 1) as usize));
                assert(hs[hi as int] == hs.last());
            }
        }
    }
}

impl App {
    /// Build flat list of renderable lines for a file in file view.
    pub fn file_view_lines(&self, file_idx: usize) -> (r: Vec<FileViewLine>)
        requires
            file_idx < self@.files.len(),
        ensures
            r@ == fv_lines(self@.files[file_idx as int].hunks),
    {
        let file = &self.files[file_idx];
        let ghost hs = self@.files[file_idx as int].hunks;
        let mut lines: Vec<FileViewLine> = Vec::new();
        let mut hunk_idx: usize = 0;
        while hunk_idx < file.hunks.len()
            invariant
                hs == crate::parser::hunks_view(file.hunks@),
                hunk_idx <= file.hunks@.len(),
                lines@ == fv_lines(hs.take(hunk_idx as int)),
            decreases file.hunks.len() - hunk_idx,
        {
            let hunk = &file.hunks[hunk_idx];
            let ghost before = lines@;
            lines.push(FileViewLine::HunkHeader(hunk_idx));
            if !hunk.confirmed {
                let mut line_idx: usize = 0;
                while line_idx < hunk.lines.len()
                    invariant
                        line_idx <= hunk.lines@.len(),
                        lines@ == before + seq![FileViewLine::HunkHeader(hunk_idx)] + Seq::new(
                            line_idx as nat,
                            |l: int| FileViewLine::HunkLine(hunk_idx, l as usize),
                        ),
                    decreases hunk.lines.len() - line_idx,
                {
                    lines.push(FileViewLine::HunkLine(hunk_idx, line_idx));
                    assert(lines@ =~= before + seq![FileViewLine::HunkHeader(hunk_idx)] + Seq::new(
                        (line_idx + 1) as nat,
                        |l: int| FileViewLine::HunkLine(hunk_idx, l as usize),
                    ));
                    line_idx += 1;
                }
            } else {
                assert(lines@ =~= before + seq![FileViewLine::HunkHeader(hunk_idx)] + Seq::new(
                    0,
                    |l: int| FileViewLine::HunkLine(hunk_idx, l as usize),
                ));
            }
            proof {
                let t = hs.take(hunk_idx + 1);
                assert(t.drop_last() =~= hs.take(hunk_idx as int));
                assert(t.last() == hunk@);
                assert(lines@ =~= fv_lines(t));
            }
            hunk_idx += 1;
        }
        assert(hs.take(file.hunks.len() as int) =~= hs);
        lines
    }

    fn set_line_cursor(&mut self, lc: usize)
        ensures
            final(self)@ == old(self)@.with_line_cursor(lc as int),
    {
        match &self.file_view {
            Some(fv) => {
                let n = FileViewState {
                    file_idx: fv.file_idx,
                    line_cursor: lc,
                    scroll_offset: fv.scroll_offset,
                    viewport_height: fv.viewport_height,
                };
                self.file_view = Some(n);
            },
            None => {},
        }
    }

    pub fn enter_file_view(&mut self)
        requires
            old(self)@.wf(),
        ensures
            final(self)@ == old(self)@.enter_file_view(),
            final(self)@.wf(),
    {
        let ghost m0 = self@;
        let items = self.visible_items();
        proof {
            self@.lemma_rows();
        }
        if self.cursor >= items.len() {
            return;
        }
        let ghost k = items@[self.cursor as int].kind@;
        assert(m0.item_at(self.cursor as int) == Some(k));
        assert(self@.kind_valid(k));
        let file_idx = match &items[self.cursor].kind {
            VisibleKind::File(idx) => *idx,
            VisibleKind::HunkHeader(file_idx, _) => *file_idx,
            VisibleKind::HunkLine(file_idx, _, _) => *file_idx,
            _ => {
                return;
            },
        };
        if self.files[file_idx].hunks.len() == 0 {
            return;
        }
        self.file_view = Some(FileViewState { file_idx, line_cursor: 0, scroll_offset: 0, viewport_height: 0 });
    }

    pub fn exit_file_view(&mut self)
        requires
            old(self)@.wf(),
        ensures
            final(self)@ == old(self)@.exit_file_view(),
            final(self)@.wf(),
    {
        let fi = match &self.file_view {
            Some(fv) => fv.file_idx,
            None => {
                return;
            },
        };
        self.file_view = None;
        self.jump_to_file(fi);
    }

    pub fn file_view_up(&mut self)
        requires
            old(self)@.wf(),
        ensures
            final(self)@ == old(self)@.file_view_up(),
            final(self)@.wf(),
    {
        let lc = match &self.file_view {
            Some(fv) => fv.line_cursor,
            None => {
                return;
            },
        };
        self.set_line_cursor(lc.saturating_sub(1));
    }

    fn fv_total(&self) -> (r: usize)
        requires
            self@.wf(),
        ensures
            r == self@.fv_total(),
            r <= row_limit(),
    {
        match &self.file_view {
            Some(fv) => {
                proof {
                    self@.lemma_file_size(fv.file_idx as int);
                    lemma_fv_lines(self@.files[fv.file_idx as int].hunks);
                }
                self.file_view_lines(fv.file_idx).len()
            },
            None => 0,
        }
    }

    pub fn file_view_down(&mut self)
        requires
            old(self)@.wf(),
        ensures
            final(self)@ == old(self)@.file_view_down(),
            final(self)@.wf(),
    {
        let total = self.fv_total();
        let lc = match &self.file_view {
            Some(fv) => fv.line_cursor,
            None => {
                return;
            },
        };
        if lc + 1 < total {
            self.set_line_cursor(lc + 1);
        }
    }

    pub fn file_view_half_page_up(&mut self)
        requires
            old(self)@.wf(),
        ensures
            final(self)@ == old(self)@.file_view_half_page_up(),
            final(self)@.wf(),
    {
        let (lc, vh) = match &self.file_view {
            Some(fv) => (fv.line_cursor, fv.viewport_height),
            None => {
                return;
            },
        };
        let half = if vh / 2 >= 1 {
            (vh / 2) as usize
        } else {
            1
        };
        self.set_line_cursor(lc.saturating_sub(half));
    }

    pub fn file_view_half_page_down(&mut self)
        requires
            old(self)@.wf(),
        ensures
            final(self)@ == old(self)@.file_view_half_page_down(),
            final(self)@.wf(),
    {
        let total = self.fv_total();
        let (lc, vh) = match &self.file_view {
            Some(fv) => (fv.line_cursor, fv.viewport_height),
            None => {
                return;
            },
        };
        let half = if vh / 2 >= 1 {
            (vh / 2) as usize
        } else {
            1
        };
        let a = lc + half;
        let b = total.saturating_sub(1);
        self.set_line_cursor(
            if a <= b {
                a
            } else {
                b
            },
        );
    }

    pub fn file_view_toggle(&mut self)
        requires
            old(self)@.wf(),
        ensures
            final(self)@ == old(self)@.file_view_toggle(),
            final(self)@.wf(),
    {
        let (file_idx, lc) = match &self.file_view {
            Some(fv) => (fv.file_idx, fv.line_cursor),
            None => {
                return;
            },
        };
        let lines = self.file_view_lines(file_idx);
        if lc >= lines.len() {
            return;
        }
        proof {
            self@.lemma_file_size(file_idx as int);
            lemma_fv_lines(self@.files[file_idx as int].hunks);
            assert(lines@[lc as int] == fv_lines(self@.files[file_idx as int].hunks)[lc as int]);
        }
        let hunk_idx = match lines[lc] {
            FileViewLine::HunkHeader(hi) => hi,
            FileViewLine::HunkLine(hi, _) => hi,
        };
        self.flip(file_idx, hunk_idx);
        let total = self.fv_total();
        if lc >= total {
            self.set_line_cursor(total.saturating_sub(1));
        }
    }

    pub fn file_view_toggle_and_advance(&mut self)
        requires
            old(self)@.wf(),
        ensures
            final(self)@ == old(self)@.file_view_toggle_and_advance(),
            final(self)@.wf(),
    {
        self.file_view_toggle();
        self.file_view_down();
    }

    /// Turn word wrapping on/off. Row positions all change, so drop the cached
    /// geometry and pin whatever is at the top of the viewport — the next frame
    /// re-derives the scroll offset from it.
    pub fn toggle_wrap(&mut self)
        requires
            old(self)@.wf(),
        ensures
            final(self)@ == old(self)@.toggle_wrap(),
            final(self)@.wf(),
    {
        let count = self.visible_items().len();
        self.scroll_anchor = if self.geometry_valid(count) {
            match last_index(&self.item_ys, Rel::Le, self.scroll_offset) {
                Some(i) => Some(i),
                None => Some(self.cursor),
            }
        } else {
            Some(self.cursor)
        };
        self.wrap = !self.wrap;
        self.item_ys.clear();
        self.rendered_height = 0;
    }
}

pub open spec fn entry_view(e: (usize, Option<(i64, Vec<usize>)>)) -> (usize, Option<(i64, Seq<usize>)>) {
    (
        e.0,
        match e.1 {
            Some(p) => Some((p.0, p.1@)),
            None => None,
        },
    )
}

pub open spec fn entries_view(v: Seq<(usize, Option<(i64, Vec<usize>)>)>) -> Seq<(usize, Option<(i64, Seq<usize>)>)> {
    v.map_values(|e: (usize, Option<(i64, Vec<usize>)>)| entry_view(e))
}

/// Inserting after the last entry that scores at least as high.
pub proof fn lemma_insert_at(s: Seq<(usize, Option<(i64, Seq<usize>)>)>, x: (usize, Option<(i64, Seq<usize>)>), p: int)
    requires
        0 <= p <= s.len(),
        forall|k: int| p <= k < s.len() ==> entry_score(#[trigger] s[k]) < entry_score(x),
        p > 0 ==> entry_score(s[p - 1]) >= entry_score(x),
    ensures
        insert_by_score(s, x) == s.insert(p, x),
    decreases s.len() - p,
{
    if p == s.len() {
        if s.len() == 0 {
            assert(s.insert(p, x) =~= seq![x]);
        } else {
            assert(s.insert(p, x) =~= s.push(x));
        }
    } else {
        assert(entry_score(s.last()) < entry_score(x));
        assert forall|k: int| p <= k < s.drop_last().len() implies entry_score(#[trigger] s.drop_last()[k]) < entry_score(x) by {
            assert(s.drop_last()[k] == s[k]);
        }
        if p > 0 {
            assert(s.drop_last()[p - 1] == s[p - 1]);
        }
        lemma_insert_at(s.drop_last(), x, p);
        assert(s.drop_last().insert(p, x).push(s.last()) =~= s.insert(p, x));
    }
}

fn entry_score_of(e: &(usize, Option<(i64, Vec<usize>)>)) -> (r: i64)
    ensures
        r == entry_score(entry_view(*e)),
{
    match &e.1 {
        Some(p) => p.0,
        None => 0,
    }
}

impl App {
    pub fn filtered_files(&self) -> (r: Vec<(usize, Option<(i64, Vec<usize>)>)>)
        requires
            self@.wf(),
        ensures
            entries_view(r@) == self@.filtered_files(),
    {
        if self.file_list_query.as_str().is_empty() {
            let mut all: Vec<(usize, Option<(i64, Vec<usize>)>)> = Vec::new();
            let mut i: usize = 0;
            while i < self.files.len()
                invariant
                    i <= self.files@.len(),
                    entries_view(all@) == Seq::new(i as nat, |j: int| (j as usize, None::<(i64, Seq<usize>)>)),
                decreases self.files.len() - i,
            {
                let ghost a0 = all@;
                all.push((i, None));
                assert(entries_view(all@) =~= entries_view(a0).push((i, None::<(i64, Seq<usize>)>)));
                assert(entries_view(all@) =~= Seq::new((i + 1) as nat, |j: int| (j as usize, None::<(i64, Seq<usize>)>)));
                i += 1;
            }
            return all;
        }
        let ghost m = self@;
        let mut results: Vec<(usize, Option<(i64, Vec<usize>)>)> = Vec::new();
        let mut i: usize = 0;
        while i < self.files.len()
            invariant
                m == self@,
                m.wf(),
                i <= self.files@.len(),
                entries_view(results@) == m.file_matches(i as nat),
            decreases self.files.len() - i,
        {
            assert(choice_fits(m.files[i as int].rel_path.len()));
            match self.matcher.fuzzy_indices(self.files[i].rel_path.as_str(), self.file_list_query.as_str()) {
                Some((score, indices)) => {
                    results.push((i, Some((score, indices))));
                    assert(entries_view(results@) =~= m.file_matches((i + 1) as nat));
                },
                None => {},
            }
            i += 1;
        }
        let mut sorted: Vec<(usize, Option<(i64, Vec<usize>)>)> = Vec::new();
        let mut k: usize = 0;
        let ghost all = entries_view(results@);
        while k < results.len()
            invariant
                all == entries_view(results@),
                k <= results@.len(),
                entries_view(sorted@) == sort_by_score(all.take(k as int)),
            decreases results.len() - k,
        {
            let e = match &results[k].1 {
                Some(p) => {
                    let v = p.1.clone();
                    assert(v@ =~= p.1@);
                    (results[k].0, Some((p.0, v)))
                },
                None => (results[k].0, None),
            };
            assert(entry_view(e) == all[k as int]);
            let s = entry_score_of(&e);
            let ghost sv = entries_view(sorted@);
            let mut p = sorted.len();
            while p > 0 && entry_score_of(&sorted[p - 1]) < s
                invariant
                    sv == entries_view(sorted@),
                    p <= sorted@.len(),
                    s == entry_score(entry_view(e)),
                    forall|j: int| p <= j < sv.len() ==> entry_score(#[trigger] sv[j]) < s,
                decreases p,
            {
                p -= 1;
            }
            proof {
                lemma_insert_at(sv, entry_view(e), p as int);
                assert(all.take(k + 1).drop_last() =~= all.take(k as int));
            }
            sorted.insert(p, e);
            assert(entries_view(sorted@) =~= sv.insert(p as int, entry_view(e)));
            k += 1;
        }
        assert(all.take(results.len() as int) =~= all);
        sorted
    }
}

/// A key press, as the review reads it.
#[derive(Debug, Clone, Copy, PartialEq, Eq, Structural)]
pub enum Key {
    Char(char),
    Enter,
    Esc,
    Tab,
    Up,
    Down,
    Left,
    Right,
    Backspace,
    Other,
}

impl AppModel {
    /// Keys of the main view.
    pub open spec fn main_key(self, key: Key) -> AppModel {
        match key {
            Key::Esc | Key::Char('q') => AppModel { should_exit: true, ..self },
            Key::Enter => self.confirm_and_advance(),
            Key::Char(' ') => self.toggle_confirmation(),
            Key::Left => self.fold_current(),
            Key::Right => self.unfold_current(),
            Key::Down => self.cursor_down(),
            Key::Up => self.cursor_up(),
            Key::Char('j') => self.next_file(),
            Key::Char('k') => self.prev_file(),
            Key::Char('a') => self.invert_confirmation(),
            Key::Char('w') => self.toggle_wrap(),
            Key::Tab => self.enter_file_view(),
            Key::Char('?') => AppModel { show_help: true, ..self },
            Key::Char('f') => AppModel {
                show_file_list: true,
                file_list_query: Seq::empty(),
                file_list_cursor: 0,
                ..self
            },
            _ => self,
        }
    }

    /// Keys of the file view.
    pub open spec fn file_view_key(self, key: Key, ctrl: bool) -> AppModel {
        if ctrl && key == Key::Char('c') {
            AppModel { should_exit: true, ..self }
        } else {
            match key {
                Key::Up => self.file_view_up(),
                Key::Down => self.file_view_down(),
                Key::Char('k') => self.file_view_half_page_up(),
                Key::Char('j') => self.file_view_half_page_down(),
                Key::Char(' ') => self.file_view_toggle(),
                Key::Enter => self.file_view_toggle_and_advance(),
                Key::Char('w') => self.toggle_wrap(),
                Key::Tab | Key::Esc => self.exit_file_view(),
                Key::Char('q') => AppModel { should_exit: true, ..self },
                _ => self,
            }
        }
    }

    /// Keys of the file search popup.
    pub open spec fn file_list_key(self, key: Key, ctrl: bool) -> AppModel {
        if ctrl && key == Key::Char('c') {
            AppModel { should_exit: true, ..self }
        } else {
            match key {
                Key::Esc => AppModel { show_file_list: false, ..self },
                Key::Enter => {
                    let filtered = self.filtered_files();
                    if self.file_list_cursor < filtered.len() {
                        AppModel { show_file_list: false, ..self }.jump_to_file(
                            filtered[self.file_list_cursor as int].0 as int,
                        )
                    } else {
                        self
                    }
                },
                Key::Up => if self.file_list_cursor > 0 {
                    AppModel { file_list_cursor: (self.file_list_cursor - 1) as usize, ..self }
                } else {
                    self
                },
                Key::Down => if self.file_list_cursor + 1 < self.filtered_files().len() {
                    AppModel { file_list_cursor: (self.file_list_cursor + 1) as usize, ..self }
                } else {
                    self
                },
                Key::Backspace => AppModel {
                    file_list_query: if self.file_list_query.len() == 0 {
                        self.file_list_query
                    } else {
                        self.file_list_query.drop_last()
                    },
                    file_list_cursor: 0,
                    ..self
                },
                Key::Char(c) => AppModel {
                    file_list_query: self.file_list_query.push(c),
                    file_list_cursor: 0,
                    ..self
                },
                _ => self,
            }
        }
    }

    /// A key press: the help dialog takes every key, then the file search
    /// popup, then Ctrl+C quits, then the file view, then the main view.
    pub open spec fn handle_key(self, key: Key, ctrl: bool) -> AppModel {
        if self.show_help {
            match key {
                Key::Char('?') | Key::Esc | Key::Char(' ') | Key::Enter | Key::Char('q') => AppModel {
                    show_help: false,
                    ..self
                },
                _ => self,
            }
        } else if self.show_file_list {
            self.file_list_key(key, ctrl)
        } else if ctrl && key == Key::Char('c') {
            AppModel { should_exit: true, ..self }
        } else if self.file_view is Some {
            self.file_view_key(key, ctrl)
        } else {
            self.main_key(key)
        }
    }

    /// A mouse wheel step: moves the file-view cursor, or scrolls the main
    /// view; ignored while a popup is open.
    pub open spec fn handle_scroll(self, up: bool) -> AppModel {
        if self.show_help || self.show_file_list {
            self
        } else if self.file_view is Some {
            if up {
                self.file_view_up()
            } else {
                self.file_view_down()
            }
        } else if up {
            self.scroll_line_up()
        } else {
            self.scroll_line_down()
        }
    }
}

impl App {
    fn main_key(&mut self, key: Key)
        requires
            old(self)@.wf(),
        ensures
            final(self)@ == old(self)@.main_key(key),
            final(self)@.wf(),
    {
        match key {
            Key::Esc | Key::Char('q') => {
                self.should_exit = true;
            },
            Key::Enter => self.confirm_and_advance(),
            Key::Char(' ') => self.toggle_confirmation(),
            Key::Left => self.fold_current(),
            Key::Right => self.unfold_current(),
            Key::Down => self.cursor_down(),
            Key::Up => self.cursor_up(),
            Key::Char('j') => self.next_file(),
            Key::Char('k') => self.prev_file(),
            Key::Char('a') => self.invert_confirmation(),
            Key::Char('w') => self.toggle_wrap(),
            Key::Tab => self.enter_file_view(),
            Key::Char('?') => {
                self.show_help = true;
            },
            Key::Char('f') => {
                self.show_file_list = true;
                self.file_list_query = String::new();
                self.file_list_cursor = 0;
            },
            _ => {},
        }
    }

    fn handle_file_view_key(&mut self, key: Key, ctrl: bool)
        requires
            old(self)@.wf(),
        ensures
            final(self)@ == old(self)@.file_view_key(key, ctrl),
            final(self)@.wf(),
    {
        if ctrl && key == Key::Char('c') {
            self.should_exit = true;
            return;
        }
        match key {
            Key::Up => self.file_view_up(),
            Key::Down => self.file_view_down(),
            Key::Char('k') => self.file_view_half_page_up(),
            Key::Char('j') => self.file_view_half_page_down(),
            Key::Char(' ') => self.file_view_toggle(),
            Key::Enter => self.file_view_toggle_and_advance(),
            Key::Char('w') => self.toggle_wrap(),
            Key::Tab | Key::Esc => self.exit_file_view(),
            Key::Char('q') => {
                self.should_exit = true;
            },
            _ => {},
        }
    }

    fn handle_file_list_key(&mut self, key: Key, ctrl: bool)
        requires
            old(self)@.wf(),
        ensures
            final(self)@ == old(self)@.file_list_key(key, ctrl),
            final(self)@.wf(),
    {
        if ctrl && key == Key::Char('c') {
            self.should_exit = true;
            return;
        }
        match key {
            Key::Esc => {
                self.show_file_list = false;
            },
            Key::Enter => {
                let filtered = self.filtered_files();
                if self.file_list_cursor < filtered.len() {
                    let file_idx = filtered[self.file_list_cursor].0;
                    assert(file_idx == entries_view(filtered@)[self.file_list_cursor as int].0);
                    self.show_file_list = false;
                    self.jump_to_file(file_idx);
                }
            },
            Key::Up => {
                if self.file_list_cursor > 0 {
                    self.file_list_cursor -= 1;
                }
            },
            Key::Down => {
                let filtered = self.filtered_files();
                assert(filtered@.len() == entries_view(filtered@).len());
                if self.file_list_cursor < filtered.len() && self.file_list_cursor + 1 < filtered.len() {
                    self.file_list_cursor += 1;
                }
            },
            Key::Backspace => {
                pop_char(&mut self.file_list_query);
                self.file_list_cursor = 0;
            },
            Key::Char(c) => {
                push_char(&mut self.file_list_query, c);
                self.file_list_cursor = 0;
            },
            _ => {},
        }
    }

    /// Apply a key press to the review.
    pub fn handle_key(&mut self, key: Key, ctrl: bool)
        requires
            old(self)@.wf(),
        ensures
            final(self)@ == old(self)@.handle_key(key, ctrl),
            final(self)@.wf(),
    {
        if self.show_help {
            match key {
                Key::Char('?') | Key::Esc | Key::Char(' ') | Key::Enter | Key::Char('q') => {
                    self.show_help = false;
                },
                _ => {},
            }
            return;
        }
        if self.show_file_list {
            self.handle_file_list_key(key, ctrl);
            return;
        }
        if ctrl && key == Key::Char('c') {
            self.should_exit = true;
            return;
        }
        if self.file_view.is_some() {
            self.handle_file_view_key(key, ctrl);
            return;
        }
        self.main_key(key);
    }

    /// Apply one mouse wheel step to the review.
    pub fn handle_scroll(&mut self, up: bool)
        requires
            old(self)@.wf(),
        ensures
            final(self)@ == old(self)@.handle_scroll(up),
            final(self)@.wf(),
    {
        if self.show_help || self.show_file_list {
            return;
        }
        if self.file_view.is_some() {
            if up {
                self.file_view_up();
            } else {
                self.file_view_down();
            }
        } else if up {
            self.scroll_line_up();
        } else {
            self.scroll_line_down();
        }
    }
}

pub proof fn lemma_first_where_min<A>(s: Seq<A>, f: spec_fn(A) -> bool)
    ensures
        first_where(s, f) matches Some(i) ==> forall|k: int| 0 <= k < i ==> !f(#[trigger] s[k]),
        (exists|k: int| 0 <= k < s.len() && f(#[trigger] s[k])) ==> first_where(s, f) is Some,
    decreases s.len(),
{
    lemma_first_where_some(s, f);
    if s.len() > 0 {
        lemma_first_where_min(s.drop_last(), f);
        assert forall|k: int| 0 <= k < s.len() - 1 implies s.drop_last()[k] == s[k] by {}
        if exists|k: int| 0 <= k < s.len() && f(#[trigger] s[k]) {
            let k = choose|k: int| 0 <= k < s.len() && f(#[trigger] s[k]);
            if k < s.len() - 1 {
                assert(f(s.drop_last()[k]));
            }
        }
    }
}

pub proof fn lemma_last_where_max<A>(s: Seq<A>, f: spec_fn(A) -> bool)
    ensures
        last_where(s, f) matches Some(i) ==> forall|k: int| i < k < s.len() ==> !f(#[trigger] s[k]),
        (exists|k: int| 0 <= k < s.len() && f(#[trigger] s[k])) ==> last_where(s, f) is Some,
    decreases s.len(),
{
    lemma_last_where_some(s, f);
    if s.len() > 0 {
        lemma_last_where_max(s.drop_last(), f);
        assert forall|k: int| 0 <= k < s.len() - 1 implies s.drop_last()[k] == s[k] by {}
        if exists|k: int| 0 <= k < s.len() && f(#[trigger] s[k]) {
            let k = choose|k: int| 0 <= k < s.len() && f(#[trigger] s[k]);
            if k < s.len() - 1 && !f(s.last()) {
                assert(f(s.drop_last()[k]));
            }
        }
    }
}

/// File positions are strictly increasing.
pub proof fn lemma_file_positions_sorted(items: Seq<ItemModel>)
    requires
        items.len() <= usize::MAX,
    ensures
        forall|a: int, b: int|
            0 <= a < b < file_positions(items).len() ==> #[trigger] file_positions(items)[a] < #[trigger] file_positions(
                items,
            )[b],
    decreases items.len(),
{
    if items.len() > 0 {
        lemma_file_positions_sorted(items.drop_last());
        lemma_file_positions_bound(items.drop_last());
        let p = file_positions(items.drop_last());
        let fp = file_positions(items);
        if items.last().kind is File {
            assert(fp == p.push((items.len() - 1) as usize));
        } else {
            assert(fp == p);
        }
        assert forall|a: int, b: int| 0 <= a < b < fp.len() implies #[trigger] fp[a] < #[trigger] fp[b] by {
            assert(fp[a] == p[a]);
            if b < p.len() {
                assert(fp[b] == p[b]);
            }
        }
    }
}

/// The scroll offset chosen for a cursor row keeps that row inside a
/// non-empty viewport.
pub proof fn law_scroll_keeps_cursor_in_view(cy: int, scroll: int, vh: int)
    requires
        0 <= cy,
        0 <= scroll,
        vh > 0,
    ensures
        spec_scroll_for_cursor(cy, scroll, vh) <= cy < spec_scroll_for_cursor(cy, scroll, vh) + vh,
{
}

/// Inverting a file's confirmation twice restores it.
pub proof fn law_invert_file_twice(f: FileModel)
    ensures
        invert_file_model(invert_file_model(f)) == f,
{
    if f.hunks.len() > 0 {
        assert(invert_file_model(invert_file_model(f)).hunks =~= f.hunks);
    }
    assert(invert_file_model(invert_file_model(f)) =~= f);
}

/// Confirming a file confirms all of its units.
pub proof fn law_confirm_file(f: FileModel)
    ensures
        set_file_confirmed(f, true).all_confirmed(),
        set_file_confirmed(f, true).confirmed_count() == set_file_confirmed(f, true).total_units(),
{
    crate::parser::law_confirmed_units(set_file_confirmed(f, true));
}

impl AppModel {
    /// After Space or Enter the cursor rests on a target of the new item
    /// list whenever there is one; Enter moves it past its old position
    /// unless no target lies beyond.
    pub proof fn law_toggle_lands_on_target(self)
        requires
            self.wf(),
        ensures
            self.confirm_and_advance().spec_cursor_targets().len() > 0 ==> self.confirm_and_advance().spec_cursor_targets().contains(
                self.confirm_and_advance().cursor,
            ),
            self.confirm_and_advance().spec_cursor_targets().len() > 0 ==> (self.confirm_and_advance().cursor > self.cursor
                || self.confirm_and_advance().cursor == self.confirm_and_advance().spec_cursor_targets().last()),
            self.toggle_confirmation().spec_cursor_targets().len() > 0 ==> self.toggle_confirmation().spec_cursor_targets().contains(
                self.toggle_confirmation().cursor,
            ),
    {
        let m = self.toggle_current();
        let nt = m.spec_cursor_targets();
        if nt.len() > 0 {
            lemma_first_where_some(nt, rel(Rel::Gt, self.cursor));
            let c2 = match first_where(nt, rel(Rel::Gt, self.cursor)) {
                Some(k) => nt[k],
                None => nt.last(),
            };
            let a = AppModel { cursor: c2, ..m };
            assert(a.spec_visible() == m.spec_visible());
            assert(a.ensure_visible().cursor == c2);
            assert(a.ensure_visible().spec_visible() == m.spec_visible());
            match first_where(nt, rel(Rel::Gt, self.cursor)) {
                Some(k) => assert(nt[k] == c2),
                None => assert(nt[nt.len() - 1] == c2),
            }
            lemma_nearest_in(nt, m.cursor);
            let cl = m.clamp();
            assert(cl.spec_visible() == m.spec_visible());
            let k2 = choose|k: int| 0 <= k < nt.len() && nt[k] == nearest(nt, m.cursor);
            assert(nt[k2] == cl.cursor);
            assert(cl.ensure_visible().cursor == cl.cursor);
            assert(cl.ensure_visible().spec_visible() == m.spec_visible());
        }
    }
}

impl AppModel {
    /// With the cursor on a file, `j` then `k` comes back to that file, and
    /// so does `k` then `j` (the file list wraps around at both ends).
    pub proof fn law_next_prev_file(self)
        requires
            self.wf(),
            file_positions(self.spec_visible()).contains(self.cursor),
        ensures
            self.next_file().prev_file().cursor == self.cursor,
            self.prev_file().next_file().cursor == self.cursor,
    {
        let vis = self.spec_visible();
        let fp = file_positions(vis);
        let c = self.cursor;
        self.lemma_rows();
        lemma_file_positions_sorted(vis);
        let i = choose|i: int| 0 <= i < fp.len() && fp[i] == c;
        // forward
        lemma_first_where_min(fp, rel(Rel::Gt, c));
        lemma_first_where_some(fp, rel(Rel::Gt, c));
        let j = if i + 1 < fp.len() {
            assert(rel(Rel::Gt, c)(fp[i + 1]));
            i + 1
        } else {
            0
        };
        if i + 1 < fp.len() {
            assert(first_where(fp, rel(Rel::Gt, c)) == Some(i + 1)) by {
                let r = first_where(fp, rel(Rel::Gt, c)).unwrap();
                if r < i + 1 {
                    assert(fp[r] <= fp[i]);
                }
                if r > i + 1 {
                    assert(!rel(Rel::Gt, c)(fp[i + 1]));
                }
            }
        } else {
            assert(first_where(fp, rel(Rel::Gt, c)) is None) by {
                if first_where(fp, rel(Rel::Gt, c)) is Some {
                    let r = first_where(fp, rel(Rel::Gt, c)).unwrap();
                    assert(fp[r] <= fp[i]);
                }
            }
        }
        let n1 = AppModel { cursor: fp[j], ..self };
        let m1 = n1.ensure_visible();
        assert(m1.spec_visible() == vis);
        assert(m1.cursor == fp[j]);
        let c1 = fp[j];
        lemma_last_where_max(fp, rel(Rel::Lt, c1));
        lemma_last_where_some(fp, rel(Rel::Lt, c1));
        if j > 0 {
            assert(rel(Rel::Lt, c1)(fp[j - 1]));
            assert(last_where(fp, rel(Rel::Lt, c1)) == Some(j - 1)) by {
                let r = last_where(fp, rel(Rel::Lt, c1)).unwrap();
                if r > j - 1 {
                    assert(fp[r] >= fp[j]);
                }
            }
        } else {
            assert(last_where(fp, rel(Rel::Lt, c1)) is None) by {
                if last_where(fp, rel(Rel::Lt, c1)) is Some {
                    let r = last_where(fp, rel(Rel::Lt, c1)).unwrap();
                    assert(fp[r] >= fp[0]);
                }
            }
        }
        assert(self.next_file() == m1);
        // backward
        lemma_last_where_max(fp, rel(Rel::Lt, c));
        lemma_last_where_some(fp, rel(Rel::Lt, c));
        let jb = if i > 0 {
            i - 1
        } else {
            fp.len() - 1
        };
        if i > 0 {
            assert(rel(Rel::Lt, c)(fp[i - 1]));
            assert(last_where(fp, rel(Rel::Lt, c)) == Some(i - 1)) by {
                let r = last_where(fp, rel(Rel::Lt, c)).unwrap();
                if r > i - 1 {
                    assert(fp[r] >= fp[i]);
                }
            }
        } else {
            assert(last_where(fp, rel(Rel::Lt, c)) is None) by {
                if last_where(fp, rel(Rel::Lt, c)) is Some {
                    let r = last_where(fp, rel(Rel::Lt, c)).unwrap();
                    assert(fp[r] >= fp[0]);
                }
            }
        }
        let m2 = AppModel { cursor: fp[jb], ..self }.ensure_visible();
        assert(m2.spec_visible() == vis);
        assert(self.prev_file() == m2);
        let c2 = fp[jb];
        lemma_first_where_min(fp, rel(Rel::Gt, c2));
        lemma_first_where_some(fp, rel(Rel::Gt, c2));
        if jb + 1 < fp.len() {
            assert(rel(Rel::Gt, c2)(fp[jb + 1]));
            assert(first_where(fp, rel(Rel::Gt, c2)) == Some(jb + 1)) by {
                let r = first_where(fp, rel(Rel::Gt, c2)).unwrap();
                if r < jb + 1 {
                    assert(fp[r] <= fp[jb]);
                }
            }
        } else {
            assert(first_where(fp, rel(Rel::Gt, c2)) is None) by {
                if first_where(fp, rel(Rel::Gt, c2)) is Some {
                    let r = first_where(fp, rel(Rel::Gt, c2)).unwrap();
                    assert(fp[r] <= fp[jb]);
                }
            }
        }
    }
}

pub open spec fn sorted_by_score(s: Seq<(usize, Option<(i64, Seq<usize>)>)>) -> bool {
    forall|a: int, b: int| 0 <= a < b < s.len() ==> entry_score(#[trigger] s[a]) >= entry_score(#[trigger] s[b])
}

proof fn lemma_insert_by_score(t: Seq<(usize, Option<(i64, Seq<usize>)>)>, x: (usize, Option<(i64, Seq<usize>)>))
    requires
        sorted_by_score(t),
    ensures
        sorted_by_score(insert_by_score(t, x)),
        insert_by_score(t, x).to_multiset() == t.to_multiset().insert(x),
        forall|k: int|
            0 <= k < insert_by_score(t, x).len() ==> #[trigger] insert_by_score(t, x)[k] == x || t.contains(
                insert_by_score(t, x)[k],
            ),
    decreases t.len(),
{
    broadcast use vstd::seq_lib::group_to_multiset_ensures;

    if t.len() == 0 {
        assert(seq![x] =~= Seq::<(usize, Option<(i64, Seq<usize>)>)>::empty().push(x));
    } else if entry_score(t.last()) >= entry_score(x) {
        let u = t.push(x);
        assert forall|k: int| 0 <= k < u.len() implies #[trigger] u[k] == x || t.contains(u[k]) by {
            if k < t.len() {
                assert(u[k] == t[k]);
            }
        }
        assert forall|a: int, b: int| 0 <= a < b < u.len() implies entry_score(#[trigger] u[a]) >= entry_score(#[trigger] u[b]) by {
            if b == t.len() {
                assert(entry_score(t[a]) >= entry_score(t[t.len() - 1]));
            }
        }
    } else {
        let d = t.drop_last();
        assert(sorted_by_score(d)) by {
            assert forall|a: int, b: int| 0 <= a < b < d.len() implies entry_score(#[trigger] d[a]) >= entry_score(#[trigger] d[b]) by {
                assert(d[a] == t[a] && d[b] == t[b]);
            }
        }
        lemma_insert_by_score(d, x);
        let w = insert_by_score(d, x);
        let u = w.push(t.last());
        assert(t =~= d.push(t.last()));
        assert forall|k: int| 0 <= k < u.len() implies #[trigger] u[k] == x || t.contains(u[k]) by {
            if k < w.len() {
                assert(u[k] == w[k]);
                if w[k] != x {
                    let j = choose|j: int| 0 <= j < d.len() && d[j] == w[k];
                    assert(t[j] == w[k]);
                }
            } else {
                assert(t[t.len() - 1] == t.last());
            }
        }
        assert forall|a: int, b: int| 0 <= a < b < u.len() implies entry_score(#[trigger] u[a]) >= entry_score(#[trigger] u[b]) by {
            if b == w.len() {
                assert(u[a] == w[a]);
                if w[a] != x {
                    let j = choose|j: int| 0 <= j < d.len() && d[j] == w[a];
                    assert(t[j] == d[j]);
                    assert(entry_score(t[j]) >= entry_score(t[t.len() - 1]));
                }
            } else {
                assert(u[a] == w[a] && u[b] == w[b]);
            }
        }
        assert(u.to_multiset() =~= t.to_multiset().insert(x));
    }
}

/// The file search lists its matches highest score first, each match
/// exactly once.
pub proof fn law_sort_by_score(s: Seq<(usize, Option<(i64, Seq<usize>)>)>)
    ensures
        sorted_by_score(sort_by_score(s)),
        sort_by_score(s).to_multiset() == s.to_multiset(),
    decreases s.len(),
{
    broadcast use vstd::seq_lib::group_to_multiset_ensures;

    if s.len() > 0 {
        law_sort_by_score(s.drop_last());
        lemma_insert_by_score(sort_by_score(s.drop_last()), s.last());
        assert(s =~= s.drop_last().push(s.last()));
    }
}

proof fn lemma_insert_shape(s: Seq<(usize, Option<(i64, Seq<usize>)>)>, x: (usize, Option<(i64, Seq<usize>)>)) -> (p: int)
    ensures
        0 <= p <= s.len(),
        insert_by_score(s, x) == s.take(p).push(x) + s.skip(p),
        forall|q: int| p <= q < s.len() ==> entry_score(#[trigger] s[q]) < entry_score(x),
    decreases s.len(),
{
    if s.len() == 0 {
        assert(insert_by_score(s, x) =~= s.take(0).push(x) + s.skip(0));
        0
    } else if entry_score(s.last()) >= entry_score(x) {
        assert(insert_by_score(s, x) =~= s.take(s.len() as int).push(x) + s.skip(s.len() as int));
        s.len() as int
    } else {
        let p = lemma_insert_shape(s.drop_last(), x);
        let d = s.drop_last();
        assert(insert_by_score(s, x) =~= s.take(p).push(x) + s.skip(p)) by {
            assert(d.take(p) =~= s.take(p));
            assert(d.skip(p).push(s.last()) =~= s.skip(p));
        }
        assert forall|q: int| p <= q < s.len() implies entry_score(#[trigger] s[q]) < entry_score(x) by {
            if q < s.len() - 1 {
                assert(s[q] == d[q]);
            }
        }
        p
    }
}

/// The file search sort is stable: among entries of equal score, files
/// keep their order.
pub proof fn law_sort_stable(s: Seq<(usize, Option<(i64, Seq<usize>)>)>)
    requires
        forall|i: int, j: int| 0 <= i < j < s.len() ==> (#[trigger] s[i]).0 < (#[trigger] s[j]).0,
    ensures
        forall|i: int, j: int|
            0 <= i < j < sort_by_score(s).len() && entry_score(#[trigger] sort_by_score(s)[i]) == entry_score(
                #[trigger] sort_by_score(s)[j],
            ) ==> sort_by_score(s)[i].0 < sort_by_score(s)[j].0,
    decreases s.len(),
{
    broadcast use vstd::seq_lib::group_to_multiset_ensures;

    if s.len() > 0 {
        let d = s.drop_last();
        let x = s.last();
        law_sort_stable(d);
        law_sort_by_score(d);
        let r0 = sort_by_score(d);
        let p = lemma_insert_shape(r0, x);
        let r = sort_by_score(s);
        assert(r == r0.take(p).push(x) + r0.skip(p));
        assert forall|q: int| 0 <= q < r0.len() implies (#[trigger] r0[q]).0 < x.0 by {
            assert(r0.contains(r0[q]));
            assert(r0.to_multiset().count(r0[q]) > 0);
            assert(d.contains(r0[q]));
            let k = choose|k: int| 0 <= k < d.len() && d[k] == r0[q];
            assert(s[k] == d[k]);
            assert(s[s.len() - 1] == x);
        }
        assert forall|i: int, j: int|
            0 <= i < j < r.len() && entry_score(#[trigger] r[i]) == entry_score(#[trigger] r[j]) implies r[i].0 < r[j].0 by {
            if j < p {
                assert(r[i] == r0[i] && r[j] == r0[j]);
            } else if j == p {
                assert(r[i] == r0[i] && r[j] == x);
            } else if i < p {
                assert(r[i] == r0[i] && r[j] == r0[j - 1]);
            } else if i == p {
                assert(r[i] == x && r[j] == r0[j - 1]);
            } else {
                assert(r[i] == r0[i - 1] && r[j] == r0[j - 1]);
            }
        }
    }
}

impl AppModel {
    proof fn lemma_size_covers_files(self, n: nat)
        ensures
            self.size_upto(n) >= n,
        decreases n,
    {
        if n > 0 {
            self.lemma_size_covers_files((n - 1) as nat);
        }
    }

    proof fn lemma_file_matches_ascend(self, n: nat)
        requires
            n <= self.files.len(),
            self.files.len() <= usize::MAX,
        ensures
            forall|i: int, j: int|
                0 <= i < j < self.file_matches(n).len() ==> (#[trigger] self.file_matches(n)[i]).0 < (
                #[trigger] self.file_matches(n)[j]).0,
            forall|i: int| 0 <= i < self.file_matches(n).len() ==> (#[trigger] self.file_matches(n)[i]).0 < n,
        decreases n,
    {
        if n > 0 {
            self.lemma_file_matches_ascend((n - 1) as nat);
            let prev = self.file_matches((n - 1) as nat);
            let cur = self.file_matches(n);
            assert forall|i: int| 0 <= i < cur.len() implies (#[trigger] cur[i]).0 < n by {
                if i < prev.len() {
                    assert(cur[i] == prev[i]);
                }
            }
            assert forall|i: int, j: int| 0 <= i < j < cur.len() implies (#[trigger] cur[i]).0 < (#[trigger] cur[j]).0 by {
                assert(cur[i] == prev[i]);
                if j < prev.len() {
                    assert(cur[j] == prev[j]);
                } else {
                    assert(cur[j].0 == n - 1);
                }
            }
        }
    }

    /// Files matching the search query with equal scores stay in file order.
    pub proof fn law_file_search_stable(self)
        requires
            self.wf(),
        ensures
            forall|i: int, j: int|
                0 <= i < j < self.filtered_files().len() && entry_score(#[trigger] self.filtered_files()[i])
                    == entry_score(#[trigger] self.filtered_files()[j]) ==> self.filtered_files()[i].0
                    < self.filtered_files()[j].0,
    {
        self.lemma_size_covers_files(self.files.len());
        if self.file_list_query.len() > 0 {
            self.lemma_file_matches_ascend(self.files.len());
            law_sort_stable(self.file_matches(self.files.len()));
        }
    }
}

pub open spec fn has_file(items: Seq<ItemModel>, i: int) -> bool {
    exists|k: int| 0 <= k < items.len() && (#[trigger] items[k]).kind == KindModel::File(i)
}

proof fn lemma_hunk_items_kinds(idx: int, hs: Seq<HunkModel>, d: int)
    ensures
        forall|k: int|
            0 <= k < hunk_items(idx, hs, d).len() ==> match (#[trigger] hunk_items(idx, hs, d)[k]).kind {
                KindModel::HunkHeader(i, _) => i == idx,
                KindModel::HunkLine(i, _, _) => i == idx,
                _ => false,
            },
    decreases hs.len(),
{
    if hs.len() > 0 {
        lemma_hunk_items_kinds(idx, hs.drop_last(), d);
        let a = hunk_items(idx, hs.drop_last(), d);
        let r = hunk_items(idx, hs, d);
        assert forall|k: int| 0 <= k < r.len() implies match (#[trigger] r[k]).kind {
            KindModel::HunkHeader(i, _) => i == idx,
            KindModel::HunkLine(i, _, _) => i == idx,
            _ => false,
        } by {
            if k < a.len() {
                assert(r[k] == a[k]);
            }
        }
    }
}

proof fn lemma_folder_walk_kinds(stack: Seq<Seq<char>>, folded: Set<Seq<char>>, emitted: Set<Seq<char>>, k: nat)
    ensures
        forall|j: int|
            0 <= j < folder_walk(stack, folded, emitted, k).0.len() ==> (#[trigger] folder_walk(
                stack,
                folded,
                emitted,
                k,
            ).0[j]).kind is Folder,
    decreases k,
{
    if k > 0 {
        lemma_folder_walk_kinds(stack, folded, emitted, (k - 1) as nat);
        let a = folder_walk(stack, folded, emitted, (k - 1) as nat).0;
        let r = folder_walk(stack, folded, emitted, k).0;
        assert forall|j: int| 0 <= j < r.len() implies (#[trigger] r[j]).kind is Folder by {
            if j < a.len() {
                assert(r[j] == a[j]);
            }
        }
    }
}

proof fn lemma_emitted_indep(
    files: Seq<FileModel>,
    stacks: Seq<Seq<Seq<char>>>,
    folded: Set<Seq<char>>,
    ff1: Set<usize>,
    ff2: Set<usize>,
    n: nat,
)
    ensures
        visible_upto(files, stacks, folded, ff1, n).1 == visible_upto(files, stacks, folded, ff2, n).1,
    decreases n,
{
    if n > 0 {
        lemma_emitted_indep(files, stacks, folded, ff1, ff2, (n - 1) as nat);
    }
}

/// Which files and hunk headers the first `n` files show.
proof fn lemma_visible_shape(
    files: Seq<FileModel>,
    stacks: Seq<Seq<Seq<char>>>,
    folded: Set<Seq<char>>,
    ff: Set<usize>,
    n: nat,
)
    requires
        n <= stacks.len(),
    ensures
        ({
            let items = visible_upto(files, stacks, folded, ff, n).0;
            &&& forall|k: int|
                0 <= k < items.len() ==> match (#[trigger] items[k]).kind {
                    KindModel::File(j) => 0 <= j < n,
                    KindModel::HunkHeader(j, _) => 0 <= j < n && !file_folded(files, ff, j) && has_file(items, j),
                    _ => true,
                }
            &&& forall|i: int|
                0 <= i < n ==> (has_file(items, i) <==> !(#[trigger] folder_walk(
                    stacks[i],
                    folded,
                    visible_upto(files, stacks, folded, ff, i as nat).1,
                    stacks[i].len(),
                )).2)
        }),
    decreases n,
{
    if n > 0 {
        lemma_visible_shape(files, stacks, folded, ff, (n - 1) as nat);
        let old_items = visible_upto(files, stacks, folded, ff, (n - 1) as nat).0;
        let em = visible_upto(files, stacks, folded, ff, (n - 1) as nat).1;
        let idx = n - 1;
        let stack = stacks[idx];
        let fw = folder_walk(stack, folded, em, stack.len());
        lemma_folder_walk_kinds(stack, folded, em, stack.len());
        let d = stack.len() as int;
        lemma_hunk_items_kinds(idx, files[idx].hunks, d + 1);
        let items = visible_upto(files, stacks, folded, ff, n).0;
        let items2 = old_items + fw.0;
        assert forall|k: int| 0 <= k < old_items.len() implies items[k] == old_items[k] by {
            assert(items2[k] == old_items[k]);
        }
        // items after the old ones are folders, then possibly the file and its hunks
        let fpos = items2.len() as int;
        assert forall|k: int| old_items.len() <= k < items.len() implies match (#[trigger] items[k]).kind {
            KindModel::File(j) => j == idx && k == fpos && !fw.2,
            KindModel::HunkHeader(j, _) => j == idx && !fw.2 && !file_folded(files, ff, j),
            KindModel::HunkLine(j, _, _) => j == idx,
            _ => true,
        } by {
            if k < items2.len() {
                assert(items[k] == items2[k]);
                assert(items2[k] == fw.0[k - old_items.len()]);
            } else {
                assert(!fw.2);
                let with_file = items2.push(ItemModel { kind: KindModel::File(idx), depth: d });
                if k == fpos {
                    assert(items[k] == with_file[k]);
                } else {
                    assert(!file_folded(files, ff, idx));
                    let hi = hunk_items(idx, files[idx].hunks, d + 1);
                    assert(items == with_file + hi);
                    assert(items[k] == hi[k - with_file.len()]);
                }
            }
        }
        if !fw.2 {
            assert(items[fpos].kind == KindModel::File(idx));
        }
        assert forall|k: int| 0 <= k < items.len() implies match (#[trigger] items[k]).kind {
            KindModel::File(j) => 0 <= j < n,
            KindModel::HunkHeader(j, _) => 0 <= j < n && !file_folded(files, ff, j) && has_file(items, j),
            _ => true,
        } by {
            if k < old_items.len() {
                assert(items[k] == old_items[k]);
                if let KindModel::HunkHeader(j, _) = old_items[k].kind {
                    let k2 = choose|k2: int| 0 <= k2 < old_items.len() && (#[trigger] old_items[k2]).kind == KindModel::File(j);
                    assert(items[k2] == old_items[k2]);
                }
            } else {
                if let KindModel::HunkHeader(j, _) = items[k].kind {
                    assert(items[fpos].kind == KindModel::File(idx));
                }
            }
        }
        assert forall|i: int| 0 <= i < n implies (has_file(items, i) <==> !(#[trigger] folder_walk(
            stacks[i],
            folded,
            visible_upto(files, stacks, folded, ff, i as nat).1,
            stacks[i].len(),
        )).2) by {
            if i < n - 1 {
                if has_file(items, i) {
                    let k = choose|k: int| 0 <= k < items.len() && (#[trigger] items[k]).kind == KindModel::File(i);
                    if k >= old_items.len() {
                        assert(false);
                    }
                    assert(old_items[k] == items[k]);
                }
                if has_file(old_items, i) {
                    let k = choose|k: int| 0 <= k < old_items.len() && (#[trigger] old_items[k]).kind == KindModel::File(i);
                    assert(items[k] == old_items[k]);
                }
            } else {
                if has_file(items, i) {
                    let k = choose|k: int| 0 <= k < items.len() && (#[trigger] items[k]).kind == KindModel::File(i);
                    if k < old_items.len() {
                        assert(old_items[k] == items[k]);
                        assert(false);
                    }
                }
            }
        }
    }
}

proof fn lemma_visible_same_ff(
    files: Seq<FileModel>,
    stacks: Seq<Seq<Seq<char>>>,
    folded: Set<Seq<char>>,
    ff1: Set<usize>,
    ff2: Set<usize>,
    n: nat,
)
    requires
        forall|j: int| 0 <= j < n ==> #[trigger] file_folded(files, ff1, j) == file_folded(files, ff2, j),
    ensures
        visible_upto(files, stacks, folded, ff1, n) == visible_upto(files, stacks, folded, ff2, n),
    decreases n,
{
    if n > 0 {
        lemma_visible_same_ff(files, stacks, folded, ff1, ff2, (n - 1) as nat);
        assert(file_folded(files, ff1, n - 1) == file_folded(files, ff2, n - 1));
    }
}

/// A file's item sits right after the items of the files before it and its
/// own folders.
proof fn lemma_file_position(
    files: Seq<FileModel>,
    stacks: Seq<Seq<Seq<char>>>,
    folded: Set<Seq<char>>,
    ff: Set<usize>,
    n: nat,
    fi: int,
    k: int,
)
    requires
        n <= stacks.len(),
        0 <= fi < n,
        0 <= k < visible_upto(files, stacks, folded, ff, n).0.len(),
        visible_upto(files, stacks, folded, ff, n).0[k].kind == KindModel::File(fi),
    ensures
        k == visible_upto(files, stacks, folded, ff, fi as nat).0.len() + folder_walk(
            stacks[fi],
            folded,
            visible_upto(files, stacks, folded, ff, fi as nat).1,
            stacks[fi].len(),
        ).0.len(),
{
    let vis = visible_upto(files, stacks, folded, ff, n).0;
    lemma_visible_prefix(files, stacks, folded, ff, (fi + 1) as nat, n);
    lemma_visible_prefix(files, stacks, folded, ff, fi as nat, (fi + 1) as nat);
    lemma_visible_shape(files, stacks, folded, ff, fi as nat);
    let bb = visible_upto(files, stacks, folded, ff, fi as nat).0;
    let em = visible_upto(files, stacks, folded, ff, fi as nat).1;
    let fw = folder_walk(stacks[fi], folded, em, stacks[fi].len());
    lemma_folder_walk_kinds(stacks[fi], folded, em, stacks[fi].len());
    let a1 = visible_upto(files, stacks, folded, ff, (fi + 1) as nat).0;
    let d = stacks[fi].len() as int;
    lemma_hunk_items_kinds(fi, files[fi].hunks, d + 1);
    let q = bb.len() + fw.0.len();
    if k < bb.len() {
        assert(vis[k] == bb[k]);
        assert(false);
    } else if k >= a1.len() {
        assert(false);
    } else {
        assert(vis[k] == a1[k]);
        if fw.2 {
            assert(a1 == bb + fw.0);
            assert(a1[k] == fw.0[k - bb.len()]);
            assert(false);
        } else {
            let with_file = (bb + fw.0).push(ItemModel { kind: KindModel::File(fi), depth: d });
            if k < q {
                assert(a1[k] == with_file[k]);
                assert(with_file[k] == (bb + fw.0)[k]);
                assert((bb + fw.0)[k] == fw.0[k - bb.len()]);
                assert(false);
            } else if k > q {
                let hi = hunk_items(fi, files[fi].hunks, d + 1);
                if !file_folded(files, ff, fi) {
                    assert(a1 == with_file + hi);
                    assert(a1[k] == hi[k - with_file.len()]);
                } else {
                    assert(a1 == with_file + Seq::<ItemModel>::empty());
                }
                assert(false);
            }
        }
    }
}

impl AppModel {
    /// Folding a file from one of its hunk headers and then unfolding it
    /// brings back the same folded files, with confirmations and folders
    /// untouched.
    #[verifier::rlimit(60)]
    #[verifier::spinoff_prover]
    pub proof fn law_fold_then_unfold(self)
        requires
            self.wf(),
            self.item_at(self.cursor as int) matches Some(KindModel::HunkHeader(_, _)),
        ensures
            self.fold_current().unfold_current().folded_files == self.folded_files,
            self.fold_current().unfold_current().files == self.files,
            self.fold_current().unfold_current().folded == self.folded,
            self.fold_current().unfold_current().item_at(self.fold_current().unfold_current().cursor as int)
                == Some(KindModel::File(self.spec_visible()[self.cursor as int].kind->HunkHeader_0)),
    {
        let vis = self.spec_visible();
        let fi = match self.item_at(self.cursor as int) {
            Some(KindModel::HunkHeader(f, _)) => f,
            _ => 0,
        };
        let n = self.files.len();
        let fs_self = self.folded_set();
        lemma_visible_shape(self.files, self.stacks, self.folded_set(), self.folded_files, n);
        let c = self.cursor as int;
        assert(vis[c].kind == KindModel::HunkHeader(fi, vis[c].kind->HunkHeader_1));
        assert(0 <= fi < n && !file_folded(self.files, self.folded_files, fi) && has_file(vis, fi));
        let m = AppModel { folded_files: self.folded_files.insert(fi as usize), ..self };
        lemma_visible_shape(m.files, m.stacks, m.folded_set(), m.folded_files, n);
        lemma_emitted_indep(self.files, self.stacks, self.folded_set(), self.folded_files, m.folded_files, fi as nat);
        assert(m.folded_set() == self.folded_set());
        let mv = m.spec_visible();
        let fw_s = folder_walk(
            self.stacks[fi],
            self.folded_set(),
            visible_upto(self.files, self.stacks, self.folded_set(), self.folded_files, fi as nat).1,
            self.stacks[fi].len(),
        );
        let fw_m = folder_walk(
            m.stacks[fi],
            m.folded_set(),
            visible_upto(m.files, m.stacks, m.folded_set(), m.folded_files, fi as nat).1,
            m.stacks[fi].len(),
        );
        assert(has_file(vis, fi) <==> !fw_s.2);
        assert(fw_m == fw_s);
        assert(has_file(mv, fi) <==> !fw_m.2);
        assert(has_file(mv, fi));
        assert(m.wf());
        m.lemma_rows();
        lemma_first_where_some(mv, kind_is(KindModel::File(fi)));
        let k = choose|k: int| 0 <= k < mv.len() && (#[trigger] mv[k]).kind == KindModel::File(fi);
        assert(kind_is(KindModel::File(fi))(mv[k]));
        let p = m.file_pos(fi)->Some_0;
        assert(m.file_pos(fi) is Some);
        assert(mv[p].kind == KindModel::File(fi));
        let f1 = self.fold_current();
        assert(f1 == m.move_to(m.file_pos(fi)).ensure_visible());
        assert(f1.cursor == p as usize);
        assert(f1.spec_visible() == mv);
        assert(f1.folded_files == m.folded_files);
        assert(f1.item_at(f1.cursor as int) == Some(KindModel::File(fi)));
        assert(f1.folded_files.contains(fi as usize));
        assert(self.folded_files.insert(fi as usize).remove(fi as usize) =~= self.folded_files);
        // the file's row is the same in both lists
        let u = f1.unfold_current();
        assert(u.cursor == f1.cursor);
        assert(u.spec_visible() == vis);
        lemma_file_position(m.files, m.stacks, m.folded_set(), m.folded_files, n, fi, p);
        self.lemma_size_covers_files(n);
        let kv = choose|k: int| 0 <= k < vis.len() && (#[trigger] vis[k]).kind == KindModel::File(fi);
        lemma_file_position(self.files, self.stacks, fs_self, self.folded_files, n, fi, kv);
        assert forall|j: int| 0 <= j < fi implies #[trigger] file_folded(self.files, self.folded_files, j) == file_folded(
            self.files,
            m.folded_files,
            j,
        ) by {
            assert(j as usize != fi as usize);
        }
        lemma_visible_same_ff(self.files, self.stacks, fs_self, self.folded_files, m.folded_files, fi as nat);
        assert(kv == p);
    }
}

proof fn lemma_nearest_dist(ts: Seq<usize>, c: usize)
    requires
        ts.len() > 0,
    ensures
        forall|k: int| 0 <= k < ts.len() ==> dist(nearest(ts, c), c) <= dist(#[trigger] ts[k], c),
    decreases ts.len(),
{
    if ts.len() > 1 {
        lemma_nearest_dist(ts.drop_last(), c);
        assert forall|k: int| 0 <= k < ts.len() implies dist(nearest(ts, c), c) <= dist(#[trigger] ts[k], c) by {
            if k < ts.len() - 1 {
                assert(ts[k] == ts.drop_last()[k]);
            }
        }
    }
}

proof fn lemma_targets_contain(items: Seq<ItemModel>, k: int)
    requires
        0 <= k < items.len(),
        k <= usize::MAX,
        !(items[k].kind is HunkLine),
    ensures
        spec_targets(items).contains(k as usize),
    decreases items.len(),
{
    if k < items.len() - 1 {
        assert(items.drop_last()[k] == items[k]);
        lemma_targets_contain(items.drop_last(), k);
        let t0 = spec_targets(items.drop_last());
        let j = choose|j: int| 0 <= j < t0.len() && t0[j] == k as usize;
        if items.last().kind is HunkLine {
        } else {
            assert(spec_targets(items)[j] == t0[j]);
        }
    } else {
        let t = spec_targets(items);
        assert(t[t.len() - 1] == k as usize);
    }
}

/// The items of the first `m` files come first, and later items name only
/// later files.
proof fn lemma_visible_prefix(
    files: Seq<FileModel>,
    stacks: Seq<Seq<Seq<char>>>,
    folded: Set<Seq<char>>,
    ff: Set<usize>,
    m: nat,
    n: nat,
)
    requires
        m <= n,
    ensures
        ({
            let a = visible_upto(files, stacks, folded, ff, m).0;
            let b = visible_upto(files, stacks, folded, ff, n).0;
            &&& a.len() <= b.len()
            &&& forall|k: int| 0 <= k < a.len() ==> #[trigger] b[k] == a[k]
            &&& forall|k: int|
                a.len() <= k < b.len() ==> ((#[trigger] b[k]).kind matches KindModel::File(j) ==> j >= m)
            &&& forall|k: int|
                a.len() <= k < b.len() ==> ((#[trigger] b[k]).kind matches KindModel::HunkHeader(j, _) ==> j >= m)
        }),
    decreases n,
{
    if m < n {
        lemma_visible_prefix(files, stacks, folded, ff, m, (n - 1) as nat);
        let a = visible_upto(files, stacks, folded, ff, m).0;
        let b0 = visible_upto(files, stacks, folded, ff, (n - 1) as nat).0;
        let b = visible_upto(files, stacks, folded, ff, n).0;
        let em = visible_upto(files, stacks, folded, ff, (n - 1) as nat).1;
        let idx = n - 1;
        let stack = stacks[idx];
        let fw = folder_walk(stack, folded, em, stack.len());
        lemma_folder_walk_kinds(stack, folded, em, stack.len());
        let d = stack.len() as int;
        lemma_hunk_items_kinds(idx, files[idx].hunks, d + 1);
        let items2 = b0 + fw.0;
        assert forall|k: int| 0 <= k < b0.len() implies #[trigger] b[k] == b0[k] by {
            assert(items2[k] == b0[k]);
        }
        assert forall|k: int| b0.len() <= k < b.len() implies ((#[trigger] b[k]).kind matches KindModel::File(j) ==> j
            >= m) && ((b[k]).kind matches KindModel::HunkHeader(j, _) ==> j >= m) by {
            if k < items2.len() {
                assert(b[k] == items2[k]);
                assert(items2[k] == fw.0[k - b0.len()]);
            } else {
                let with_file = items2.push(ItemModel { kind: KindModel::File(idx), depth: d });
                if k > items2.len() {
                    let hi = hunk_items(idx, files[idx].hunks, d + 1);
                    assert(b == with_file + hi);
                    assert(b[k] == hi[k - with_file.len()]);
                } else {
                    assert(b[k] == with_file[k]);
                }
            }
        }
        assert forall|k: int| a.len() <= k < b.len() implies ((#[trigger] b[k]).kind matches KindModel::File(j) ==> j
            >= m) && ((b[k]).kind matches KindModel::HunkHeader(j, _) ==> j >= m) by {
            if k < b0.len() {
                assert(b[k] == b0[k]);
            }
        }
        assert forall|k: int| 0 <= k < a.len() implies #[trigger] b[k] == a[k] by {
            assert(b[k] == b0[k]);
        }
    }
}

/// Only the first `n` files decide the items they show.
proof fn lemma_visible_same_files(
    f1: Seq<FileModel>,
    f2: Seq<FileModel>,
    stacks: Seq<Seq<Seq<char>>>,
    folded: Set<Seq<char>>,
    ff: Set<usize>,
    n: nat,
)
    requires
        n <= f1.len(),
        n <= f2.len(),
        forall|j: int| 0 <= j < n ==> #[trigger] f1[j] == f2[j],
    ensures
        visible_upto(f1, stacks, folded, ff, n) == visible_upto(f2, stacks, folded, ff, n),
    decreases n,
{
    if n > 0 {
        lemma_visible_same_files(f1, f2, stacks, folded, ff, (n - 1) as nat);
        assert(f1[n - 1] == f2[n - 1]);
    }
}

/// The items of the first `t` hunks come first; later items name later
/// hunks only.
proof fn lemma_hunk_items_prefix(idx: int, hs: Seq<HunkModel>, d: int, t: int)
    requires
        0 <= t <= hs.len(),
    ensures
        ({
            let a = hunk_items(idx, hs.take(t), d);
            let b = hunk_items(idx, hs, d);
            &&& a.len() <= b.len()
            &&& forall|k: int| 0 <= k < a.len() ==> #[trigger] b[k] == a[k]
            &&& forall|k: int|
                a.len() <= k < b.len() ==> ((#[trigger] b[k]).kind matches KindModel::HunkHeader(_, h) ==> h >= t)
        }),
    decreases hs.len(),
{
    if t < hs.len() {
        let hs0 = hs.drop_last();
        assert(hs0.take(t) =~= hs.take(t));
        lemma_hunk_items_prefix(idx, hs0, d, t);
        let a = hunk_items(idx, hs.take(t), d);
        let b0 = hunk_items(idx, hs0, d);
        let b = hunk_items(idx, hs, d);
        let hi = hs.len() - 1;
        let mid = b0 + seq![ItemModel { kind: KindModel::HunkHeader(idx, hi), depth: d }];
        let tail = if hs.last().confirmed {
            Seq::<ItemModel>::empty()
        } else {
            Seq::new(hs.last().lines.len(), |l: int| ItemModel { kind: KindModel::HunkLine(idx, hi, l), depth: d })
        };
        assert(b == mid + tail);
        assert forall|k: int| 0 <= k < a.len() implies #[trigger] b[k] == a[k] by {
            assert(b[k] == mid[k]);
            assert(mid[k] == b0[k]);
        }
        assert forall|k: int| a.len() <= k < b.len() implies ((#[trigger] b[k]).kind matches KindModel::HunkHeader(_, h) ==> h >= t) by {
            if k < b0.len() {
                assert(b[k] == mid[k]);
                assert(mid[k] == b0[k]);
            } else if k < mid.len() {
                assert(b[k] == mid[k]);
            } else {
                assert(b[k] == tail[k - mid.len()]);
            }
        }
    } else {
        assert(hs.take(t) =~= hs);
    }
}

proof fn lemma_hunk_items_header_bound(idx: int, hs: Seq<HunkModel>, d: int)
    ensures
        forall|k: int|
            0 <= k < hunk_items(idx, hs, d).len() ==> ((#[trigger] hunk_items(idx, hs, d)[k]).kind matches KindModel::HunkHeader(_, h)
                ==> h < hs.len()),
    decreases hs.len(),
{
    if hs.len() > 0 {
        lemma_hunk_items_header_bound(idx, hs.drop_last(), d);
        let a = hunk_items(idx, hs.drop_last(), d);
        let r = hunk_items(idx, hs, d);
        assert forall|k: int| 0 <= k < r.len() implies ((#[trigger] r[k]).kind matches KindModel::HunkHeader(_, h) ==> h < hs.len()) by {
            if k < a.len() {
                assert(r[k] == a[k]);
            }
        }
    }
}

/// Items of the hunks before `h`, then the header of hunk `h`.
proof fn lemma_hunk_header_at(idx: int, hs: Seq<HunkModel>, d: int, h: int)
    requires
        0 <= h < hs.len(),
    ensures
        ({
            let a = hunk_items(idx, hs.take(h), d);
            let b = hunk_items(idx, hs, d);
            &&& a.len() < b.len()
            &&& b[a.len() as int] == (ItemModel { kind: KindModel::HunkHeader(idx, h), depth: d })
        }),
{
    lemma_hunk_items_prefix(idx, hs, d, h + 1);
    let a1 = hunk_items(idx, hs.take(h + 1), d);
    assert(hs.take(h + 1).drop_last() =~= hs.take(h));
    let a = hunk_items(idx, hs.take(h), d);
    assert(a1[a.len() as int] == (ItemModel { kind: KindModel::HunkHeader(idx, h), depth: d }));
}

impl AppModel {
    /// With the cursor on a file, inverting flips each of the file's units
    /// and keeps the cursor; inverting twice gives back the same
    /// confirmations.
    #[verifier::rlimit(60)]
    #[verifier::spinoff_prover]
    pub proof fn law_invert_file_twice_in_app(self)
        requires
            self.wf(),
            self.item_at(self.cursor as int) matches Some(KindModel::File(_)),
        ensures
            self.invert_confirmation().files == self.files.update(
                self.spec_visible()[self.cursor as int].kind->File_0,
                invert_file_model(self.files[self.spec_visible()[self.cursor as int].kind->File_0]),
            ),
            self.invert_confirmation().cursor == self.cursor,
            self.invert_confirmation().invert_confirmation().files == self.files,
            self.invert_confirmation().invert_confirmation().cursor == self.cursor,
    {
        let n = self.files.len();
        let c = self.cursor as int;
        let vis = self.spec_visible();
        let fi = vis[c].kind->File_0;
        let fs = self.folded_set();
        let ff = self.folded_files;
        lemma_visible_shape(self.files, self.stacks, fs, ff, n);
        assert(0 <= fi < n);
        lemma_visible_prefix(self.files, self.stacks, fs, ff, (fi + 1) as nat, n);
        lemma_visible_prefix(self.files, self.stacks, fs, ff, fi as nat, (fi + 1) as nat);
        lemma_visible_shape(self.files, self.stacks, fs, ff, fi as nat);
        let bb = visible_upto(self.files, self.stacks, fs, ff, fi as nat).0;
        let em = visible_upto(self.files, self.stacks, fs, ff, fi as nat).1;
        let fw = folder_walk(self.stacks[fi], fs, em, self.stacks[fi].len());
        lemma_folder_walk_kinds(self.stacks[fi], fs, em, self.stacks[fi].len());
        let a1 = visible_upto(self.files, self.stacks, fs, ff, (fi + 1) as nat).0;
        let q = bb.len() + fw.0.len();
        let d = self.stacks[fi].len() as int;
        lemma_hunk_items_kinds(fi, self.files[fi].hunks, d + 1);
        // the cursor sits right after the file's folders
        if c < bb.len() {
            assert(vis[c] == bb[c]);
            assert(false);
        } else if c < q {
            assert(vis[c] == a1[c]);
            assert(a1[c] == (bb + fw.0)[c]);
            assert(false);
        } else if c >= a1.len() {
            assert(false);
        } else if c > q {
            assert(vis[c] == a1[c]);
            assert(!fw.2);
            let with_file = (bb + fw.0).push(ItemModel { kind: KindModel::File(fi), depth: d });
            let hi = hunk_items(fi, self.files[fi].hunks, d + 1);
            if !file_folded(self.files, ff, fi) {
                assert(a1 == with_file + hi);
                assert(a1[c] == hi[c - with_file.len()]);
            }
            assert(false);
        }
        assert(c == q);
        assert(!fw.2) by {
            if fw.2 {
                assert(a1 == bb + fw.0);
                assert(false);
            }
        }
        // inverting the file keeps every item up to the cursor
        let inv = self.invert_current();
        assert(inv.files == self.files.update(fi, invert_file_model(self.files[fi])));
        assert forall|j: int| 0 <= j < fi implies #[trigger] inv.files[j] == self.files[j] by {}
        lemma_visible_same_files(self.files, inv.files, self.stacks, fs, ff, fi as nat);
        assert(inv.folded_set() == fs);
        let vis2 = inv.spec_visible();
        assert(same_shape(self.files, inv.files)) by {
            assert forall|i: int| 0 <= i < self.files.len() implies {
                &&& (#[trigger] self.files[i]).rel_path == inv.files[i].rel_path
                &&& self.files[i].hunks.len() == inv.files[i].hunks.len()
                &&& forall|k: int| 0 <= k < self.files[i].hunks.len() ==> (#[trigger] self.files[i].hunks[k]).lines.len() == inv.files[i].hunks[k].lines.len()
            } by {
                if i == fi {
                    let f = self.files[i];
                    if f.hunks.len() > 0 {
                        assert forall|k: int| 0 <= k < f.hunks.len() implies (#[trigger] f.hunks[k]).lines.len() == inv.files[i].hunks[k].lines.len() by {
                            assert(inv.files[i] == invert_file_model(f));
                        }
                    }
                }
            }
        }
        self.lemma_reshape(inv.files);
        assert(inv == (AppModel { files: inv.files, ..self }));
        lemma_visible_prefix(inv.files, self.stacks, fs, ff, (fi + 1) as nat, n);
        let a2 = visible_upto(inv.files, self.stacks, fs, ff, (fi + 1) as nat).0;
        assert(a2[c] == ((bb + fw.0).push(ItemModel { kind: KindModel::File(fi), depth: d }))[c]);
        assert(vis2[c].kind == KindModel::File(fi));
        inv.lemma_rows();
        lemma_targets_contain(vis2, c);
        let ts = inv.spec_cursor_targets();
        lemma_nearest_dist(ts, self.cursor);
        lemma_nearest_in(ts, self.cursor);
        let j = choose|j: int| 0 <= j < ts.len() && ts[j] == self.cursor;
        assert(dist(nearest(ts, self.cursor), self.cursor) <= dist(ts[j], self.cursor));
        let s1 = self.invert_confirmation();
        assert(s1.cursor == self.cursor);
        assert(s1.files == inv.files);
        assert(s1.spec_visible() == vis2);
        assert(s1.item_at(c) == Some(KindModel::File(fi)));
        assert(s1.wf());
        let inv2 = s1.invert_current();
        law_invert_file_twice(self.files[fi]);
        assert(inv2.files =~= self.files);
        assert(inv2.spec_visible() == vis);
        lemma_targets_contain(vis, c);
        self.lemma_rows();
        let ts2 = inv2.spec_cursor_targets();
        lemma_nearest_dist(ts2, self.cursor);
        lemma_nearest_in(ts2, self.cursor);
        let j2 = choose|j: int| 0 <= j < ts2.len() && ts2[j] == self.cursor;
        assert(dist(nearest(ts2, self.cursor), self.cursor) <= dist(ts2[j2], self.cursor));
    }
}

impl AppModel {
    /// With the cursor on a hunk header, inverting flips that hunk and keeps
    /// the cursor; inverting twice gives back the same confirmations, unless
    /// the first inversion
    /// confirms the file's last open hunk (the file then hides its hunks).
    #[verifier::rlimit(60)]
    #[verifier::spinoff_prover]
    pub proof fn law_invert_hunk_twice_in_app(self)
        requires
            self.wf(),
            self.item_at(self.cursor as int) matches Some(KindModel::HunkHeader(fi, h)) && !flip_hunk(
                self.files[fi],
                h,
            ).all_confirmed(),
        ensures
            self.invert_confirmation().files == self.files.update(
                self.spec_visible()[self.cursor as int].kind->HunkHeader_0,
                flip_hunk(
                    self.files[self.spec_visible()[self.cursor as int].kind->HunkHeader_0],
                    self.spec_visible()[self.cursor as int].kind->HunkHeader_1,
                ),
            ),
            self.invert_confirmation().cursor == self.cursor,
            self.invert_confirmation().invert_confirmation().files == self.files,
            self.invert_confirmation().invert_confirmation().cursor == self.cursor,
    {
        let n = self.files.len();
        let c = self.cursor as int;
        let vis = self.spec_visible();
        let fi = vis[c].kind->HunkHeader_0;
        let h = vis[c].kind->HunkHeader_1;
        let fs = self.folded_set();
        let ff = self.folded_files;
        lemma_visible_shape(self.files, self.stacks, fs, ff, n);
        self.lemma_visible_valid(self.files.len());
        assert(self.kind_valid(vis[c].kind));
        assert(0 <= fi < n && 0 <= h < self.files[fi].hunks.len());
        assert(!file_folded(self.files, ff, fi));
        lemma_visible_prefix(self.files, self.stacks, fs, ff, (fi + 1) as nat, n);
        lemma_visible_prefix(self.files, self.stacks, fs, ff, fi as nat, (fi + 1) as nat);
        lemma_visible_shape(self.files, self.stacks, fs, ff, fi as nat);
        let bb = visible_upto(self.files, self.stacks, fs, ff, fi as nat).0;
        let em = visible_upto(self.files, self.stacks, fs, ff, fi as nat).1;
        let fw = folder_walk(self.stacks[fi], fs, em, self.stacks[fi].len());
        lemma_folder_walk_kinds(self.stacks[fi], fs, em, self.stacks[fi].len());
        let a1 = visible_upto(self.files, self.stacks, fs, ff, (fi + 1) as nat).0;
        let d = self.stacks[fi].len() as int;
        let hs = self.files[fi].hunks;
        let hi = hunk_items(fi, hs, d + 1);
        lemma_hunk_items_kinds(fi, hs, d + 1);
        lemma_hunk_items_header_bound(fi, hs, d + 1);
        // the file shows, with its hunks after it
        if c < bb.len() {
            assert(vis[c] == bb[c]);
            assert(false);
        }
        if c >= a1.len() {
            assert(false);
        }
        assert(vis[c] == a1[c]);
        assert(!fw.2) by {
            if fw.2 {
                assert(a1 == bb + fw.0);
                assert(a1[c] == fw.0[c - bb.len()]);
                assert(false);
            }
        }
        let wf0 = (bb + fw.0).push(ItemModel { kind: KindModel::File(fi), depth: d });
        assert(a1 == wf0 + hi);
        if c < wf0.len() {
            assert(a1[c] == wf0[c]);
            if c < bb.len() + fw.0.len() {
                assert(wf0[c] == (bb + fw.0)[c]);
                assert((bb + fw.0)[c] == fw.0[c - bb.len()]);
            }
            assert(false);
        }
        let p = c - wf0.len();
        assert(a1[c] == hi[p]);
        // the header sits right after the items of the hunks before it
        lemma_hunk_items_prefix(fi, hs, d + 1, h);
        lemma_hunk_items_prefix(fi, hs, d + 1, h + 1);
        lemma_hunk_header_at(fi, hs, d + 1, h);
        let ah = hunk_items(fi, hs.take(h), d + 1);
        lemma_hunk_items_header_bound(fi, hs.take(h), d + 1);
        if p < ah.len() {
            assert(hi[p] == ah[p]);
            assert(false);
        }
        let ah1 = hunk_items(fi, hs.take(h + 1), d + 1);
        assert(hs.take(h + 1).drop_last() =~= hs.take(h));
        if p > ah.len() {
            if p < ah1.len() {
                assert(hi[p] == ah1[p]);
                let mid = ah + seq![ItemModel { kind: KindModel::HunkHeader(fi, h), depth: d + 1 }];
                assert(ah1[p] == (if hs[h].confirmed {
                    Seq::<ItemModel>::empty()
                } else {
                    Seq::new(hs[h].lines.len(), |l: int| ItemModel { kind: KindModel::HunkLine(fi, h, l), depth: d + 1 })
                })[p - mid.len()]);
            }
            assert(false);
        }
        assert(p == ah.len());
        // flipping the hunk keeps every item up to the cursor
        let inv = self.invert_current();
        assert(inv.files == self.files.update(fi, flip_hunk(self.files[fi], h)));
        assert forall|j: int| 0 <= j < fi implies #[trigger] inv.files[j] == self.files[j] by {}
        lemma_visible_same_files(self.files, inv.files, self.stacks, fs, ff, fi as nat);
        assert(same_shape(self.files, inv.files)) by {
            assert forall|i: int| 0 <= i < self.files.len() implies {
                &&& (#[trigger] self.files[i]).rel_path == inv.files[i].rel_path
                &&& self.files[i].hunks.len() == inv.files[i].hunks.len()
                &&& forall|k: int| 0 <= k < self.files[i].hunks.len() ==> (#[trigger] self.files[i].hunks[k]).lines.len() == inv.files[i].hunks[k].lines.len()
            } by {
                if i == fi {
                    assert forall|k: int| 0 <= k < self.files[i].hunks.len() implies (#[trigger] self.files[i].hunks[k]).lines.len() == inv.files[i].hunks[k].lines.len() by {
                        assert(inv.files[i] == flip_hunk(self.files[i], h));
                    }
                }
            }
        }
        self.lemma_reshape(inv.files);
        assert(inv == (AppModel { files: inv.files, ..self }));
        assert(inv.folded_set() == fs);
        let hs2 = inv.files[fi].hunks;
        assert(hs2.take(h) =~= hs.take(h));
        assert(!file_folded(inv.files, ff, fi));
        lemma_hunk_header_at(fi, hs2, d + 1, h);
        lemma_visible_prefix(inv.files, self.stacks, fs, ff, (fi + 1) as nat, n);
        let a2 = visible_upto(inv.files, self.stacks, fs, ff, (fi + 1) as nat).0;
        let hi2 = hunk_items(fi, hs2, d + 1);
        assert(inv.files[fi].hunks == hs2);
        assert(a2 == wf0 + hi2);
        assert(a2[c] == hi2[p]);
        let vis2 = inv.spec_visible();
        assert(vis2[c] == a2[c]);
        assert(vis2[c].kind == KindModel::HunkHeader(fi, h));
        inv.lemma_rows();
        lemma_targets_contain(vis2, c);
        let ts = inv.spec_cursor_targets();
        lemma_nearest_dist(ts, self.cursor);
        lemma_nearest_in(ts, self.cursor);
        let j = choose|j: int| 0 <= j < ts.len() && ts[j] == self.cursor;
        assert(dist(nearest(ts, self.cursor), self.cursor) <= dist(ts[j], self.cursor));
        let s1 = self.invert_confirmation();
        assert(s1.cursor == self.cursor);
        assert(s1.files == inv.files);
        assert(s1.spec_visible() == vis2);
        assert(s1.item_at(c) == Some(KindModel::HunkHeader(fi, h)));
        let inv2 = s1.invert_current();
        assert(flip_hunk(flip_hunk(self.files[fi], h), h) =~= self.files[fi]) by {
            assert(flip_hunk(flip_hunk(self.files[fi], h), h).hunks =~= self.files[fi].hunks);
        }
        assert(inv2.files =~= self.files);
        assert(inv2.spec_visible() == vis);
        lemma_targets_contain(vis, c);
        self.lemma_rows();
        let ts2 = inv2.spec_cursor_targets();
        lemma_nearest_dist(ts2, self.cursor);
        lemma_nearest_in(ts2, self.cursor);
        let j2 = choose|j: int| 0 <= j < ts2.len() && ts2[j] == self.cursor;
        assert(dist(nearest(ts2, self.cursor), self.cursor) <= dist(ts2[j2], self.cursor));
    }
}

/// The item list when no file sits in a folder: each file at depth 0,
/// followed, unless it is folded or fully confirmed, by each hunk header and,
/// for an unconfirmed hunk, its lines, all at depth 1.
pub open spec fn flat_visible(files: Seq<FileModel>, folded_files: Set<usize>, n: nat) -> Seq<ItemModel>
    decreases n,
{
    if n == 0 {
        Seq::empty()
    } else {
        let idx = n - 1;
        flat_visible(files, folded_files, (n - 1) as nat).push(ItemModel { kind: KindModel::File(idx), depth: 0 })
            + if file_folded(files, folded_files, idx) {
            Seq::empty()
        } else {
            hunk_items(idx, files[idx].hunks, 1)
        }
    }
}

impl AppModel {
    /// With no folders (as `App::new` builds for files outside any shared
    /// folder), the visible items are the flat list of files and their hunks.
    pub proof fn law_visible_without_folders(self)
        requires
            self.stacks.len() == self.files.len(),
            forall|i: int| 0 <= i < self.stacks.len() ==> (#[trigger] self.stacks[i]).len() == 0,
        ensures
            self.spec_visible() == flat_visible(self.files, self.folded_files, self.files.len()),
    {
        self.lemma_flat(self.files.len());
    }

    proof fn lemma_flat(self, n: nat)
        requires
            n <= self.files.len(),
            self.stacks.len() == self.files.len(),
            forall|i: int| 0 <= i < self.stacks.len() ==> (#[trigger] self.stacks[i]).len() == 0,
        ensures
            self.visible_upto(n).0 == flat_visible(self.files, self.folded_files, n),
        decreases n,
    {
        if n > 0 {
            self.lemma_flat((n - 1) as nat);
            assert(self.stacks[n - 1].len() == 0);
            let em = self.visible_upto((n - 1) as nat).1;
            assert(folder_walk(self.stacks[n - 1], self.folded_set(), em, 0).0 =~= Seq::<ItemModel>::empty());
            assert(self.visible_upto((n - 1) as nat).0 + Seq::<ItemModel>::empty() =~= self.visible_upto((n - 1) as nat).0);
        }
    }
}

/// The item is a file that gets an info line.
pub open spec fn has_info(files: Seq<FileModel>, folded_files: Set<usize>, it: ItemModel) -> bool {
    it.kind matches KindModel::File(i) && info_line(files, folded_files, i)
}

/// A folder-free list: it starts with a file, files sit at depth 0 and hunk
/// items at depth 1.
pub open spec fn flat_items(items: Seq<ItemModel>) -> bool {
    &&& items.len() > 0 ==> items[0].kind is File
    &&& forall|k: int|
        0 <= k < items.len() ==> match (#[trigger] items[k]).kind {
            KindModel::Folder(_) => false,
            KindModel::File(_) => items[k].depth == 0,
            _ => items[k].depth == 1,
        }
}

proof fn lemma_hunk_items_depth(idx: int, hs: Seq<HunkModel>, d: int)
    ensures
        forall|k: int| 0 <= k < hunk_items(idx, hs, d).len() ==> (#[trigger] hunk_items(idx, hs, d)[k]).depth == d,
    decreases hs.len(),
{
    if hs.len() > 0 {
        lemma_hunk_items_depth(idx, hs.drop_last(), d);
        let a = hunk_items(idx, hs.drop_last(), d);
        let r = hunk_items(idx, hs, d);
        assert forall|k: int| 0 <= k < r.len() implies (#[trigger] r[k]).depth == d by {
            if k < a.len() {
                assert(r[k] == a[k]);
            }
        }
    }
}

proof fn lemma_flat_visible_flat(files: Seq<FileModel>, folded_files: Set<usize>, n: nat)
    ensures
        flat_items(flat_visible(files, folded_files, n)),
        n > 0 ==> flat_visible(files, folded_files, n).len() > 0,
    decreases n,
{
    if n > 0 {
        lemma_flat_visible_flat(files, folded_files, (n - 1) as nat);
        let a = flat_visible(files, folded_files, (n - 1) as nat);
        let idx = n - 1;
        let with_file = a.push(ItemModel { kind: KindModel::File(idx), depth: 0 });
        let hi = hunk_items(idx, files[idx].hunks, 1);
        lemma_hunk_items_kinds(idx, files[idx].hunks, 1);
        lemma_hunk_items_depth(idx, files[idx].hunks, 1);
        let r = flat_visible(files, folded_files, n);
        assert forall|k: int| 0 <= k < r.len() implies match (#[trigger] r[k]).kind {
            KindModel::Folder(_) => false,
            KindModel::File(_) => r[k].depth == 0,
            _ => r[k].depth == 1,
        } by {
            if k < a.len() {
                assert(r[k] == a[k]);
            } else if k == a.len() {
                assert(r[k] == with_file[k]);
            } else {
                assert(!file_folded(files, folded_files, idx));
                assert(r == with_file + hi);
                assert(r[k] == hi[k - with_file.len()]);
            }
        }
        if a.len() > 0 {
            assert(r[0] == a[0]);
        } else {
            assert(r[0] == with_file[0]);
        }
    }
}

/// On a folder-free list where no hunk line wraps, the laid-out rows are
/// the one-row-per-line estimate, and each row follows the previous one by
/// one, plus its info line, plus a closing row before each later file.
proof fn lemma_walks_agree(
    files: Seq<FileModel>,
    folded_files: Set<usize>,
    wrap: bool,
    width: int,
    items: Seq<ItemModel>,
    n: nat,
)
    requires
        n <= items.len(),
        flat_items(items),
        forall|k: int|
            0 <= k < items.len() ==> ((#[trigger] items[k]).kind matches KindModel::HunkLine(f, h, l)
                ==> crate::display::spec_line_rows(
                crate::display::line_text(files[f].hunks[h].lines[l]),
                wrap,
                inner_width(width, 1),
            ) == 1),
    ensures
        ({
            let lw = layout_walk(files, folded_files, wrap, width, items, n);
            let yw = ys_walk(files, folded_files, items, n);
            &&& lw.0 == yw.0
            &&& lw.1 == yw.1
            &&& lw.2 == (if n > 0 {
                1int
            } else {
                0int
            })
            &&& yw.2 == (n > 0)
            &&& yw.0.len() == n
            &&& (n > 0 ==> yw.0[0] == 0)
            &&& (n > 0 ==> yw.1 == yw.0[n - 1] + 1 + if has_info(files, folded_files, items[n - 1]) {
                1int
            } else {
                0int
            })
            &&& forall|k: int|
                0 < k < n ==> #[trigger] yw.0[k] == yw.0[k - 1] + 1 + (if has_info(files, folded_files, items[k - 1]) {
                    1int
                } else {
                    0int
                }) + (if items[k].kind is File {
                    1int
                } else {
                    0int
                })
        }),
    decreases n,
{
    if n > 0 {
        lemma_walks_agree(files, folded_files, wrap, width, items, (n - 1) as nat);
        let it = items[n - 1];
        assert(match it.kind {
            KindModel::Folder(_) => false,
            KindModel::File(_) => it.depth == 0,
            _ => it.depth == 1,
        });
        if n == 1 {
            assert(it.kind is File);
        }
        let yw0 = ys_walk(files, folded_files, items, (n - 1) as nat);
        let yw = ys_walk(files, folded_files, items, n);
        assert forall|k: int| 0 < k < n implies #[trigger] yw.0[k] == yw.0[k - 1] + 1 + (if has_info(
            files,
            folded_files,
            items[k - 1],
        ) {
            1int
        } else {
            0int
        }) + (if items[k].kind is File {
            1int
        } else {
            0int
        }) by {
            if k < n - 1 {
                assert(yw.0[k] == yw0.0[k]);
                assert(yw.0[k - 1] == yw0.0[k - 1]);
            } else {
                assert(yw.0[k - 1] == yw0.0[k - 1]);
            }
        }
        if n > 1 {
            assert(yw.0[0] == yw0.0[0]);
        }
    }
}

impl AppModel {
    /// With no folders and no wrapped hunk line, the laid-out rows are the
    /// row estimate, and the layout's total is the estimated total height.
    /// The estimate starts at row 0 and steps by one row per item, plus an
    /// info line after a file that has one, plus the closing row before each
    /// later file.
    pub proof fn law_layout_matches_estimate(self, width: int)
        requires
            self.stacks.len() == self.files.len(),
            forall|i: int| 0 <= i < self.stacks.len() ==> (#[trigger] self.stacks[i]).len() == 0,
            forall|k: int|
                0 <= k < self.spec_visible().len() ==> ((#[trigger] self.spec_visible()[k]).kind matches KindModel::HunkLine(
                    f,
                    h,
                    l,
                ) ==> crate::display::spec_line_rows(
                    crate::display::line_text(self.files[f].hunks[h].lines[l]),
                    self.wrap,
                    inner_width(width, 1),
                ) == 1),
        ensures
            ({
                let vis = self.spec_visible();
                let ys = self.ys_walk(vis, vis.len()).0;
                &&& self.spec_layout(width).0 == ys
                &&& self.spec_layout(width).1 == (if vis.len() == 0 {
                    0
                } else {
                    self.ys_walk(vis, vis.len()).1 + 1
                })
                &&& ys.len() == vis.len()
                &&& (vis.len() > 0 ==> ys[0] == 0)
                &&& forall|k: int|
                    0 < k < vis.len() ==> #[trigger] ys[k] == ys[k - 1] + 1 + (if has_info(
                        self.files,
                        self.folded_files,
                        vis[k - 1],
                    ) {
                        1int
                    } else {
                        0int
                    }) + (if vis[k].kind is File {
                        1int
                    } else {
                        0int
                    })
            }),
    {
        self.law_visible_without_folders();
        lemma_flat_visible_flat(self.files, self.folded_files, self.files.len());
        let vis = self.spec_visible();
        lemma_walks_agree(self.files, self.folded_files, self.wrap, width, vis, vis.len());
    }
}

proof fn lemma_folder_walk_depths(stack: Seq<Seq<char>>, folded: Set<Seq<char>>, emitted: Set<Seq<char>>, k: nat)
    ensures
        forall|j: int|
            0 <= j < folder_walk(stack, folded, emitted, k).0.len() ==> (#[trigger] folder_walk(
                stack,
                folded,
                emitted,
                k,
            ).0[j]).depth >= 0,
    decreases k,
{
    if k > 0 {
        lemma_folder_walk_depths(stack, folded, emitted, (k - 1) as nat);
        let a = folder_walk(stack, folded, emitted, (k - 1) as nat).0;
        let r = folder_walk(stack, folded, emitted, k).0;
        assert forall|j: int| 0 <= j < r.len() implies (#[trigger] r[j]).depth >= 0 by {
            if j < a.len() {
                assert(r[j] == a[j]);
            }
        }
    }
}

proof fn lemma_visible_depths(
    files: Seq<FileModel>,
    stacks: Seq<Seq<Seq<char>>>,
    folded: Set<Seq<char>>,
    ff: Set<usize>,
    n: nat,
)
    ensures
        forall|k: int|
            0 <= k < visible_upto(files, stacks, folded, ff, n).0.len() ==> (#[trigger] visible_upto(
                files,
                stacks,
                folded,
                ff,
                n,
            ).0[k]).depth >= 0,
    decreases n,
{
    if n > 0 {
        lemma_visible_depths(files, stacks, folded, ff, (n - 1) as nat);
        let a = visible_upto(files, stacks, folded, ff, (n - 1) as nat).0;
        let em = visible_upto(files, stacks, folded, ff, (n - 1) as nat).1;
        let idx = n - 1;
        let stack = stacks[idx];
        let fw = folder_walk(stack, folded, em, stack.len());
        lemma_folder_walk_depths(stack, folded, em, stack.len());
        let d = stack.len() as int;
        lemma_hunk_items_depth(idx, files[idx].hunks, d + 1);
        let items2 = a + fw.0;
        let r = visible_upto(files, stacks, folded, ff, n).0;
        assert forall|k: int| 0 <= k < r.len() implies (#[trigger] r[k]).depth >= 0 by {
            if k < items2.len() {
                assert(r[k] == items2[k]);
                if k >= a.len() {
                    assert(items2[k] == fw.0[k - a.len()]);
                } else {
                    assert(items2[k] == a[k]);
                }
            } else {
                let with_file = items2.push(ItemModel { kind: KindModel::File(idx), depth: d });
                if k > items2.len() {
                    let hi = hunk_items(idx, files[idx].hunks, d + 1);
                    assert(r == with_file + hi);
                    assert(r[k] == hi[k - with_file.len()]);
                } else {
                    assert(r[k] == with_file[k]);
                }
            }
        }
    }
}

impl AppModel {
    /// The row plan is the layout: as many rows as the layout's total, and
    /// each item's title, header or first line row where the layout puts it.
    pub proof fn law_plan_matches_layout(self, width: int)
        ensures
            self.spec_main_plan(width).len() == self.spec_layout(width).1,
            forall|k: int|
                0 <= k < self.spec_visible().len() ==> self.spec_main_plan(width)[#[trigger] self.spec_layout(width).0[k]]
                    == start_row(self.spec_visible()[k], k),
    {
        let vis = self.spec_visible();
        lemma_visible_depths(self.files, self.stacks, self.folded_set(), self.folded_files, self.files.len());
        lemma_plan_walk(self.files, self.folded_files, self.wrap, width, vis, vis.len());
        lemma_layout_walk(self.files, self.folded_files, self.wrap, width, vis, vis.len());
        let pw = plan_walk(self.files, self.folded_files, self.wrap, width, vis, vis.len());
        let lay = self.spec_layout(width);
        assert forall|k: int| 0 <= k < vis.len() implies self.spec_main_plan(width)[#[trigger] lay.0[k]] == start_row(
            vis[k],
            k,
        ) by {
            assert(self.spec_main_plan(width)[lay.0[k]] == pw.0[lay.0[k]]);
        }
    }
}

proof fn lemma_first_where_least<A>(s: Seq<A>, f: spec_fn(A) -> bool)
    ensures
        first_where(s, f) matches Some(i) ==> forall|k: int| 0 <= k < i ==> !f(#[trigger] s[k]),
    decreases s.len(),
{
    if s.len() > 0 {
        lemma_first_where_least(s.drop_last(), f);
        lemma_first_where_some(s.drop_last(), f);
        if let Some(i) = first_where(s, f) {
            assert forall|k: int| 0 <= k < i implies !f(#[trigger] s[k]) by {
                assert(s.drop_last()[k] == s[k]);
            }
        }
    }
}

proof fn lemma_last_where_greatest<A>(s: Seq<A>, f: spec_fn(A) -> bool)
    ensures
        last_where(s, f) matches Some(i) ==> forall|k: int| i < k < s.len() ==> !f(#[trigger] s[k]),
    decreases s.len(),
{
    if s.len() > 0 && !f(s.last()) {
        let d = s.drop_last();
        lemma_last_where_greatest(d, f);
        lemma_last_where_some(d, f);
        assert(last_where(s, f) == last_where(d, f));
        if last_where(s, f) is Some {
            let i = last_where(s, f)->Some_0;
            assert forall|k: int| i < k < s.len() implies !f(#[trigger] s[k]) by {
                if k < s.len() - 1 {
                    assert(d[k] == s[k]);
                    assert(!f(d[k]));
                } else {
                    assert(s[k] == s.last());
                }
            }
        }
    }
}

/// The file positions are exactly the indices of file items.
proof fn lemma_file_positions_members(items: Seq<ItemModel>)
    requires
        items.len() <= usize::MAX,
    ensures
        forall|j: int|
            0 <= j < file_positions(items).len() ==> (#[trigger] items[file_positions(items)[j] as int]).kind is File,
        forall|k: int|
            0 <= k < items.len() && (#[trigger] items[k]).kind is File ==> exists|j: int|
                0 <= j < file_positions(items).len() && file_positions(items)[j] == k,
    decreases items.len(),
{
    if items.len() > 0 {
        let d = items.drop_last();
        lemma_file_positions_members(d);
        lemma_file_positions_bound(d);
        let fp = file_positions(items);
        let fd = file_positions(d);
        assert(d =~= items.drop_last());
        if items.last().kind is File {
            assert(fp == fd.push((items.len() - 1) as usize));
        } else {
            assert(fp == fd);
        }
        assert forall|j: int| 0 <= j < fp.len() implies (#[trigger] items[fp[j] as int]).kind is File by {
            if j < fd.len() {
                assert(fp[j] == fd[j]);
                assert(items[fd[j] as int] == d[fd[j] as int]);
            }
        }
        assert forall|k: int| 0 <= k < items.len() && (#[trigger] items[k]).kind is File implies exists|j: int|
            0 <= j < fp.len() && fp[j] == k by {
            if k < items.len() - 1 {
                assert(d[k] == items[k]);
                let j = choose|j: int| 0 <= j < fd.len() && fd[j] == k;
                assert(fp[j] == fd[j]);
            } else {
                assert(items[k] == items.last());
                assert(fp[fp.len() - 1] as int == k);
            }
        }
    }
}

impl AppModel {
    /// In the main view with no popup, `j` moves the cursor to the first file
    /// row after it, or, past the last file, round to the first file; `k`
    /// moves it to the last file row before it, or, before the first file,
    /// round to the last. Nothing is shown or hidden by either key.
    proof fn lemma_file_rows(self)
        requires
            self.wf(),
            exists|k: int| 0 <= k < self.spec_visible().len() && (#[trigger] self.spec_visible()[k]).kind is File,
        ensures
            ({
                let vis = self.spec_visible();
                let fp = file_positions(vis);
                &&& fp.len() > 0
                &&& forall|j: int| 0 <= j < fp.len() ==> #[trigger] fp[j] < vis.len()
                &&& forall|j: int| 0 <= j < fp.len() ==> (#[trigger] vis[fp[j] as int]).kind is File
                &&& forall|k: int|
                    0 <= k < vis.len() && (#[trigger] vis[k]).kind is File ==> exists|j: int|
                        0 <= j < fp.len() && fp[j] == k
                &&& forall|a: int, b: int| 0 <= a < b < fp.len() ==> #[trigger] fp[a] < #[trigger] fp[b]
            }),
    {
        let vis = self.spec_visible();
        self.lemma_rows();
        let fp = file_positions(vis);
        lemma_file_positions_members(vis);
        lemma_file_positions_bound(vis);
        lemma_file_positions_sorted(vis);
        let k0 = choose|k: int| 0 <= k < vis.len() && (#[trigger] vis[k]).kind is File;
        let j0 = choose|j: int| 0 <= j < fp.len() && fp[j] == k0;
    }

    /// In the main view with no popup, `j` moves the cursor to the first file
    /// row after it, or, past the last file, round to the first file.
    /// Nothing is shown or hidden.
    #[verifier::rlimit(50)]
    pub proof fn law_j_next_file(self)
        requires
            self.wf(),
            !self.show_help,
            !self.show_file_list,
            self.file_view is None,
            exists|k: int| 0 <= k < self.spec_visible().len() && (#[trigger] self.spec_visible()[k]).kind is File,
        ensures
            ({
                let vis = self.spec_visible();
                let c = self.cursor as int;
                let r = self.handle_key(Key::Char('j'), false);
                &&& r.spec_visible() == vis
                &&& 0 <= r.cursor < vis.len()
                &&& vis[r.cursor as int].kind is File
                &&& (exists|k: int| c < k < vis.len() && (#[trigger] vis[k]).kind is File) ==> {
                    &&& c < r.cursor
                    &&& forall|k: int| c < k < r.cursor ==> !((#[trigger] vis[k]).kind is File)
                }
                &&& !(exists|k: int| c < k < vis.len() && (#[trigger] vis[k]).kind is File) ==> forall|k: int|
                    0 <= k < r.cursor ==> !((#[trigger] vis[k]).kind is File)
            }),
    {
        let vis = self.spec_visible();
        let c = self.cursor as int;
        self.lemma_file_rows();
        let fp = file_positions(vis);
        let gt = rel(Rel::Gt, self.cursor);
        lemma_first_where_some(fp, gt);
        lemma_first_where_least(fp, gt);
        let ni = match first_where(fp, gt) {
            Some(i) => i,
            None => 0,
        };
        let rj = self.handle_key(Key::Char('j'), false);
        assert(rj == self.next_file());
        assert(rj.cursor == fp[ni]);
        assert(rj.spec_visible() == vis);
        if exists|k: int| c < k < vis.len() && (#[trigger] vis[k]).kind is File {
            let k1 = choose|k: int| c < k < vis.len() && (#[trigger] vis[k]).kind is File;
            let j1 = choose|j: int| 0 <= j < fp.len() && fp[j] == k1;
            assert(gt(fp[j1]));
            assert(first_where(fp, gt) is Some);
            assert forall|k: int| c < k < rj.cursor implies !((#[trigger] vis[k]).kind is File) by {
                if vis[k].kind is File {
                    let j2 = choose|j: int| 0 <= j < fp.len() && fp[j] == k;
                    if j2 < ni {
                        assert(!gt(fp[j2]));
                    } else if j2 > ni {
                        assert(fp[ni] < fp[j2]);
                    }
                }
            }
        } else {
            if first_where(fp, gt) is Some {
                let i = first_where(fp, gt)->Some_0;
                assert(gt(fp[i]));
                assert(vis[fp[i] as int].kind is File);
                assert(false);
            }
            assert forall|k: int| 0 <= k < rj.cursor implies !((#[trigger] vis[k]).kind is File) by {
                if vis[k].kind is File {
                    let j2 = choose|j: int| 0 <= j < fp.len() && fp[j] == k;
                    if j2 > 0 {
                        assert(fp[0] < fp[j2]);
                    }
                }
            }
        }
    }

    /// In the main view with no popup, `k` moves the cursor to the last file
    /// row before it, or, before the first file, round to the last file.
    /// Nothing is shown or hidden.
    #[verifier::rlimit(50)]
    pub proof fn law_k_prev_file(self)
        requires
            self.wf(),
            !self.show_help,
            !self.show_file_list,
            self.file_view is None,
            exists|k: int| 0 <= k < self.spec_visible().len() && (#[trigger] self.spec_visible()[k]).kind is File,
        ensures
            ({
                let vis = self.spec_visible();
                let c = self.cursor as int;
                let r = self.handle_key(Key::Char('k'), false);
                &&& r.spec_visible() == vis
                &&& 0 <= r.cursor < vis.len()
                &&& vis[r.cursor as int].kind is File
                &&& (exists|k: int| 0 <= k < c && k < vis.len() && (#[trigger] vis[k]).kind is File) ==> {
                    &&& r.cursor < c
                    &&& forall|k: int| r.cursor < k < c && k < vis.len() ==> !((#[trigger] vis[k]).kind is File)
                }
                &&& !(exists|k: int| 0 <= k < c && k < vis.len() && (#[trigger] vis[k]).kind is File) ==> forall|k: int|
                    r.cursor < k < vis.len() ==> !((#[trigger] vis[k]).kind is File)
            }),
    {
        let vis = self.spec_visible();
        let c = self.cursor as int;
        self.lemma_file_rows();
        let fp = file_positions(vis);
        let lt = rel(Rel::Lt, self.cursor);
        lemma_last_where_some(fp, lt);
        lemma_last_where_greatest(fp, lt);
        let pi = match last_where(fp, lt) {
            Some(i) => i,
            None => fp.len() - 1,
        };
        let rk = self.handle_key(Key::Char('k'), false);
        assert(rk == self.prev_file());
        assert(rk.cursor == fp[pi]);
        assert(rk.spec_visible() == vis);
        if exists|k: int| 0 <= k < c && k < vis.len() && (#[trigger] vis[k]).kind is File {
            let k1 = choose|k: int| 0 <= k < c && k < vis.len() && (#[trigger] vis[k]).kind is File;
            let j1 = choose|j: int| 0 <= j < fp.len() && fp[j] == k1;
            assert(lt(fp[j1]));
            assert(last_where(fp, lt) is Some);
            assert forall|k: int| rk.cursor < k < c && k < vis.len() implies !((#[trigger] vis[k]).kind is File) by {
                if vis[k].kind is File {
                    let j2 = choose|j: int| 0 <= j < fp.len() && fp[j] == k;
                    if j2 > pi {
                        assert(!lt(fp[j2]));
                    } else if j2 < pi {
                        assert(fp[j2] < fp[pi]);
                    }
                }
            }
        } else {
            if last_where(fp, lt) is Some {
                let i = last_where(fp, lt)->Some_0;
                assert(lt(fp[i]));
                assert(vis[fp[i] as int].kind is File);
                assert(false);
            }
            assert forall|k: int| rk.cursor < k < vis.len() implies !((#[trigger] vis[k]).kind is File) by {
                if vis[k].kind is File {
                    let j2 = choose|j: int| 0 <= j < fp.len() && fp[j] == k;
                    if j2 < fp.len() - 1 {
                        assert(fp[j2] < fp[fp.len() - 1]);
                    }
                }
            }
        }
    }
}

/// Units (hunks, or the file itself) of the first `n` files.
pub open spec fn units_before(files: Seq<FileModel>, n: nat) -> nat
    decreases n,
{
    if n == 0 {
        0
    } else {
        units_before(files, (n - 1) as nat) + files[n - 1].total_units()
    }
}

pub open spec fn path_under(p: Seq<char>) -> spec_fn(FileModel) -> bool {
    |f: FileModel| has_prefix(f.rel_path, folder_prefix(p))
}

impl AppModel {
    /// Sequential unit index of the item at `cursor`, for the scrollbar:
    /// hunks count from their file's first unit; folders and files map to
    /// the first unit of the first file they hold.
    pub open spec fn cursor_unit_position(self, cursor: int) -> int {
        match self.item_at(cursor) {
            Some(KindModel::HunkHeader(fi, hi)) => units_before(self.files, fi as nat) + hi,
            Some(KindModel::HunkLine(fi, hi, _)) => units_before(self.files, fi as nat) + hi,
            Some(KindModel::File(fi)) => units_before(self.files, fi as nat) as int,
            Some(KindModel::Folder(p)) => match first_where(self.files, path_under(p)) {
                Some(i) => units_before(self.files, i as nat) as int,
                None => 0,
            },
            None => 0,
        }
    }

    proof fn lemma_units_bound(self, n: nat)
        requires
            n <= self.files.len(),
        ensures
            units_before(self.files, n) <= self.size_upto(n),
        decreases n,
    {
        if n > 0 {
            self.lemma_units_bound((n - 1) as nat);
            lemma_hunks_size_bounds(self.files[n - 1].hunks);
        }
    }
}

impl App {
    /// Units of the files before `n`.
    fn file_unit_offset(&self, n: usize) -> (r: usize)
        requires
            self@.wf(),
            n <= self@.files.len(),
        ensures
            r == units_before(self@.files, n as nat),
    {
        let mut sum: usize = 0;
        let mut i: usize = 0;
        while i < n
            invariant
                i <= n <= self@.files.len(),
                self@.wf(),
                sum == units_before(self@.files, i as nat),
            decreases n - i,
        {
            proof {
                self@.lemma_units_bound((i + 1) as nat);
                self@.lemma_size_upto_mono((i + 1) as nat, self@.files.len());
            }
            sum = sum + self.files[i].total_units();
            i += 1;
        }
        sum
    }

    /// Map cursor position to a sequential hunk/unit index for the scrollbar.
    /// Folders and files map to the first unit of the first file they contain.
    pub fn cursor_unit_position(&self, cursor: usize, visible: &Vec<VisibleItem>) -> (r: usize)
        requires
            self@.wf(),
            items_view(visible@) == self@.spec_visible(),
        ensures
            r == self@.cursor_unit_position(cursor as int),
    {
        if cursor >= visible.len() {
            return 0;
        }
        proof {
            self@.lemma_rows();
            assert(self@.kind_valid(self@.spec_visible()[cursor as int].kind));
        }
        match &visible[cursor].kind {
            VisibleKind::HunkHeader(file_idx, hunk_idx) => {
                proof {
                    self@.lemma_units_bound((*file_idx + 1) as nat);
                    self@.lemma_size_upto_mono((*file_idx + 1) as nat, self@.files.len());
                }
                self.file_unit_offset(*file_idx) + *hunk_idx
            },
            VisibleKind::HunkLine(file_idx, hunk_idx, _) => {
                proof {
                    self@.lemma_units_bound((*file_idx + 1) as nat);
                    self@.lemma_size_upto_mono((*file_idx + 1) as nat, self@.files.len());
                }
                self.file_unit_offset(*file_idx) + *hunk_idx
            },
            VisibleKind::File(file_idx) => self.file_unit_offset(*file_idx),
            VisibleKind::Folder(path) => {
                assert(self@.item_at(cursor as int) == Some(KindModel::Folder(path@)));
                let prefix = folder_prefix_of(path.as_str());
                let ghost f = path_under(path@);
                let mut i: usize = 0;
                while i < self.files.len()
                    invariant
                        prefix@ == folder_prefix(path@),
                        f == path_under(path@),
                        self@.item_at(cursor as int) == Some(KindModel::Folder(path@)),
                        self@.wf(),
                        i <= self@.files.len(),
                        first_where(self@.files.take(i as int), f) is None,
                    decreases self.files.len() - i,
                {
                    assert(self@.files.take(i + 1).drop_last() =~= self@.files.take(i as int));
                    if self.is_under(i, &prefix, Ghost(path@)) {
                        proof {
                            assert(f(self@.files[i as int]));
                            assert(self@.files.take(i + 1).last() == self@.files[i as int]);
                            assert(first_where(self@.files.take(i + 1), f) == Some(i as int));
                            lemma_first_where_prefix(self@.files, i + 1, f);
                        }
                        return self.file_unit_offset(i);
                    }
                    i += 1;
                }
                assert(self@.files.take(self@.files.len() as int) =~= self@.files);
                0
            },
        }
    }
}

// ── Checking the limits at run time ──

proof fn lemma_hunks_size_prefix(hs: Seq<HunkModel>, k: int)
    requires
        0 <= k <= hs.len(),
    ensures
        hunks_size(hs.take(k)) <= hunks_size(hs),
    decreases hs.len() - k,
{
    if k < hs.len() {
        lemma_hunks_size_prefix(hs, k + 1);
        assert(hs.take(k + 1).drop_last() =~= hs.take(k));
    } else {
        assert(hs.take(k) =~= hs);
    }
}

/// One plus the hunk sizes of `f`, or `None` when that passes `limit`.
fn file_units_within(f: &FileEntry, base: usize, limit: usize) -> (r: Option<usize>)
    requires
        base <= limit,
    ensures
        match r {
            Some(s) => s == base + 1 + hunks_size(f@.hunks) && s <= limit,
            None => base + 1 + hunks_size(f@.hunks) > limit,
        },
{
    if base == limit {
        proof {
            lemma_hunks_size_prefix(f@.hunks, 0);
        }
        return None;
    }
    let mut acc: usize = base + 1;
    let ghost hs = f@.hunks;
    let mut k: usize = 0;
    while k < f.hunks.len()
        invariant
            hs == f@.hunks,
            k <= hs.len(),
            base < limit,
            acc == base + 1 + hunks_size(hs.take(k as int)),
            acc <= limit,
        decreases f.hunks.len() - k,
    {
        assert(hs.take(k + 1).drop_last() =~= hs.take(k as int));
        let n = f.hunks[k].lines.len();
        if n >= limit - acc {
            proof {
                lemma_hunks_size_prefix(hs, k + 1);
            }
            return None;
        }
        acc = acc + 1 + n;
        k += 1;
    }
    assert(hs.take(hs.len() as int) =~= hs);
    Some(acc)
}

proof fn lemma_files_size_prefix(fs: Seq<FileModel>, k: int)
    requires
        0 <= k <= fs.len(),
    ensures
        files_size(fs.take(k)) <= files_size(fs),
    decreases fs.len() - k,
{
    if k < fs.len() {
        lemma_files_size_prefix(fs, k + 1);
        assert(fs.take(k + 1).drop_last() =~= fs.take(k));
    } else {
        assert(fs.take(k) =~= fs);
    }
}

/// Whether a review of `files` stays within the limits `App::new` needs.
pub fn files_fit_check(files: &Vec<FileEntry>) -> (r: bool)
    ensures
        r == files_fit(crate::parser::files_view(files@)),
{
    let ghost fs = crate::parser::files_view(files@);
    let limit = usize::MAX / 8;
    let mut total: usize = 0;
    let mut i: usize = 0;
    while i < files.len()
        invariant
            fs == crate::parser::files_view(files@),
            limit == row_limit(),
            i <= fs.len(),
            total == files_size(fs.take(i as int)),
            total <= limit,
            forall|k: int| 0 <= k < i ==> choice_fits(#[trigger] fs[k].rel_path.len()),
        decreases files.len() - i,
    {
        assert(fs.take(i + 1).drop_last() =~= fs.take(i as int));
        assert(fs[i as int] == files@[i as int]@);
        match file_units_within(&files[i], total, limit) {
            Some(t) => {
                total = t;
            },
            None => {
                proof {
                    lemma_files_size_prefix(fs, i + 1);
                }
                return false;
            },
        }
        if chars_of(files[i].rel_path.as_str()).len() > usize::MAX / 64 {
            assert(!choice_fits(fs[i as int].rel_path.len()));
            return false;
        }
        i += 1;
    }
    assert(fs.take(files.len() as int) =~= fs);
    true
}

impl App {
    /// Whether no folder is folded twice.
    fn folded_distinct(&self) -> (r: bool)
        ensures
            r == self@.folded.no_duplicates(),
    {
        let ghost f = self@.folded;
        let n = self.folded.len();
        let mut a: usize = 0;
        while a < n
            invariant
                f == self@.folded,
                n == f.len(),
                a <= n,
                forall|x: int, y: int| 0 <= x < a && x < y < n ==> f[x] != f[y],
            decreases n - a,
        {
            let mut b = a + 1;
            while b < n
                invariant
                    f == self@.folded,
                    n == f.len(),
                    a < b <= n,
                    forall|x: int, y: int| 0 <= x < a && x < y < n ==> f[x] != f[y],
                    forall|y: int| a < y < b ==> f[a as int] != f[y],
                decreases n - b,
            {
                if self.folded[a] == self.folded[b] {
                    assert(f[a as int] == f[b as int]);
                    return false;
                }
                b += 1;
            }
            a += 1;
        }
        true
    }

    /// Whether the review state is within the limits its operations need.
    pub fn is_well_formed(&self) -> (r: bool)
        ensures
            r == self@.wf(),
    {
        let ghost m = self@;
        if self.merged_folder_stacks.len() != self.files.len() {
            return false;
        }
        if !self.folded_distinct() {
            return false;
        }
        let limit = usize::MAX / 8;
        let mut total: usize = 0;
        let mut i: usize = 0;
        while i < self.files.len()
            invariant
                m == self@,
                m.stacks.len() == m.files.len(),
                limit == row_limit(),
                i <= m.files.len(),
                total == size_upto(m.files, m.stacks, i as nat),
                total <= limit,
                forall|k: int| 0 <= k < i ==> choice_fits(#[trigger] m.files[k].rel_path.len()),
            decreases self.files.len() - i,
        {
            let d = self.merged_folder_stacks[i].len();
            if d > limit - total {
                proof {
                    m.lemma_size_upto_mono((i + 1) as nat, m.files.len());
                }
                return false;
            }
            match file_units_within(&self.files[i], total + d, limit) {
                Some(t) => {
                    total = t;
                },
                None => {
                    proof {
                        m.lemma_size_upto_mono((i + 1) as nat, m.files.len());
                    }
                    return false;
                },
            }
            if chars_of(self.files[i].rel_path.as_str()).len() > usize::MAX / 64 {
                assert(!choice_fits(m.files[i as int].rel_path.len()));
                return false;
            }
            i += 1;
        }
        let mut k: usize = 0;
        while k < self.item_ys.len()
            invariant
                m == self@,
                limit == row_limit(),
                k <= m.item_ys.len(),
                forall|j: int| 0 <= j < k ==> #[trigger] m.item_ys[j] <= row_limit(),
            decreases self.item_ys.len() - k,
        {
            if self.item_ys[k] > limit {
                return false;
            }
            k += 1;
        }
        let fv_ok = match &self.file_view {
            Some(fv) => fv.file_idx < self.files.len() && fv.line_cursor <= usize::MAX / 2,
            None => true,
        };
        self.rendered_height <= limit && self.scroll_offset <= usize::MAX / 2 && self.cursor <= usize::MAX / 2
            && fv_ok
    }
}

} // verus!
