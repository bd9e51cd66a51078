//! Concrete checks of the library's contracts and laws.

use diffview::display::{
    clip_texts, file_view_scroll, highlight_segments, info_message, line_numbers, parse_hunk_start, wrap_text,
};
use diffview::fuzzy::matcher::{ArinaeMatcher, CaseMatching};
use diffview::fuzzy::prefilter::{cheap_typo_prefilter, tail_freq_check};
use diffview::model::{files_fit_check, scroll_for_cursor, App, FileViewLine, Key, RowPlan, VisibleKind};
use diffview::parser::{
    format_confirmed_diff, parse_diff, parse_diff_checked, strip_ansi, FileStatus, ParseError,
};

const TWO_FILES: &str = "\
diff --git a/src/a.rs b/src/a.rs
--- a/src/a.rs
+++ b/src/a.rs
@@ -1,3 +1,4 @@
 line1
+added
 line2
 line3
@@ -10,3 +11,3 @@
 ctx
-old
+new
 ctx
diff --git a/lib/b.rs b/lib/b.rs
new file mode 100644
--- /dev/null
+++ b/lib/b.rs
@@ -0,0 +1,2 @@
+one
+two
";

fn app() -> App {
    App::new(parse_diff(TWO_FILES))
}

fn kind_at(app: &App, i: usize) -> Option<VisibleKind> {
    app.visible_items().get(i).map(|v| v.kind.clone())
}

// ── Parsing ──

#[test]
fn strip_ansi_removes_escape_sequences() {
    assert_eq!(strip_ansi("\x1b[1mbold\x1b[0m plain \x1b[32m+x\x1b[0m"), "bold plain +x");
    assert_eq!(strip_ansi("no escapes"), "no escapes");
}

#[test]
fn parse_counts_and_status() {
    let files = parse_diff(TWO_FILES);
    assert_eq!(files.len(), 2);
    assert_eq!(files[0].status, FileStatus::Modified);
    assert_eq!(files[0].additions, 2);
    assert_eq!(files[0].deletions, 1);
    assert_eq!(files[0].hunks[1].additions, 1);
    assert_eq!(files[0].hunks[1].deletions, 1);
    assert_eq!(files[1].status, FileStatus::Added);
    assert_eq!(files[1].header_lines, vec!["new file mode 100644".to_string()]);
    assert_eq!(files[1].additions, 2);
}

#[test]
fn parse_error_on_header_line() {
    let r = parse_diff_checked("diff --git a/x b/x\ngarbage\n");
    assert!(matches!(r, Err(ParseError::UnexpectedHeaderLine(ref l)) if l == "garbage"));
}

#[test]
fn parse_error_on_hunk_line() {
    let r = parse_diff_checked("diff --git a/x b/x\n--- a/x\n+++ b/x\n@@ -1 +1 @@\n?bad\n");
    assert!(matches!(r, Err(ParseError::UnexpectedHunkLine(ref l)) if l == "?bad"));
}

#[test]
fn deleted_file_status() {
    let files = parse_diff("diff --git a/x b/x\n--- a/x\n+++ /dev/null\n@@ -1 +0,0 @@\n-gone\n");
    assert_eq!(files[0].status, FileStatus::Deleted);
}

#[test]
fn text_before_first_diff_is_ignored() {
    let files = parse_diff("commit abc\nAuthor: x\n\ndiff --git a/x b/x\n--- a/x\n+++ b/x\n@@ -1 +1 @@\n-a\n+b\n");
    assert_eq!(files.len(), 1);
    assert_eq!(files[0].rel_path, "x");
}

#[test]
fn crlf_lines_are_chomped() {
    let files = parse_diff("diff --git a/x b/x\r\n--- a/x\r\n+++ b/x\r\n@@ -1 +1 @@\r\n-a\r\n+b\r\n");
    assert_eq!(files[0].rel_path, "x");
    assert_eq!(files[0].hunks[0].header, "@@ -1 +1 @@");
}

#[test]
fn round_trip_gives_back_the_files() {
    let mut files = parse_diff(TWO_FILES);
    for f in files.iter_mut() {
        for h in f.hunks.iter_mut() {
            h.confirmed = true;
        }
    }
    let out = format_confirmed_diff(&files);
    assert_eq!(out, TWO_FILES);
    let back = parse_diff(&out);
    assert_eq!(back.len(), files.len());
    for (a, b) in back.iter().zip(files.iter()) {
        assert_eq!(a.rel_path, b.rel_path);
        assert_eq!(a.status, b.status);
        assert_eq!(a.header_lines, b.header_lines);
        assert_eq!(a.hunks.len(), b.hunks.len());
        assert!(a.hunks.iter().all(|h| !h.confirmed));
    }
}

#[test]
fn round_trip_of_whole_file_units() {
    let diff = "\
diff --git a/script.sh b/script.sh
old mode 100644
new mode 100755
diff --git a/image.png b/image.png
index abc..def 100644
Binary files a/image.png and b/image.png differ
";
    let mut files = parse_diff(diff);
    files[0].confirmed = true;
    files[1].confirmed = true;
    let out = format_confirmed_diff(&files);
    assert_eq!(out, diff);
    let back = parse_diff(&out);
    assert_eq!(back.len(), 2);
    assert_eq!(back[0].header_lines, files[0].header_lines);
    assert!(back[1].binary);
    assert_eq!(back[1].binary_content, files[1].binary_content);
    assert!(!back[0].confirmed && !back[1].confirmed);
}

#[test]
fn fresh_parse_formats_to_nothing() {
    assert!(format_confirmed_diff(&parse_diff(TWO_FILES)).is_empty());
}

#[test]
fn confirmed_units_count() {
    let mut files = parse_diff(TWO_FILES);
    files[0].hunks[1].confirmed = true;
    assert_eq!(files[0].confirmed_count(), 1);
    assert!(!files[0].all_confirmed());
    files[0].hunks[0].confirmed = true;
    assert_eq!(files[0].confirmed_count(), files[0].total_units());
    assert!(files[0].all_confirmed());
}

// ── Display ──

#[test]
fn hunk_start_numbers() {
    assert_eq!(parse_hunk_start("@@ -36,8 +40,9 @@ fn main()"), (36, 40));
    assert_eq!(parse_hunk_start("@@ -7 +3 @@"), (7, 3));
    assert_eq!(parse_hunk_start("@@ -x,1 +5 @@"), (1, 5));
    // the new start is read after the first `+`, here the old start's sign
    assert_eq!(parse_hunk_start("@@ -+5,1 +2,1 @@"), (5, 5));
    assert_eq!(parse_hunk_start("not a header"), (1, 1));
}

#[test]
fn line_numbers_walk_the_hunk() {
    let files = parse_diff(TWO_FILES);
    let h = &files[0].hunks[1];
    assert_eq!(line_numbers(h, 0), (10, 11));
    assert_eq!(line_numbers(h, 1), (11, 12));
    assert_eq!(line_numbers(h, 2), (12, 12));
    assert_eq!(line_numbers(h, 3), (12, 13));
    assert_eq!(line_numbers(h, 4), (13, 14));
}

#[test]
fn wrap_breaks_after_blanks() {
    assert_eq!(wrap_text("hello world foo", 11), vec!["hello ", "world foo"]);
    assert_eq!(wrap_text("short", 11), vec!["short"]);
    assert_eq!(wrap_text("anything at all", 0), vec!["anything at all"]);
}

#[test]
fn wrap_hard_breaks_long_tokens() {
    assert_eq!(wrap_text("abcdefghij", 4), vec!["abcd", "efgh", "ij"]);
}

#[test]
fn wrap_counts_wide_characters() {
    assert_eq!(wrap_text("日本語", 3), vec!["日", "本", "語"]);
    assert_eq!(wrap_text("日本語", 4), vec!["日本", "語"]);
}

#[test]
fn wrap_rows_put_back_together() {
    let text = "a somewhat longer line of text that wraps several times";
    let rows = wrap_text(text, 10);
    assert_eq!(rows.concat(), text);
}

#[test]
fn file_view_scroll_keeps_rows_in_view() {
    // rows 30..33 of 100, viewport 20, margin 5
    assert_eq!(file_view_scroll(30, 33, 0, 20, 100), 18);
    assert_eq!(file_view_scroll(2, 3, 10, 20, 100), 0);
    assert_eq!(file_view_scroll(12, 13, 10, 20, 100), 7);
    assert_eq!(file_view_scroll(95, 96, 0, 20, 100), 80);
}

#[test]
fn clip_keeps_what_fits() {
    let texts = vec!["abc".to_string(), "defg".to_string(), "hi".to_string()];
    assert_eq!(clip_texts(&texts, 20), texts);
    assert_eq!(clip_texts(&texts, 5), vec!["abc", "de"]);
    assert_eq!(clip_texts(&texts, 7), vec!["abc", "defg"]);
    assert_eq!(clip_texts(&texts, 3), vec!["abc"]);
    assert_eq!(clip_texts(&vec!["日本".to_string()], 3), vec!["日"]);
}

// ── Scrolling ──

#[test]
fn scroll_for_cursor_values() {
    assert_eq!(scroll_for_cursor(50, 0, 20), 36);
    assert_eq!(scroll_for_cursor(10, 30, 20), 5);
    assert_eq!(scroll_for_cursor(35, 30, 20), 30);
    assert_eq!(scroll_for_cursor(3, 30, 20), 0);
}

#[test]
fn scroll_keeps_cursor_in_view() {
    for cy in 0..60 {
        for scroll in 0..60 {
            for vh in 1..25 {
                let r = scroll_for_cursor(cy, scroll, vh);
                assert!(r <= cy && cy < r + vh);
            }
        }
    }
}

// ── Review state ──

#[test]
fn visible_items_of_new_review() {
    let a = app();
    let kinds: Vec<VisibleKind> = a.visible_items().into_iter().map(|v| v.kind).collect();
    assert_eq!(kinds.len(), 1 + 1 + 4 + 1 + 4 + 1 + 1 + 2);
    assert!(matches!(kinds[0], VisibleKind::File(0)));
    assert!(matches!(kinds[1], VisibleKind::HunkHeader(0, 0)));
    assert!(matches!(kinds[2], VisibleKind::HunkLine(0, 0, 0)));
    assert!(matches!(kinds[11], VisibleKind::File(1)));
    assert_eq!(a.cursor_targets(), vec![0, 1, 6, 11, 12]);
}

#[test]
fn folded_files_show_no_hunks() {
    let diff = "diff --git a/Cargo.lock b/Cargo.lock\n--- a/Cargo.lock\n+++ b/Cargo.lock\n@@ -1 +1 @@\n-a\n+b\n";
    let a = App::new(parse_diff(diff));
    assert!(a.folded_files.contains(&0));
    assert_eq!(a.visible_items().len(), 1);
}

#[test]
fn confirm_and_advance_on_hunk() {
    let mut a = app();
    a.cursor = 1;
    a.confirm_and_advance();
    assert!(a.files[0].hunks[0].confirmed);
    // the confirmed hunk hides its lines; the cursor moves on to the next hunk
    assert!(matches!(kind_at(&a, 2), Some(VisibleKind::HunkHeader(0, 1))));
    assert_eq!(a.cursor_targets(), vec![0, 1, 2, 7, 8]);
    assert_eq!(a.cursor, 2);
}

#[test]
fn confirm_and_advance_on_file_folds_it() {
    let mut a = app();
    a.confirm_and_advance();
    assert!(a.files[0].all_confirmed());
    assert!(a.folded_files.contains(&0));
    assert!(matches!(kind_at(&a, 1), Some(VisibleKind::File(1))));
    assert_eq!(a.cursor, 1);
}

#[test]
fn space_toggles_hunk() {
    let mut a = app();
    a.cursor = 1;
    a.toggle_confirmation();
    assert!(a.files[0].hunks[0].confirmed);
    assert_eq!(a.cursor, 1);
    a.toggle_confirmation();
    assert!(!a.files[0].hunks[0].confirmed);
    assert_eq!(a.cursor, 1);
}

#[test]
fn space_toggles_file() {
    let mut a = app();
    a.toggle_confirmation();
    assert!(a.files[0].all_confirmed());
    assert_eq!(a.cursor, 0);
    a.toggle_confirmation();
    assert_eq!(a.files[0].confirmed_count(), 0);
}

#[test]
fn enter_on_confirmed_hunk_unconfirms_and_advances() {
    let mut a = app();
    a.files[0].hunks[0].confirmed = true;
    a.cursor = 1;
    a.confirm_and_advance();
    assert!(!a.files[0].hunks[0].confirmed);
    assert!(matches!(kind_at(&a, a.cursor), Some(VisibleKind::HunkHeader(0, 1))));
}

#[test]
fn invert_twice_restores_file() {
    let mut a = app();
    a.files[0].hunks[1].confirmed = true;
    a.invert_confirmation();
    assert!(a.files[0].hunks[0].confirmed);
    assert!(!a.files[0].hunks[1].confirmed);
    assert_eq!(a.cursor, 0);
    a.invert_confirmation();
    assert!(!a.files[0].hunks[0].confirmed);
    assert!(a.files[0].hunks[1].confirmed);
    assert_eq!(a.cursor, 0);
}

#[test]
fn parsed_counts_are_sums() {
    let files = parse_diff(TWO_FILES);
    assert_eq!(files[0].additions, 2);
    assert_eq!(files[0].deletions, 1);
    assert_eq!(files[0].hunks[0].additions + files[0].hunks[1].additions, 2);
    assert!(files.iter().all(|f| !f.rel_path.is_empty()));
}

#[test]
fn any_selection_gives_output() {
    let mut files = parse_diff(TWO_FILES);
    assert!(format_confirmed_diff(&files).is_empty());
    files[1].hunks[0].confirmed = true;
    assert!(!format_confirmed_diff(&files).is_empty());
}

#[test]
fn invert_twice_restores_hunk() {
    let mut a = app();
    a.cursor = 1;
    a.invert_confirmation();
    assert!(a.files[0].hunks[0].confirmed);
    assert_eq!(a.cursor, 1);
    a.invert_confirmation();
    assert!(!a.files[0].hunks[0].confirmed);
}

#[test]
fn invert_on_file_flips_every_hunk() {
    let mut a = app();
    a.files[0].hunks[1].confirmed = true;
    a.invert_confirmation();
    assert!(a.files[0].hunks[0].confirmed);
    assert!(!a.files[0].hunks[1].confirmed);
}

#[test]
fn fold_from_hunk_then_unfold() {
    let mut a = app();
    a.cursor = 6;
    a.fold_current();
    assert!(a.folded_files.contains(&0));
    assert_eq!(a.cursor, 0);
    a.unfold_current();
    assert!(!a.folded_files.contains(&0));
    a.unfold_current();
    assert_eq!(a.cursor, 1);
}

#[test]
fn cursor_moves_within_viewport() {
    let mut a = app();
    a.viewport_height = 40;
    a.cursor_down();
    assert_eq!(a.cursor, 1);
    a.cursor_down();
    assert_eq!(a.cursor, 6);
    a.cursor_up();
    assert_eq!(a.cursor, 1);
}

#[test]
fn cursor_down_scrolls_when_next_is_off_screen() {
    let mut a = app();
    a.viewport_height = 4;
    a.cursor = 1;
    a.cursor_down();
    // rows: file 0, hunk 1, lines 2..5, hunk 6: off screen, so scroll by 2
    assert_eq!(a.cursor, 1);
    assert_eq!(a.scroll_offset, 2);
}

#[test]
fn estimated_rows_and_height() {
    let a = app();
    let ys = a.item_y_positions();
    assert_eq!(ys[0], 0);
    assert_eq!(ys[1], 1);
    assert_eq!(ys[10], 10);
    // the second file starts after the first file's bottom border
    assert_eq!(ys[11], 12);
    assert_eq!(a.total_rendered_height(), 17);
}

#[test]
fn mouse_scroll_is_bounded() {
    let mut a = app();
    a.scroll_line_down();
    assert_eq!(a.scroll_offset, 0);
    a.viewport_height = 10;
    for _ in 0..20 {
        a.scroll_line_down();
    }
    assert_eq!(a.scroll_offset, 7);
    a.scroll_line_up();
    assert_eq!(a.scroll_offset, 6);
}

#[test]
fn toggle_wrap_drops_geometry() {
    let mut a = app();
    a.item_ys = vec![0, 1, 2];
    a.rendered_height = 9;
    a.toggle_wrap();
    assert!(!a.wrap);
    assert!(a.item_ys.is_empty());
    assert_eq!(a.rendered_height, 0);
    assert_eq!(a.scroll_anchor, Some(0));
}

#[test]
fn file_view_navigation() {
    let mut a = app();
    a.cursor = 1;
    a.enter_file_view();
    let fv = a.file_view.as_ref().unwrap();
    assert_eq!(fv.file_idx, 0);
    assert_eq!(a.file_view_lines(0).len(), 10);
    assert_eq!(a.file_view_lines(0)[5], FileViewLine::HunkHeader(1));
    a.file_view_down();
    a.file_view_down();
    assert_eq!(a.file_view.as_ref().unwrap().line_cursor, 2);
    a.file_view_toggle();
    assert!(a.files[0].hunks[0].confirmed);
    // the confirmed hunk collapses to its header: 1 + 5 lines remain
    assert_eq!(a.file_view_lines(0).len(), 6);
    assert_eq!(a.file_view.as_ref().unwrap().line_cursor, 2);
    a.file_view_half_page_down();
    assert_eq!(a.file_view.as_ref().unwrap().line_cursor, 3);
    a.file_view_half_page_up();
    assert_eq!(a.file_view.as_ref().unwrap().line_cursor, 2);
    a.exit_file_view();
    assert!(a.file_view.is_none());
    assert_eq!(a.cursor, 0);
}

#[test]
fn file_list_sorts_by_score() {
    let diff = "\
diff --git a/zzz/readme.md b/zzz/readme.md
--- a/zzz/readme.md
+++ b/zzz/readme.md
@@ -1 +1 @@
-a
+b
diff --git a/src/read.rs b/src/read.rs
--- a/src/read.rs
+++ b/src/read.rs
@@ -1 +1 @@
-a
+b
";
    let mut a = App::new(parse_diff(diff));
    assert_eq!(a.filtered_files().iter().map(|e| e.0).collect::<Vec<_>>(), vec![0, 1]);
    a.file_list_query = "rd".to_string();
    let r = a.filtered_files();
    assert_eq!(r.len(), 2);
    let s0 = r[0].1.as_ref().unwrap().0;
    let s1 = r[1].1.as_ref().unwrap().0;
    assert!(s0 >= s1);
    a.file_list_query = "qqq".to_string();
    assert!(a.filtered_files().is_empty());
}

#[test]
fn keys_drive_the_review() {
    let mut a = app();
    a.handle_key(Key::Char('j'), false);
    assert!(matches!(kind_at(&a, a.cursor), Some(VisibleKind::File(1))));
    a.handle_key(Key::Char('?'), false);
    assert!(a.show_help);
    a.handle_key(Key::Char('j'), false);
    assert!(matches!(kind_at(&a, a.cursor), Some(VisibleKind::File(1))));
    a.handle_key(Key::Esc, false);
    assert!(!a.show_help);
    a.handle_key(Key::Char('f'), false);
    assert!(a.show_file_list);
    a.handle_key(Key::Char('s'), false);
    a.handle_key(Key::Char('r'), false);
    assert_eq!(a.file_list_query, "sr");
    a.handle_key(Key::Backspace, false);
    assert_eq!(a.file_list_query, "s");
    a.handle_key(Key::Esc, false);
    assert!(!a.show_file_list);
    a.handle_key(Key::Char('w'), false);
    assert!(!a.wrap);
    a.handle_key(Key::Char('c'), true);
    assert!(a.should_exit);
}

#[test]
fn space_key_toggles_and_enter_advances() {
    let mut a = app();
    a.cursor = 1;
    a.handle_key(Key::Char(' '), false);
    assert!(a.files[0].hunks[0].confirmed);
    assert_eq!(a.cursor, 1);
    a.handle_key(Key::Char(' '), false);
    assert!(!a.files[0].hunks[0].confirmed);
    a.handle_key(Key::Enter, false);
    assert!(a.files[0].hunks[0].confirmed);
    assert_eq!(a.cursor, 2);
}

#[test]
fn estimated_height_counts_info_line() {
    let a = App::new(parse_diff("diff --git a/script.sh b/script.sh\nold mode 100644\nnew mode 100755\n"));
    assert_eq!(a.visible_items().len(), 1);
    assert_eq!(a.total_rendered_height(), 3);
}

#[test]
fn file_list_enter_jumps() {
    let mut a = app();
    a.handle_key(Key::Char('f'), false);
    a.handle_key(Key::Down, false);
    assert_eq!(a.file_list_cursor, 1);
    a.handle_key(Key::Enter, false);
    assert!(!a.show_file_list);
    assert!(matches!(kind_at(&a, a.cursor), Some(VisibleKind::File(1))));
}

#[test]
fn mouse_in_file_view_moves_line_cursor() {
    let mut a = app();
    a.handle_key(Key::Tab, false);
    assert!(a.file_view.is_some());
    a.handle_scroll(false);
    assert_eq!(a.file_view.as_ref().unwrap().line_cursor, 1);
    a.handle_scroll(true);
    assert_eq!(a.file_view.as_ref().unwrap().line_cursor, 0);
    a.handle_key(Key::Esc, false);
    assert!(a.file_view.is_none());
}

#[test]
fn unit_position_for_scrollbar() {
    let a = app();
    let vis = a.visible_items();
    assert_eq!(a.cursor_unit_position(0, &vis), 0);
    assert_eq!(a.cursor_unit_position(6, &vis), 1);
    assert_eq!(a.cursor_unit_position(11, &vis), 2);
    assert_eq!(a.cursor_unit_position(99, &vis), 0);
}

// ── Fuzzy matching ──

#[test]
fn fuzzy_exact_scores() {
    let m = ArinaeMatcher::new(CaseMatching::Smart);
    assert_eq!(m.fuzzy_match("a", "a"), Some(50));
    assert_eq!(m.fuzzy_match("ab", "b"), Some(18));
    assert_eq!(m.fuzzy_match("AB", "b"), Some(18));
    assert_eq!(m.fuzzy_match("abc", ""), Some(0));
    assert_eq!(m.fuzzy_match("", "a"), None);
    assert_eq!(m.fuzzy_match("abc", "x"), None);
}

#[test]
fn fuzzy_respects_case_when_asked() {
    let m = ArinaeMatcher::new(CaseMatching::Respect);
    assert_eq!(m.fuzzy_match("AB", "b"), None);
    let smart = ArinaeMatcher::new(CaseMatching::Smart);
    assert_eq!(smart.fuzzy_match("ab", "B"), None);
}

#[test]
fn fuzzy_indices_ascend_within_choice() {
    let m = ArinaeMatcher::new(CaseMatching::Smart);
    let (score, idx) = m.fuzzy_indices("src/model.rs", "mod").unwrap();
    assert!(score > 0);
    assert_eq!(idx, vec![4, 5, 6]);
    assert_eq!(m.fuzzy_match("src/model.rs", "mod"), Some(score));
}

#[test]
fn fuzzy_needs_pattern_in_order() {
    let m = ArinaeMatcher::new(CaseMatching::Smart);
    assert_eq!(m.fuzzy_match("abc", "ca"), None);
    assert_eq!(m.fuzzy_match("abc", "abcd"), None);
    assert!(m.fuzzy_match("abc", "ac").is_some());
}

#[test]
fn fuzzy_non_ascii_ignores_case() {
    let m = ArinaeMatcher::new(CaseMatching::Smart);
    assert_eq!(m.fuzzy_match("É", "é"), Some(50));
    assert_eq!(m.fuzzy_match("日本", "本"), Some(18));
}

#[test]
fn prefilter_decisions() {
    assert!(cheap_typo_prefilter(b"abc", b"xaybzc", false));
    assert!(!cheap_typo_prefilter(b"abc", b"xyz", false));
    assert!(!cheap_typo_prefilter(b"abcd", b"a", false));
    assert!(cheap_typo_prefilter(b"ab", b"xxab", true));
    assert!(cheap_typo_prefilter(b"aqqq", b"aqxx", true));
    assert!(!cheap_typo_prefilter(b"aqqqq", b"aqxxx", true));
    assert!(cheap_typo_prefilter(b"aqqqq", b"aqqxx", true));
}

#[test]
fn tail_check_needs_one_pairing() {
    assert!(!tail_freq_check(b"ab", b"zz", false, 0));
    assert!(tail_freq_check(b"ab", b"zb", false, 0));
    assert!(tail_freq_check(b"aBc", b"bC", false, 2));
    assert!(!tail_freq_check(b"aBc", b"bC", true, 2));
}

#[test]
fn limits_hold_for_ordinary_reviews() {
    let files = parse_diff(TWO_FILES);
    assert!(files_fit_check(&files));
    let mut a = App::new(files);
    assert!(a.is_well_formed());
    a.item_ys = vec![0, usize::MAX];
    assert!(!a.is_well_formed());
    a.item_ys = vec![0, 1];
    a.scroll_offset = usize::MAX;
    assert!(!a.is_well_formed());
    a.scroll_offset = 0;
    a.folded = vec!["x".to_string(), "x".to_string()];
    assert!(!a.is_well_formed());
}

// ── Frame layout ──

#[test]
fn main_view_rows_follow_boxes() {
    let a = app();
    let (ys, total) = a.main_view_rows(80).unwrap();
    assert_eq!(ys, vec![0, 1, 2, 3, 4, 5, 6, 7, 8, 9, 10, 12, 13, 14, 15]);
    assert_eq!(total, 17);
}

#[test]
fn main_view_rows_count_info_line() {
    let a = App::new(parse_diff("diff --git a/script.sh b/script.sh\nold mode 100644\nnew mode 100755\n"));
    assert_eq!(a.main_view_rows(80), Some((vec![0], 3)));
}

#[test]
fn frame_main_view_publishes_geometry() {
    let mut a = app();
    a.scroll_offset = 30;
    assert!(a.frame_main_view(80, 10));
    assert_eq!(a.viewport_height, 10);
    assert_eq!(a.rendered_height, 17);
    assert_eq!(a.item_ys.len(), 15);
    // the scroll offset is capped at the last full page
    assert_eq!(a.scroll_offset, 7);
    a.scroll_anchor = Some(11);
    assert!(a.frame_main_view(80, 5));
    assert_eq!(a.scroll_offset, 12);
    assert_eq!(a.scroll_anchor, None);
}

#[test]
fn frame_file_view_rows_and_scroll() {
    let mut a = app();
    a.handle_key(Key::Tab, false);
    let (starts, total) = a.frame_file_view(80, 5).unwrap();
    assert_eq!(starts, (0..10).collect::<Vec<usize>>());
    assert_eq!(total, 10);
    assert_eq!(a.file_view.as_ref().unwrap().viewport_height, 5);
    a.file_view.as_mut().unwrap().line_cursor = 9;
    a.frame_file_view(80, 5);
    assert_eq!(a.file_view.as_ref().unwrap().scroll_offset, 5);
    let (_, narrow) = a.frame_file_view(12, 5).unwrap();
    assert!(narrow > 10);
}

#[test]
fn highlight_splits_path() {
    let segs = highlight_segments("src/a.rs", &vec![0, 4]);
    let expect: Vec<(String, bool)> = vec![
        ("s".to_string(), true),
        ("rc/".to_string(), false),
        ("a".to_string(), true),
        (".rs".to_string(), false),
    ];
    assert_eq!(segs, expect);
    assert_eq!(highlight_segments("é/x", &vec![2]), vec![("é/".to_string(), false), ("x".to_string(), true)]);
}

#[test]
fn file_list_cursor_clamps() {
    let mut a = app();
    a.file_list_cursor = 5;
    assert_eq!(a.clamp_file_list_cursor(2), Some(1));
    assert_eq!(a.file_list_cursor, 1);
    assert_eq!(a.clamp_file_list_cursor(0), None);
    assert_eq!(a.file_list_cursor, 1);
}

#[test]
fn info_message_for_binary_and_mode() {
    let mode = parse_diff("diff --git a/script.sh b/script.sh\nold mode 100644\nnew mode 100755\n");
    assert_eq!(info_message(&mode[0]), "  Mode change only");
    let bin = parse_diff("diff --git a/img.png b/img.png\nBinary files a/img.png and b/img.png differ\n");
    assert_eq!(info_message(&bin[0]), "  Binary file");
    let mut sized = bin[0].clone();
    sized.binary_old_size = Some(120);
    sized.binary_new_size = Some(4096);
    assert_eq!(info_message(&sized), "  Binary file (120 \u{2192} 4096 bytes)");
    sized.status = FileStatus::Added;
    assert_eq!(info_message(&sized), "  Binary file (4096 bytes)");
    sized.status = FileStatus::Deleted;
    assert_eq!(info_message(&sized), "  Binary file (was 120 bytes)");
}

#[test]
fn char_case_folding() {
    let m = ArinaeMatcher::new(CaseMatching::Ignore);
    assert_eq!(m.fuzzy_match("ÀB", "àb").is_some(), true);
    assert_eq!(m.fuzzy_match("Σ", "σ").is_some(), true);
    assert_eq!(m.fuzzy_match("é", "e"), None);
}

#[test]
fn main_view_plan_lists_rows() {
    let a = app();
    let plan = a.main_view_plan(80).unwrap();
    let mut expect = vec![RowPlan::Top(0), RowPlan::Header(1)];
    for k in 2..6 {
        expect.push(RowPlan::Line(k, 0));
    }
    expect.push(RowPlan::Header(6));
    for k in 7..11 {
        expect.push(RowPlan::Line(k, 0));
    }
    expect.extend([RowPlan::Bottom, RowPlan::Top(11), RowPlan::Header(12), RowPlan::Line(13, 0), RowPlan::Line(14, 0), RowPlan::Bottom]);
    assert_eq!(plan, expect);
    let mode = App::new(parse_diff("diff --git a/script.sh b/script.sh\nold mode 100644\nnew mode 100755\n"));
    assert_eq!(mode.main_view_plan(80).unwrap(), vec![RowPlan::Top(0), RowPlan::Info(0), RowPlan::Bottom]);
}

#[test]
fn renamed_file_round_trips() {
    let diff = "\
diff --git a/old/name.rs b/new/name.rs
similarity index 90%
rename from old/name.rs
rename to new/name.rs
--- a/old/name.rs
+++ b/new/name.rs
@@ -1,2 +1,2 @@
 keep
-gone
+here
diff --git a/a.txt b/b.txt
similarity index 100%
copy from a.txt
copy to b.txt
";
    let mut files = parse_diff(diff);
    assert_eq!(files[0].status, FileStatus::Renamed);
    assert_eq!(files[0].old_path.as_deref(), Some("old/name.rs"));
    assert_eq!(files[1].status, FileStatus::Copied);
    files[0].hunks[0].confirmed = true;
    files[1].confirmed = true;
    assert_eq!(format_confirmed_diff(&files), diff);
}
