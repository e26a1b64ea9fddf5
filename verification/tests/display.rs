use bandwidth_tui::display::format_id_display;
use bandwidth_tui::display::header_line;
use bandwidth_tui::display::take_left;
use bandwidth_tui::display::totals_row;
use bandwidth_tui::display::truncate_with_ellipsis;
use bandwidth_tui::display::HeaderLine;
use bandwidth_tui::display::SortArrow;
use bandwidth_tui::rows::SortField;
use bandwidth_tui::session::App;
use bandwidth_tui::stats::PathStats;

fn stat(path: &str, requests: u64, bandwidth: u64) -> PathStats {
    PathStats {
        path: path.to_string(),
        sample_url: String::new(),
        request_count: requests,
        request_size_sum: 0,
        bandwidth_sum: bandwidth,
    }
}

fn underlined(line: &HeaderLine) -> Vec<usize> {
    line.chars.iter().enumerate().filter(|(_, c)| c.underlined).map(|(i, _)| i).collect()
}

fn text(line: &HeaderLine) -> String {
    line.chars.iter().map(|c| c.ch).collect()
}

#[test]
fn take_left_takes_characters() {
    assert_eq!(take_left("hello", 0), "");
    assert_eq!(take_left("hello", 2), "he");
    assert_eq!(take_left("hello", 5), "hello");
    assert_eq!(take_left("hello", 99), "hello");
    assert_eq!(take_left("", 3), "");
    assert_eq!(take_left("\u{e9}t\u{e9}", 2), "\u{e9}t");
}

#[test]
fn truncate_keeps_what_fits() {
    assert_eq!(truncate_with_ellipsis("hello", 5), "hello");
    assert_eq!(truncate_with_ellipsis("hello", 10), "hello");
    assert_eq!(truncate_with_ellipsis("", 0), "");
}

#[test]
fn truncate_ends_long_texts_in_dots() {
    assert_eq!(truncate_with_ellipsis("hello world", 8), "hello...");
    assert_eq!(truncate_with_ellipsis("hello", 4), "h...");
    assert_eq!(truncate_with_ellipsis("abcdefghij", 9), "abcdef...");
}

#[test]
fn truncate_cuts_without_dots_in_narrow_columns() {
    assert_eq!(truncate_with_ellipsis("hello", 3), "hel");
    assert_eq!(truncate_with_ellipsis("hello", 1), "h");
    assert_eq!(truncate_with_ellipsis("hello", 0), "");
}

#[test]
fn truncate_measures_bytes_and_cuts_characters() {
    assert_eq!(truncate_with_ellipsis("\u{e9}\u{e9}\u{e9}", 6), "\u{e9}\u{e9}\u{e9}");
    assert_eq!(truncate_with_ellipsis("\u{e9}\u{e9}\u{e9}", 5), "\u{e9}\u{e9}...");
    assert_eq!(truncate_with_ellipsis("\u{e9}\u{e9}", 3), "\u{e9}\u{e9}");
    assert_eq!(truncate_with_ellipsis("\u{1f600}", 2), "\u{1f600}");
}

#[test]
fn format_id_display_is_the_truncation() {
    assert_eq!(format_id_display("abcdefghijkl", 10), "abcdefg...");
    assert_eq!(format_id_display("abc", 10), "abc");
}

#[test]
fn header_line_underlines_the_first_shortcut_letter() {
    let app = App::new(Vec::new());
    let line = header_line("Requests", 'r', &app, SortField::Requests);
    assert_eq!(text(&line), "Requests");
    assert_eq!(underlined(&line), [0]);
    let line = header_line("Size (Avg)", 's', &app, SortField::AvgRequestSize);
    assert_eq!(underlined(&line), [0]);
    let line = header_line("Bandwidth", 'd', &app, SortField::Bandwidth);
    assert_eq!(underlined(&line), [3]);
    let line = header_line("ID", 'd', &app, SortField::Path);
    assert_eq!(underlined(&line), [1]);
    let line = header_line("Ext", 'E', &app, SortField::Ext);
    assert_eq!(underlined(&line), [0]);
    let line = header_line("Ext", 'q', &app, SortField::Ext);
    assert_eq!(underlined(&line), Vec::<usize>::new());
    let line = header_line("", 'q', &app, SortField::Ext);
    assert!(line.chars.is_empty());
    let line = header_line("a[A", '{', &app, SortField::Ext);
    assert_eq!(underlined(&line), Vec::<usize>::new());
    let line = header_line("@`", '@', &app, SortField::Ext);
    assert_eq!(underlined(&line), [0]);
    let line = header_line("`@", '@', &app, SortField::Ext);
    assert_eq!(underlined(&line), [1]);
}

#[test]
fn header_line_marks_the_sorted_column() {
    let mut app = App::new(Vec::new());
    assert_eq!(header_line("Bandwidth", 'b', &app, SortField::Bandwidth).arrow, Some(SortArrow::Down));
    assert_eq!(header_line("Requests", 'r', &app, SortField::Requests).arrow, None);
    app.set_sort(SortField::Bandwidth);
    assert_eq!(header_line("Bandwidth", 'b', &app, SortField::Bandwidth).arrow, Some(SortArrow::Up));
    app.set_sort(SortField::Path);
    assert_eq!(header_line("ID", 'd', &app, SortField::Path).arrow, Some(SortArrow::Up));
    assert_eq!(header_line("Bandwidth", 'b', &app, SortField::Bandwidth).arrow, None);
}

#[test]
fn totals_row_sums_all_paths() {
    let totals = totals_row(&vec![stat("/a", 3, 100), stat("/b", 1, 50), stat("/c", 0, 7)], 20);
    assert_eq!(totals.label, "TOTAL");
    assert_eq!(totals.requests, 4);
    assert_eq!(totals.bandwidth, 157);
    assert_eq!(totals.average, 39);
}

#[test]
fn totals_row_of_nothing_is_zero() {
    let totals = totals_row(&Vec::new(), 4);
    assert_eq!(totals.label, "T...");
    assert_eq!((totals.requests, totals.bandwidth, totals.average), (0, 0, 0));
    let totals = totals_row(&vec![stat("/a", 0, 10)], 3);
    assert_eq!(totals.label, "TOT");
    assert_eq!((totals.requests, totals.bandwidth, totals.average), (0, 10, 0));
}
