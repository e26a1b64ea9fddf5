use bandwidth_tui::paths::RequestType;
use bandwidth_tui::rows::DisplayRow;
use bandwidth_tui::viewport::id_column_width;
use bandwidth_tui::viewport::table_window;
use bandwidth_tui::viewport::visible_range;
use bandwidth_tui::viewport::visible_row_count;
use bandwidth_tui::viewport::TableWindow;

fn rows(n: usize) -> Vec<DisplayRow> {
    let mut rows = Vec::new();
    for i in 0..n {
        rows.push(DisplayRow {
            label: format!("row{}", i),
            ext: String::new(),
            request_count: 1,
            bandwidth_sum: 1,
            req_type: RequestType::Other,
            open_url: None,
            is_group: false,
        });
    }
    rows
}

#[test]
fn id_column_width_cases() {
    assert_eq!(id_column_width(0), 10);
    assert_eq!(id_column_width(52), 10);
    assert_eq!(id_column_width(62), 10);
    assert_eq!(id_column_width(63), 11);
    assert_eq!(id_column_width(120), 68);
    assert_eq!(id_column_width(u16::MAX), 65483);
}

#[test]
fn visible_row_count_cases() {
    assert_eq!(visible_row_count(0), 1);
    assert_eq!(visible_row_count(3), 1);
    assert_eq!(visible_row_count(4), 1);
    assert_eq!(visible_row_count(5), 2);
    assert_eq!(visible_row_count(24), 21);
    assert_eq!(visible_row_count(u16::MAX), 65532);
}

#[test]
fn visible_range_is_empty_without_rows_or_capacity() {
    assert_eq!(visible_range(&rows(0), Some(0), 10), (0, 0));
    assert_eq!(visible_range(&rows(0), None, 10), (0, 0));
    assert_eq!(visible_range(&rows(5), Some(2), 0), (0, 0));
    assert_eq!(visible_range(&rows(5), Some(2), 1), (0, 0));
}

#[test]
fn visible_range_shows_a_full_page_from_the_top() {
    assert_eq!(visible_range(&rows(10), Some(0), 5), (0, 4));
    assert_eq!(visible_range(&rows(10), Some(3), 5), (0, 4));
    assert_eq!(visible_range(&rows(10), None, 5), (0, 4));
    assert_eq!(visible_range(&rows(3), Some(1), 5), (0, 3));
}

#[test]
fn visible_range_scrolls_no_further_than_needed() {
    assert_eq!(visible_range(&rows(10), Some(4), 5), (1, 5));
    assert_eq!(visible_range(&rows(10), Some(7), 5), (4, 8));
    assert_eq!(visible_range(&rows(10), Some(9), 5), (6, 10));
}

#[test]
fn visible_range_clamps_the_selection() {
    assert_eq!(visible_range(&rows(10), Some(100), 5), (6, 10));
    assert_eq!(visible_range(&rows(10), Some(usize::MAX), 5), (6, 10));
    assert_eq!(visible_range(&rows(2), Some(9), usize::MAX), (0, 2));
}

#[test]
fn visible_range_holds_the_selection() {
    for len in 1..12usize {
        for visible in 2..9usize {
            for selected in 0..len {
                let (start, end) = visible_range(&rows(len), Some(selected), visible);
                assert!(start <= selected && selected < end);
                assert!(end <= len);
                assert!(end - start <= visible - 1);
                if len >= visible - 1 {
                    assert_eq!(end - start, visible - 1);
                }
            }
        }
    }
}

#[test]
fn table_window_cases() {
    assert_eq!(table_window(&rows(30), Some(0), 7), TableWindow { start: 0, end: 0, highlighted: None });
    assert_eq!(table_window(&rows(30), Some(0), 8), TableWindow { start: 0, end: 1, highlighted: Some(1) });
    assert_eq!(table_window(&rows(30), Some(0), 24), TableWindow { start: 0, end: 17, highlighted: Some(1) });
    assert_eq!(
        table_window(&rows(30), Some(20), 24),
        TableWindow { start: 4, end: 21, highlighted: Some(17) }
    );
    assert_eq!(table_window(&rows(30), None, 24), TableWindow { start: 0, end: 17, highlighted: None });
    assert_eq!(table_window(&rows(0), None, 24), TableWindow { start: 0, end: 0, highlighted: None });
}
