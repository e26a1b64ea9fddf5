use bandwidth_tui::order::key_standing;
use bandwidth_tui::order::text_standing;
use bandwidth_tui::order::SortKey;
use bandwidth_tui::order::Standing;
use bandwidth_tui::paths::RequestType;
use bandwidth_tui::rows::sort_display_rows;
use bandwidth_tui::rows::DisplayRow;
use bandwidth_tui::rows::SortField;
use bandwidth_tui::sort::sorted_indices;

fn row(label: &str, ext: &str, requests: u64, bandwidth: u64, kind: RequestType) -> DisplayRow {
    DisplayRow {
        label: label.to_string(),
        ext: ext.to_string(),
        request_count: requests,
        bandwidth_sum: bandwidth,
        req_type: kind,
        open_url: Some(format!("http://h/{}", label)),
        is_group: false,
    }
}

fn labels(rows: &[DisplayRow]) -> Vec<String> {
    rows.iter().map(|r| r.label.clone()).collect()
}

fn sample() -> Vec<DisplayRow> {
    vec![
        row("delta", ".png", 5, 100, RequestType::Image),
        row("alpha", ".jpg", 1, 900, RequestType::Image),
        row("charlie", "", 9, 100, RequestType::Other),
        row("GROQ Queries", "", 3, 50, RequestType::Query),
        row("bravo", ".pdf", 0, 0, RequestType::File),
    ]
}

fn key(rank: u8, text: &str, number: u64) -> SortKey {
    SortKey { rank, text: text.chars().collect(), number }
}

#[test]
fn avg_size_divides_bandwidth_by_requests() {
    assert_eq!(row("a", "", 4, 1000, RequestType::Other).avg_size(), 250);
    assert_eq!(row("a", "", 3, 1000, RequestType::Other).avg_size(), 333);
    assert_eq!(row("a", "", 0, 1000, RequestType::Other).avg_size(), 0);
    assert_eq!(row("a", "", 7, 0, RequestType::Other).avg_size(), 0);
    assert_eq!(row("a", "", 1, u64::MAX, RequestType::Other).avg_size(), u64::MAX);
}

#[test]
fn sort_by_bandwidth_descending_is_stable() {
    let mut rows = sample();
    sort_display_rows(&mut rows, SortField::Bandwidth, true);
    assert_eq!(labels(&rows), ["alpha", "delta", "charlie", "GROQ Queries", "bravo"]);
}

#[test]
fn sort_by_bandwidth_ascending_is_stable() {
    let mut rows = sample();
    sort_display_rows(&mut rows, SortField::Bandwidth, false);
    assert_eq!(labels(&rows), ["bravo", "GROQ Queries", "delta", "charlie", "alpha"]);
}

#[test]
fn sort_by_requests() {
    let mut rows = sample();
    sort_display_rows(&mut rows, SortField::Requests, false);
    assert_eq!(labels(&rows), ["bravo", "alpha", "GROQ Queries", "delta", "charlie"]);
    sort_display_rows(&mut rows, SortField::Requests, true);
    assert_eq!(labels(&rows), ["charlie", "delta", "GROQ Queries", "alpha", "bravo"]);
}

#[test]
fn sort_by_average_size() {
    let mut rows = sample();
    sort_display_rows(&mut rows, SortField::AvgRequestSize, true);
    assert_eq!(labels(&rows), ["alpha", "delta", "GROQ Queries", "charlie", "bravo"]);
    let mut rows = sample();
    sort_display_rows(&mut rows, SortField::AvgRequestSize, false);
    assert_eq!(labels(&rows), ["bravo", "charlie", "GROQ Queries", "delta", "alpha"]);
}

#[test]
fn sort_by_path_puts_queries_first_when_ascending() {
    let mut rows = sample();
    sort_display_rows(&mut rows, SortField::Path, false);
    assert_eq!(labels(&rows), ["GROQ Queries", "alpha", "bravo", "charlie", "delta"]);
}

#[test]
fn sort_by_path_descending_reverses_the_whole_order() {
    let mut rows = sample();
    sort_display_rows(&mut rows, SortField::Path, true);
    assert_eq!(labels(&rows), ["delta", "charlie", "bravo", "alpha", "GROQ Queries"]);
}

#[test]
fn sort_by_extension() {
    let mut rows = sample();
    sort_display_rows(&mut rows, SortField::Ext, false);
    assert_eq!(labels(&rows), ["charlie", "GROQ Queries", "alpha", "bravo", "delta"]);
    let mut rows = sample();
    sort_display_rows(&mut rows, SortField::Ext, true);
    assert_eq!(labels(&rows), ["delta", "bravo", "alpha", "charlie", "GROQ Queries"]);
}

#[test]
fn sort_compares_labels_by_code_point() {
    let mut rows = vec![
        row("b", "", 1, 1, RequestType::Other),
        row("B", "", 1, 1, RequestType::Other),
        row("\u{e9}", "", 1, 1, RequestType::Other),
        row("ab", "", 1, 1, RequestType::Other),
        row("a", "", 1, 1, RequestType::Other),
        row("", "", 1, 1, RequestType::Other),
        row("\u{1f600}", "", 1, 1, RequestType::Other),
        row("\u{ffff}", "", 1, 1, RequestType::Other),
    ];
    let mut expected = labels(&rows);
    expected.sort();
    sort_display_rows(&mut rows, SortField::Path, false);
    assert_eq!(labels(&rows), expected);
    assert_eq!(labels(&rows), ["", "B", "a", "ab", "b", "\u{e9}", "\u{ffff}", "\u{1f600}"]);
}

#[test]
fn sort_keeps_every_field_of_a_row() {
    let mut rows = sample();
    sort_display_rows(&mut rows, SortField::Requests, true);
    assert_eq!(rows.len(), 5);
    assert_eq!(rows[0].label, "charlie");
    assert_eq!(rows[0].ext, "");
    assert_eq!(rows[0].request_count, 9);
    assert_eq!(rows[0].bandwidth_sum, 100);
    assert_eq!(rows[0].req_type, RequestType::Other);
    assert_eq!(rows[0].open_url, Some("http://h/charlie".to_string()));
    assert!(!rows[0].is_group);
}

#[test]
fn sort_handles_empty_and_single_lists() {
    let mut rows: Vec<DisplayRow> = Vec::new();
    sort_display_rows(&mut rows, SortField::Bandwidth, true);
    assert!(rows.is_empty());
    let mut rows = vec![row("only", "", 1, 1, RequestType::Other)];
    sort_display_rows(&mut rows, SortField::Path, false);
    assert_eq!(labels(&rows), ["only"]);
}

#[test]
fn ascending_then_reversed_equals_descending_without_ties() {
    let fields = [
        SortField::Path,
        SortField::Ext,
        SortField::Requests,
        SortField::AvgRequestSize,
        SortField::Bandwidth,
    ];
    for field in fields {
        let mut up = vec![
            row("d", ".4", 4, 40, RequestType::Image),
            row("a", ".1", 1, 1, RequestType::File),
            row("c", ".3", 3, 60, RequestType::Query),
            row("b", ".2", 2, 6, RequestType::Other),
        ];
        let mut down = up.clone();
        sort_display_rows(&mut up, field, false);
        sort_display_rows(&mut down, field, true);
        up.reverse();
        assert_eq!(labels(&up), labels(&down));
    }
}

#[test]
fn ascending_then_reversed_has_the_keys_of_descending_with_ties() {
    let mut up = sample();
    let mut down = sample();
    sort_display_rows(&mut up, SortField::Bandwidth, false);
    sort_display_rows(&mut down, SortField::Bandwidth, true);
    up.reverse();
    let up_keys: Vec<u64> = up.iter().map(|r| r.bandwidth_sum).collect();
    let down_keys: Vec<u64> = down.iter().map(|r| r.bandwidth_sum).collect();
    assert_eq!(up_keys, down_keys);
    assert_eq!(labels(&up), ["alpha", "charlie", "delta", "GROQ Queries", "bravo"]);
    assert_eq!(labels(&down), ["alpha", "delta", "charlie", "GROQ Queries", "bravo"]);
}

#[test]
fn sort_agrees_with_the_standard_stable_sort() {
    let mut seed: u64 = 12345;
    let mut rows: Vec<DisplayRow> = Vec::new();
    for i in 0..200 {
        seed = seed.wrapping_mul(6364136223846793005).wrapping_add(1442695040888963407);
        let requests = (seed >> 33) % 7;
        let bandwidth = (seed >> 40) % 11;
        rows.push(row(&format!("r{}", i), "", requests, bandwidth, RequestType::Other));
    }
    for descending in [false, true] {
        let mut ours = rows.clone();
        sort_display_rows(&mut ours, SortField::Requests, descending);
        let mut theirs = rows.clone();
        theirs.sort_by(|a, b| {
            let ordering = a.request_count.cmp(&b.request_count);
            if descending {
                ordering.reverse()
            } else {
                ordering
            }
        });
        assert_eq!(labels(&ours), labels(&theirs));
    }
}

#[test]
fn sorted_indices_orders_positions() {
    let keys = vec![key(0, "", 3), key(0, "", 1), key(0, "", 3), key(0, "", 2)];
    assert_eq!(sorted_indices(&keys, false), [1, 3, 0, 2]);
    assert_eq!(sorted_indices(&keys, true), [0, 2, 3, 1]);
    assert_eq!(sorted_indices(&Vec::new(), true), Vec::<usize>::new());
}

#[test]
fn key_standing_compares_rank_then_text_then_number() {
    assert_eq!(key_standing(&key(0, "z", 9), &key(1, "a", 0)), Standing::Below);
    assert_eq!(key_standing(&key(1, "a", 0), &key(0, "z", 9)), Standing::Above);
    assert_eq!(key_standing(&key(0, "a", 9), &key(0, "b", 0)), Standing::Below);
    assert_eq!(key_standing(&key(0, "a", 1), &key(0, "a", 2)), Standing::Below);
    assert_eq!(key_standing(&key(0, "a", 2), &key(0, "a", 2)), Standing::Same);
    assert_eq!(key_standing(&key(0, "a", 3), &key(0, "a", 2)), Standing::Above);
}

#[test]
fn text_standing_is_lexicographic() {
    let chars = |s: &str| -> Vec<char> { s.chars().collect() };
    assert_eq!(text_standing(&chars(""), &chars("")), Standing::Same);
    assert_eq!(text_standing(&chars(""), &chars("a")), Standing::Below);
    assert_eq!(text_standing(&chars("a"), &chars("")), Standing::Above);
    assert_eq!(text_standing(&chars("abc"), &chars("abd")), Standing::Below);
    assert_eq!(text_standing(&chars("abc"), &chars("ab")), Standing::Above);
    assert_eq!(text_standing(&chars("Z"), &chars("a")), Standing::Below);
    assert_eq!(text_standing(&chars("abc"), &chars("abc")), Standing::Same);
}
