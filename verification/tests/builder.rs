use bandwidth_tui::builder::build_display_rows;
use bandwidth_tui::builder::build_type_rows;
use bandwidth_tui::paths::RequestType;
use bandwidth_tui::rows::DisplayRow;
use bandwidth_tui::rows::SortField;
use bandwidth_tui::rows::ViewMode;
use bandwidth_tui::stats::fits;
use bandwidth_tui::stats::PathStats;

fn stat(path: &str, requests: u64, bandwidth: u64) -> PathStats {
    PathStats {
        path: path.to_string(),
        sample_url: format!("http://h{}", path),
        request_count: requests,
        request_size_sum: 0,
        bandwidth_sum: bandwidth,
    }
}

fn sample() -> Vec<PathStats> {
    vec![
        stat("/images/p/d/abc-100x100.jpg", 4, 4000),
        stat("/files/p/d/report.pdf", 1, 9000),
        stat("/v1/data/query/production", 7, 700),
        stat("/images/p/d/def-10x10.PNG", 2, 500),
        stat("/health", 3, 30),
        stat("/images/p/d/ghi.jpg", 1, 1000),
        stat("/images/p/d/raw", 5, 50),
        stat("/files/p/d/notes", 2, 20),
    ]
}

fn summary(rows: &[DisplayRow]) -> Vec<(String, String, u64, u64)> {
    rows.iter().map(|r| (r.label.clone(), r.ext.clone(), r.request_count, r.bandwidth_sum)).collect()
}

fn line(label: &str, ext: &str, requests: u64, bandwidth: u64) -> (String, String, u64, u64) {
    (label.to_string(), ext.to_string(), requests, bandwidth)
}

#[test]
fn flat_view_has_one_row_per_path() {
    let rows = build_display_rows(&sample(), ViewMode::Path, SortField::Bandwidth, true);
    assert_eq!(
        summary(&rows),
        [
            line("report", ".pdf", 1, 9000),
            line("abc", ".jpg", 4, 4000),
            line("ghi", ".jpg", 1, 1000),
            line("GROQ Queries", "", 7, 700),
            line("def", ".png", 2, 500),
            line("raw", "", 5, 50),
            line("health", "", 3, 30),
            line("notes", "", 2, 20),
        ]
    );
    for row in &rows {
        assert!(!row.is_group);
        assert!(row.open_url.is_some());
    }
    assert_eq!(rows[0].req_type, RequestType::File);
    assert_eq!(rows[0].open_url, Some("http://h/files/p/d/report.pdf".to_string()));
    assert_eq!(rows[3].req_type, RequestType::Query);
    assert_eq!(rows[6].req_type, RequestType::Other);
}

#[test]
fn flat_view_sorted_by_path_lists_queries_first() {
    let rows = build_display_rows(&sample(), ViewMode::Path, SortField::Path, false);
    let labels: Vec<&str> = rows.iter().map(|r| r.label.as_str()).collect();
    assert_eq!(labels, ["GROQ Queries", "abc", "def", "ghi", "health", "notes", "raw", "report"]);
}

#[test]
fn flat_view_of_nothing_is_empty() {
    assert!(build_display_rows(&Vec::new(), ViewMode::Path, SortField::Bandwidth, true).is_empty());
    assert!(build_display_rows(&Vec::new(), ViewMode::Type, SortField::Bandwidth, true).is_empty());
    assert!(build_type_rows(&Vec::new(), SortField::Path, false).is_empty());
}

#[test]
fn grouped_view_sorted_by_bandwidth() {
    let rows = build_type_rows(&sample(), SortField::Bandwidth, true);
    assert_eq!(
        summary(&rows),
        [
            line("Files", "", 3, 9020),
            line("  ", ".pdf", 1, 9000),
            line("  (no ext)", "(none)", 2, 20),
            line("Images", "", 12, 5550),
            line("  ", ".jpg", 5, 5000),
            line("  ", ".png", 2, 500),
            line("  (no ext)", "(none)", 5, 50),
            line("GROQ Queries", "", 7, 700),
            line("Other", "", 3, 30),
        ]
    );
}

#[test]
fn grouped_view_marks_headers_and_targets() {
    let rows = build_type_rows(&sample(), SortField::Bandwidth, true);
    let groups: Vec<bool> = rows.iter().map(|r| r.is_group).collect();
    assert_eq!(groups, [true, false, false, true, false, false, false, true, true]);
    assert_eq!(rows[0].open_url, None);
    assert_eq!(rows[3].open_url, None);
    assert_eq!(rows[7].open_url, None);
    assert_eq!(rows[1].open_url, Some("http://h/files/p/d/report.pdf".to_string()));
    assert_eq!(rows[4].open_url, Some("http://h/images/p/d/abc-100x100.jpg".to_string()));
    assert_eq!(rows[5].open_url, Some("http://h/images/p/d/def-10x10.PNG".to_string()));
    assert_eq!(rows[6].open_url, Some("http://h/images/p/d/raw".to_string()));
    let kinds: Vec<RequestType> = rows.iter().map(|r| r.req_type).collect();
    assert_eq!(
        kinds,
        [
            RequestType::File,
            RequestType::File,
            RequestType::File,
            RequestType::Image,
            RequestType::Image,
            RequestType::Image,
            RequestType::Image,
            RequestType::Query,
            RequestType::Other,
        ]
    );
}

#[test]
fn grouped_view_sorts_headers_and_children_independently() {
    let rows = build_type_rows(&sample(), SortField::Requests, false);
    assert_eq!(
        summary(&rows),
        [
            line("Files", "", 3, 9020),
            line("  ", ".pdf", 1, 9000),
            line("  (no ext)", "(none)", 2, 20),
            line("Other", "", 3, 30),
            line("GROQ Queries", "", 7, 700),
            line("Images", "", 12, 5550),
            line("  ", ".png", 2, 500),
            line("  ", ".jpg", 5, 5000),
            line("  (no ext)", "(none)", 5, 50),
        ]
    );
}

#[test]
fn grouped_view_sorted_by_path_lists_the_query_group_first() {
    let rows = build_type_rows(&sample(), SortField::Path, false);
    let labels: Vec<&str> = rows.iter().filter(|r| r.is_group).map(|r| r.label.as_str()).collect();
    assert_eq!(labels, ["GROQ Queries", "Files", "Images", "Other"]);
    let rows = build_type_rows(&sample(), SortField::Path, true);
    let labels: Vec<&str> = rows.iter().filter(|r| r.is_group).map(|r| r.label.as_str()).collect();
    assert_eq!(labels, ["Other", "Images", "Files", "GROQ Queries"]);
}

#[test]
fn grouped_view_sorted_by_extension() {
    let rows = build_type_rows(&sample(), SortField::Ext, false);
    assert_eq!(
        summary(&rows),
        [
            line("Images", "", 12, 5550),
            line("  (no ext)", "(none)", 5, 50),
            line("  ", ".jpg", 5, 5000),
            line("  ", ".png", 2, 500),
            line("Files", "", 3, 9020),
            line("  (no ext)", "(none)", 2, 20),
            line("  ", ".pdf", 1, 9000),
            line("GROQ Queries", "", 7, 700),
            line("Other", "", 3, 30),
        ]
    );
}

#[test]
fn grouped_view_leaves_out_types_without_paths() {
    let stats = vec![stat("/health", 1, 10), stat("/ready", 2, 20)];
    let rows = build_type_rows(&stats, SortField::Bandwidth, true);
    assert_eq!(summary(&rows), [line("Other", "", 3, 30)]);
    assert!(rows[0].is_group);
}

#[test]
fn grouped_view_through_build_display_rows() {
    let direct = build_type_rows(&sample(), SortField::Bandwidth, true);
    let through = build_display_rows(&sample(), ViewMode::Type, SortField::Bandwidth, true);
    assert_eq!(summary(&direct), summary(&through));
}

#[test]
fn grouped_view_keeps_an_extension_named_like_the_empty_group() {
    let stats = vec![stat("/images/p/d/a.no ext", 1, 10), stat("/images/p/d/b", 2, 20)];
    let rows = build_type_rows(&stats, SortField::Bandwidth, true);
    assert_eq!(summary(&rows), [line("Images", "", 3, 30), line("  (no ext)", "(none)", 3, 30)]);
    assert_eq!(rows[1].open_url, Some("http://h/images/p/d/a.no ext".to_string()));
}

#[test]
fn header_sums_equal_the_totals_in_every_sort() {
    let stats = sample();
    assert!(fits(&stats));
    let requests: u64 = stats.iter().map(|s| s.request_count).sum();
    let bandwidth: u64 = stats.iter().map(|s| s.bandwidth_sum).sum();
    let fields = [
        SortField::Path,
        SortField::Ext,
        SortField::Requests,
        SortField::AvgRequestSize,
        SortField::Bandwidth,
    ];
    for field in fields {
        for descending in [false, true] {
            let grouped = build_display_rows(&stats, ViewMode::Type, field, descending);
            let r: u64 = grouped.iter().filter(|r| r.is_group).map(|r| r.request_count).sum();
            let b: u64 = grouped.iter().filter(|r| r.is_group).map(|r| r.bandwidth_sum).sum();
            assert_eq!((r, b), (requests, bandwidth));
            let flat = build_display_rows(&stats, ViewMode::Path, field, descending);
            let r: u64 = flat.iter().map(|r| r.request_count).sum();
            let b: u64 = flat.iter().map(|r| r.bandwidth_sum).sum();
            assert_eq!((r, b), (requests, bandwidth));
        }
    }
}

#[test]
fn fits_tells_whether_the_totals_can_be_held() {
    assert!(fits(&Vec::new()));
    assert!(fits(&vec![stat("/a", u64::MAX, 0), stat("/b", 0, u64::MAX)]));
    assert!(!fits(&vec![stat("/a", u64::MAX, 0), stat("/b", 1, 0)]));
    assert!(!fits(&vec![stat("/a", 0, u64::MAX), stat("/b", 0, 1)]));
}
