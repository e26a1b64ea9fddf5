use bandwidth_tui::builder::build_type_rows;
use bandwidth_tui::ingest::as_u64;
use bandwidth_tui::ingest::ingest_line;
use bandwidth_tui::ingest::ingest_lines;
use bandwidth_tui::ingest::load_stats;
use bandwidth_tui::ingest::make_record;
use bandwidth_tui::ingest::parse_u64;
use bandwidth_tui::ingest::rank_stats;
use bandwidth_tui::ingest::record_from_document;
use bandwidth_tui::records::Record;
use bandwidth_tui::rows::SortField;
use bandwidth_tui::stats::fits;

fn value(text: &str) -> serde_json::Value {
    serde_json::from_str(text).unwrap()
}

fn fields(record: &Record) -> (String, String, Option<u64>, Option<u64>) {
    (record.path.clone(), record.url.clone(), record.request_size, record.response_size)
}

fn expect(path: &str, url: &str, request: Option<u64>, response: Option<u64>) -> (String, String, Option<u64>, Option<u64>) {
    (path.to_string(), url.to_string(), request, response)
}

fn lines(text: &[&str]) -> Vec<String> {
    text.iter().map(|l| l.to_string()).collect()
}

#[test]
fn parse_u64_reads_decimal_numbers() {
    assert_eq!(parse_u64("0"), Some(0));
    assert_eq!(parse_u64("42"), Some(42));
    assert_eq!(parse_u64("007"), Some(7));
    assert_eq!(parse_u64("+15"), Some(15));
    assert_eq!(parse_u64("18446744073709551615"), Some(u64::MAX));
    assert_eq!(parse_u64("000018446744073709551615"), Some(u64::MAX));
}

#[test]
fn parse_u64_refuses_what_is_no_number() {
    for text in ["", "+", "-1", "-0", "++1", "1+", " 1", "1 ", "1.0", "1e3", "0x10", "12a", "\u{663}", "1_000"] {
        assert_eq!(parse_u64(text), None, "{:?}", text);
    }
    assert_eq!(parse_u64("18446744073709551616"), None);
    assert_eq!(parse_u64("99999999999999999999999"), None);
    assert_eq!(parse_u64("184467440737095516150"), None);
}

#[test]
fn parse_u64_agrees_with_the_standard_parser() {
    let texts = [
        "", "+", "-", "0", "+0", "-0", "1", "+1", "-1", "00", "+00", "9", "10", "123456789",
        "18446744073709551615", "18446744073709551616", "+18446744073709551615", "28446744073709551615",
        "1a", "a1", "+-1", "1 ", "１２", "1\u{0}", "٣",
    ];
    for text in texts {
        assert_eq!(parse_u64(text), text.parse::<u64>().ok(), "{:?}", text);
    }
}

#[test]
fn as_u64_reads_numbers_and_numeric_texts() {
    assert_eq!(as_u64(&value("12")), Some(12));
    assert_eq!(as_u64(&value("18446744073709551615")), Some(u64::MAX));
    assert_eq!(as_u64(&value("\"34\"")), Some(34));
    assert_eq!(as_u64(&value("\"+5\"")), Some(5));
    assert_eq!(as_u64(&value("-1")), None);
    assert_eq!(as_u64(&value("1.5")), None);
    assert_eq!(as_u64(&value("256.0")), None);
    assert_eq!(as_u64(&value("\"1.5\"")), None);
    assert_eq!(as_u64(&value("\"abc\"")), None);
    assert_eq!(as_u64(&value("\"\"")), None);
    assert_eq!(as_u64(&value("null")), None);
    assert_eq!(as_u64(&value("true")), None);
    assert_eq!(as_u64(&value("[1]")), None);
    assert_eq!(as_u64(&value("{\"a\":1}")), None);
}

#[test]
fn make_record_counts_an_empty_path_as_the_root() {
    assert_eq!(fields(&make_record("x:", "", None, Some(1))), expect("/", "x:", None, Some(1)));
    assert_eq!(fields(&make_record("http://h/a", "/a", Some(2), None)), expect("/a", "http://h/a", Some(2), None));
}

#[test]
fn ingest_line_reads_url_and_sizes() {
    let record = ingest_line("{\"body\":{\"url\":\"http://h/images/a-1.jpg?w=10#top\",\"responseSize\":1000,\"requestSize\":\"50\"}}").unwrap();
    assert_eq!(fields(&record), expect("/images/a-1.jpg", "http://h/images/a-1.jpg?w=10#top", Some(50), Some(1000)));
}

#[test]
fn ingest_line_takes_the_path_from_the_parsed_url() {
    let record = ingest_line("{\"body\":{\"url\":\"https://example.com\"}}").unwrap();
    assert_eq!(fields(&record), expect("/", "https://example.com", None, None));
    let record = ingest_line("{\"body\":{\"url\":\"HTTP://Example.COM/a/../b/./c d\"}}").unwrap();
    assert_eq!(fields(&record), expect("/b/c%20d", "HTTP://Example.COM/a/../b/./c d", None, None));
    let record = ingest_line("{\"body\":{\"url\":\"foo://host\"}}").unwrap();
    assert_eq!(fields(&record), expect("/", "foo://host", None, None));
    let record = ingest_line("{\"body\":{\"url\":\"mailto:someone@example.com\"}}").unwrap();
    assert_eq!(fields(&record), expect("someone@example.com", "mailto:someone@example.com", None, None));
}

#[test]
fn ingest_line_treats_other_shapes_of_sizes_as_absent() {
    let record = ingest_line("{\"body\":{\"url\":\"http://h/a\",\"requestSize\":-3,\"responseSize\":[1]}}").unwrap();
    assert_eq!(fields(&record), expect("/a", "http://h/a", None, None));
    let record = ingest_line("{\"body\":{\"url\":\"http://h/a\",\"requestSize\":1.5,\"responseSize\":\"x\"}}").unwrap();
    assert_eq!(fields(&record), expect("/a", "http://h/a", None, None));
    let record = ingest_line("{\"body\":{\"url\":\"http://h/a\",\"requestSize\":null,\"responseSize\":\"18446744073709551616\"}}").unwrap();
    assert_eq!(fields(&record), expect("/a", "http://h/a", None, None));
}

#[test]
fn ingest_line_skips_what_gives_no_record() {
    let skipped = [
        "",
        "   ",
        "not json",
        "{",
        "[]",
        "12",
        "null",
        "{}",
        "{\"url\":\"http://h/a\"}",
        "{\"body\":null}",
        "{\"body\":\"http://h/a\"}",
        "{\"body\":[{\"url\":\"http://h/a\"}]}",
        "{\"body\":{}}",
        "{\"body\":{\"url\":12}}",
        "{\"body\":{\"url\":null}}",
        "{\"body\":{\"url\":{\"href\":\"http://h/a\"}}}",
        "{\"body\":{\"url\":\"/relative/path\"}}",
        "{\"body\":{\"url\":\"\"}}",
        "{\"body\":{\"url\":\"http://\"}}",
        "{\"body\":{\"URL\":\"http://h/a\"}}",
        "{\"body\":{\"url\":\"http://h/a\"}} trailing",
    ];
    for line in skipped {
        assert!(ingest_line(line).is_none(), "{:?}", line);
    }
}

#[test]
fn ingest_line_reads_the_last_of_repeated_members() {
    let record = ingest_line("{\"body\":{\"url\":\"http://h/a\"},\"body\":{\"url\":\"http://h/b\"}}").unwrap();
    assert_eq!(record.path, "/b");
}

#[test]
fn record_from_document_reads_a_built_value() {
    let mut body = serde_json::Map::new();
    body.insert("url".to_string(), serde_json::Value::String("http://h/files/doc.pdf".to_string()));
    body.insert("responseSize".to_string(), serde_json::Value::from(2000u64));
    body.insert("requestSize".to_string(), serde_json::Value::String("50".to_string()));
    let mut document = serde_json::Map::new();
    document.insert("body".to_string(), serde_json::Value::Object(body));
    let record = record_from_document(&serde_json::Value::Object(document)).unwrap();
    assert_eq!(fields(&record), expect("/files/doc.pdf", "http://h/files/doc.pdf", Some(50), Some(2000)));
    assert!(record_from_document(&serde_json::Value::Null).is_none());
    assert!(record_from_document(&serde_json::Value::Array(Vec::new())).is_none());
}

#[test]
fn ingest_lines_passes_over_bad_lines() {
    let records = ingest_lines(&lines(&[
        "{\"body\":{\"url\":\"http://h/a\",\"responseSize\":1}}",
        "",
        "garbage",
        "{\"body\":{\"url\":\"http://h/b\",\"responseSize\":2}}",
        "{\"body\":{\"url\":\"nope\"}}",
        "{\"body\":{\"url\":\"http://h/a\",\"responseSize\":3}}",
    ]));
    let read: Vec<(String, Option<u64>)> = records.iter().map(|r| (r.path.clone(), r.response_size)).collect();
    assert_eq!(
        read,
        [("/a".to_string(), Some(1)), ("/b".to_string(), Some(2)), ("/a".to_string(), Some(3))]
    );
    assert!(ingest_lines(&Vec::new()).is_empty());
}

#[test]
fn rank_stats_puts_the_largest_bandwidth_first() {
    let records = ingest_lines(&lines(&[
        "{\"body\":{\"url\":\"http://h/small\",\"responseSize\":1}}",
        "{\"body\":{\"url\":\"http://h/tie1\",\"responseSize\":5}}",
        "{\"body\":{\"url\":\"http://h/big\",\"responseSize\":9}}",
        "{\"body\":{\"url\":\"http://h/tie2\",\"responseSize\":5}}",
        "{\"body\":{\"url\":\"http://h/none\"}}",
        "{\"body\":{\"url\":\"http://h/small\",\"responseSize\":2}}",
    ]));
    let stats = rank_stats(&records);
    let ranked: Vec<(&str, u64, u64)> = stats.iter().map(|s| (s.path.as_str(), s.request_count, s.bandwidth_sum)).collect();
    assert_eq!(ranked, [("/big", 1, 9), ("/tie1", 1, 5), ("/tie2", 1, 5), ("/small", 2, 3), ("/none", 1, 0)]);
    assert!(fits(&stats));
}

#[test]
fn load_stats_refuses_sums_beyond_the_limit() {
    let stats = load_stats(&lines(&[
        "{\"body\":{\"url\":\"http://h/a\",\"responseSize\":18446744073709551615}}",
        "{\"body\":{\"url\":\"http://h/b\",\"responseSize\":1}}",
    ]));
    assert!(stats.is_none());
    let stats = load_stats(&lines(&[
        "{\"body\":{\"url\":\"http://h/a\",\"requestSize\":\"18446744073709551615\"}}",
        "{\"body\":{\"url\":\"http://h/b\",\"requestSize\":1}}",
    ]));
    assert!(stats.is_none());
    let stats = load_stats(&lines(&[
        "{\"body\":{\"url\":\"http://h/a\",\"responseSize\":18446744073709551614}}",
        "{\"body\":{\"url\":\"http://h/b\",\"responseSize\":1}}",
    ]));
    assert_eq!(stats.unwrap().len(), 2);
    assert_eq!(load_stats(&Vec::new()).unwrap().len(), 0);
}

#[test]
fn scenario_two_images_and_a_file() {
    let stats = load_stats(&lines(&[
        "{\"body\":{\"url\":\"http://h/images/a-1.jpg\",\"responseSize\":1000}}",
        "{\"body\":{\"url\":\"http://h/images/a-1.jpg\",\"responseSize\":1000}}",
        "{\"body\":{\"url\":\"http://h/files/doc.pdf\",\"responseSize\":2000,\"requestSize\":50}}",
    ]))
    .unwrap();
    assert_eq!(stats.len(), 2);
    let image = stats.iter().find(|s| s.path == "/images/a-1.jpg").unwrap();
    assert_eq!((image.request_count, image.bandwidth_sum), (2, 2000));
    let file = stats.iter().find(|s| s.path == "/files/doc.pdf").unwrap();
    assert_eq!((file.request_count, file.bandwidth_sum), (1, 2000));
    assert_eq!(file.request_size_sum / file.request_count, 50);

    let rows = build_type_rows(&stats, SortField::Bandwidth, true);
    let shown: Vec<(&str, &str, u64, u64, bool)> = rows
        .iter()
        .map(|r| (r.label.as_str(), r.ext.as_str(), r.request_count, r.bandwidth_sum, r.is_group))
        .collect();
    assert_eq!(
        shown,
        [
            ("Images", "", 2, 2000, true),
            ("  ", ".jpg", 2, 2000, false),
            ("Files", "", 1, 2000, true),
            ("  ", ".pdf", 1, 2000, false),
        ]
    );
    assert_eq!(rows[1].open_url, Some("http://h/images/a-1.jpg".to_string()));
    assert_eq!(rows[3].open_url, Some("http://h/files/doc.pdf".to_string()));
}
