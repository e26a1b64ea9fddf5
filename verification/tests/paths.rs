use bandwidth_tui::paths::asset_id_and_ext;
use bandwidth_tui::paths::detect_request_type;
use bandwidth_tui::paths::extract_extension;
use bandwidth_tui::paths::format_ext;
use bandwidth_tui::paths::strip_prefix_segments;
use bandwidth_tui::paths::type_label;
use bandwidth_tui::paths::RequestType;
use bandwidth_tui::paths::TypeColor;

fn asset(path: &str, kind: RequestType) -> (String, String) {
    asset_id_and_ext(path, kind)
}

#[test]
fn classify_examples() {
    assert_eq!(detect_request_type("/images/abc-800.jpg"), RequestType::Image);
    assert_eq!(detect_request_type("/files/report.pdf"), RequestType::File);
    assert_eq!(detect_request_type("/v1/data/query/x"), RequestType::Query);
    assert_eq!(detect_request_type("/health"), RequestType::Other);
}

#[test]
fn classify_prefix_wins_over_query_shape() {
    assert_eq!(detect_request_type("/images/data/query/x"), RequestType::Image);
    assert_eq!(detect_request_type("/files/data/query/x"), RequestType::File);
}

#[test]
fn classify_query_needs_four_segments_in_place() {
    assert_eq!(detect_request_type("/v1/data/query"), RequestType::Other);
    assert_eq!(detect_request_type("/data/query/v1/x"), RequestType::Other);
    assert_eq!(detect_request_type("//v1//data/query//production"), RequestType::Query);
    assert_eq!(detect_request_type("v2021/data/query/production/more"), RequestType::Query);
    assert_eq!(detect_request_type("/v1/data/queries/x"), RequestType::Other);
}

#[test]
fn classify_edges() {
    assert_eq!(detect_request_type(""), RequestType::Other);
    assert_eq!(detect_request_type("/"), RequestType::Other);
    assert_eq!(detect_request_type("/images"), RequestType::Other);
    assert_eq!(detect_request_type("/images/"), RequestType::Image);
    assert_eq!(detect_request_type("/Images/a.jpg"), RequestType::Other);
    assert_eq!(detect_request_type("images/a.jpg"), RequestType::Other);
}

#[test]
fn classify_is_repeatable() {
    for path in ["/images/a", "/files/b", "/a/data/query/c", "/x", ""] {
        assert_eq!(detect_request_type(path), detect_request_type(path));
    }
}

#[test]
fn labels_colors_and_names() {
    assert_eq!(RequestType::Image.label(), 'I');
    assert_eq!(RequestType::File.label(), 'F');
    assert_eq!(RequestType::Query.label(), 'Q');
    assert_eq!(RequestType::Other.label(), '?');
    assert_eq!(RequestType::Image.color(), TypeColor::Green);
    assert_eq!(RequestType::File.color(), TypeColor::Blue);
    assert_eq!(RequestType::Query.color(), TypeColor::Yellow);
    assert_eq!(RequestType::Other.color(), TypeColor::Gray);
    assert_eq!(type_label(RequestType::Image), "Images");
    assert_eq!(type_label(RequestType::File), "Files");
    assert_eq!(type_label(RequestType::Query), "GROQ Queries");
    assert_eq!(type_label(RequestType::Other), "Other");
    assert!(RequestType::Image.groups_extensions());
    assert!(RequestType::File.groups_extensions());
    assert!(!RequestType::Query.groups_extensions());
    assert!(!RequestType::Other.groups_extensions());
}

#[test]
fn strip_prefix_segments_cases() {
    assert_eq!(strip_prefix_segments("/a/b/c/d", 3), Some("d".to_string()));
    assert_eq!(strip_prefix_segments("/a/b/c/d/e", 3), Some("d/e".to_string()));
    assert_eq!(strip_prefix_segments("/a/b/c", 3), None);
    assert_eq!(strip_prefix_segments("/a/b", 3), None);
    assert_eq!(strip_prefix_segments("/health", 0), Some("health".to_string()));
    assert_eq!(strip_prefix_segments("//a///b/", 0), Some("a/b".to_string()));
    assert_eq!(strip_prefix_segments("/", 0), None);
    assert_eq!(strip_prefix_segments("", 0), None);
    assert_eq!(strip_prefix_segments("a", 1), None);
}

#[test]
fn extract_extension_cases() {
    assert_eq!(extract_extension("a.jpg"), Some("jpg".to_string()));
    assert_eq!(extract_extension("a.tar.GZ"), Some("gz".to_string()));
    assert_eq!(extract_extension("a."), None);
    assert_eq!(extract_extension("abc"), None);
    assert_eq!(extract_extension(""), None);
    assert_eq!(extract_extension(".hidden"), Some("hidden".to_string()));
    assert_eq!(extract_extension("v1.2/abc"), Some("2/abc".to_string()));
}

#[test]
fn extract_extension_lowercases() {
    assert_eq!(extract_extension("PHOTO.JPG"), Some("jpg".to_string()));
    assert_eq!(extract_extension("x.PnG"), Some("png".to_string()));
    assert_eq!(extract_extension("x.\u{c9}T\u{c9}"), Some("\u{e9}t\u{e9}".to_string()));
}

#[test]
fn format_ext_cases() {
    assert_eq!(format_ext(""), "");
    assert_eq!(format_ext("jpg"), ".jpg");
    assert_eq!(format_ext("."), "..");
}

#[test]
fn asset_of_image() {
    assert_eq!(
        asset("/images/proj/ds/abc123-800x600.jpg", RequestType::Image),
        ("abc123".to_string(), ".jpg".to_string())
    );
    assert_eq!(asset("/images/a-1.jpg", RequestType::Image), ("a".to_string(), ".jpg".to_string()));
    assert_eq!(asset("/images/p/d/plain", RequestType::Image), ("plain".to_string(), String::new()));
    assert_eq!(asset("/images/p/d/-x.png", RequestType::Image), (String::new(), ".png".to_string()));
    assert_eq!(asset("/images/p/d/a.b-c.d", RequestType::Image), ("a.b".to_string(), ".d".to_string()));
    assert_eq!(asset("/images/p/d/sub/x-1.webp", RequestType::Image), ("x".to_string(), ".webp".to_string()));
}

#[test]
fn asset_of_image_lowercases_extension() {
    assert_eq!(asset("/images/p/d/abc-1.JPG", RequestType::Image), ("abc".to_string(), ".jpg".to_string()));
    assert_eq!(asset("/files/p/d/Report.PDF", RequestType::File), ("Report".to_string(), ".pdf".to_string()));
}

#[test]
fn asset_of_file() {
    assert_eq!(
        asset("/files/proj/ds/report-final.pdf", RequestType::File),
        ("report-final".to_string(), ".pdf".to_string())
    );
    assert_eq!(asset("/files/doc.pdf", RequestType::File), ("doc".to_string(), ".pdf".to_string()));
    assert_eq!(asset("/files/p/d/noext", RequestType::File), ("noext".to_string(), String::new()));
    assert_eq!(asset("/files/p/d/trailing.", RequestType::File), ("trailing".to_string(), String::new()));
}

#[test]
fn asset_of_short_route_falls_back_to_the_path() {
    assert_eq!(asset("/images/", RequestType::Image), (String::new(), String::new()));
    assert_eq!(asset("/images/v1.2/abc", RequestType::Image), ("abc".to_string(), String::new()));
    assert_eq!(asset("/files/a/b/", RequestType::File), (String::new(), String::new()));
}

#[test]
fn asset_of_query_and_other() {
    assert_eq!(
        asset("/v1/data/query/production", RequestType::Query),
        ("GROQ Queries".to_string(), String::new())
    );
    assert_eq!(asset("/health", RequestType::Other), ("health".to_string(), String::new()));
    assert_eq!(asset("/static/app.JS", RequestType::Other), ("static/app.JS".to_string(), ".js".to_string()));
    assert_eq!(asset("/", RequestType::Other), ("/".to_string(), String::new()));
    assert_eq!(asset("", RequestType::Other), (String::new(), String::new()));
    assert_eq!(asset("/a.b/c", RequestType::Other), ("a.b/c".to_string(), ".b/c".to_string()));
}
