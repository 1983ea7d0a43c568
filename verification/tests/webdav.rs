//! The WebDAV verb table, range parsing, the file-sending plan, and the
//! multi-status bodies.

use vestibule::davs::webdav_server::BodyPlan;
use vestibule::davs::webdav_server::DavAction;
use vestibule::davs::webdav_server::DavMethod;
use vestibule::davs::webdav_server::PathItem;
use vestibule::davs::webdav_server::PathState;
use vestibule::davs::webdav_server::PathType;
use vestibule::davs::webdav_server::RangeValue;
use vestibule::davs::webdav_server::WebdavServer;
use vestibule::davs::webdav_server::allow_header;
use vestibule::davs::webdav_server::dav_header;
use vestibule::davs::webdav_server::decode_uri;
use vestibule::davs::webdav_server::encode_uri;
use vestibule::davs::webdav_server::etag_value;
use vestibule::davs::webdav_server::extract_path;
use vestibule::davs::webdav_server::get_file_name;
use vestibule::davs::webdav_server::join_path;
use vestibule::davs::webdav_server::lock_body;
use vestibule::davs::webdav_server::lock_token;
use vestibule::davs::webdav_server::make_path_item;
use vestibule::davs::webdav_server::content_type_for;
use vestibule::davs::webdav_server::multistatus_body;
use vestibule::davs::webdav_server::normalize_path;
use vestibule::davs::webdav_server::parse_range;
use vestibule::davs::webdav_server::path_contained;
use vestibule::davs::webdav_server::proppatch_body;
use vestibule::davs::webdav_server::query_matches;
use vestibule::davs::webdav_server::route_dav_request;
use vestibule::davs::webdav_server::send_file_plan;
use vestibule::davs::webdav_server::strip_path_prefix;
use vestibule::utils::parse_u64;
use vestibule::utils::random_string;
use vestibule::utils::str_contains;
use vestibule::utils::u64_to_decimal;

fn dir_state() -> PathState {
    PathState { is_miss: false, is_dir: true, is_file: false, size: 0 }
}

fn file_state() -> PathState {
    PathState { is_miss: false, is_dir: false, is_file: true, size: 4242 }
}

fn miss_state() -> PathState {
    PathState { is_miss: true, is_dir: false, is_file: false, size: 0 }
}

#[test]
fn verb_table() {
    let _server = WebdavServer::new();
    assert_eq!(route_dav_request(DavMethod::Get, "zip", dir_state(), true), DavAction::ZipDir);
    assert_eq!(
        route_dav_request(DavMethod::Get, "q=term", dir_state(), true),
        DavAction::QueryDir
    );
    assert_eq!(route_dav_request(DavMethod::Head, "", dir_state(), true), DavAction::Empty);
    assert_eq!(route_dav_request(DavMethod::Get, "", file_state(), true), DavAction::SendFile);
    assert_eq!(route_dav_request(DavMethod::Get, "", miss_state(), true), DavAction::NotFound);
    assert_eq!(route_dav_request(DavMethod::Options, "", miss_state(), false), DavAction::Options);
    assert_eq!(route_dav_request(DavMethod::Put, "", file_state(), false), DavAction::Forbidden);
    assert_eq!(route_dav_request(DavMethod::Put, "", miss_state(), true), DavAction::Upload);
    assert_eq!(route_dav_request(DavMethod::Delete, "", file_state(), true), DavAction::Delete);
    assert_eq!(route_dav_request(DavMethod::Delete, "", miss_state(), true), DavAction::NotFound);
    assert_eq!(
        route_dav_request(DavMethod::Delete, "", file_state(), false),
        DavAction::Forbidden
    );
    assert_eq!(
        route_dav_request(DavMethod::Propfind, "", dir_state(), true),
        DavAction::PropfindDir
    );
    assert_eq!(
        route_dav_request(DavMethod::Propfind, "", file_state(), true),
        DavAction::PropfindFile
    );
    assert_eq!(
        route_dav_request(DavMethod::Proppatch, "", file_state(), true),
        DavAction::Proppatch
    );
    assert_eq!(route_dav_request(DavMethod::Mkcol, "", miss_state(), true), DavAction::Mkcol);
    assert_eq!(route_dav_request(DavMethod::Mkcol, "", dir_state(), true), DavAction::Forbidden);
    assert_eq!(route_dav_request(DavMethod::Copy, "", file_state(), true), DavAction::CopyFile);
    assert_eq!(route_dav_request(DavMethod::Copy, "", miss_state(), true), DavAction::NotFound);
    assert_eq!(route_dav_request(DavMethod::Move, "", file_state(), true), DavAction::MoveFile);
    assert_eq!(route_dav_request(DavMethod::Lock, "", file_state(), true), DavAction::Lock);
    assert_eq!(route_dav_request(DavMethod::Lock, "", dir_state(), true), DavAction::NotFound);
    assert_eq!(route_dav_request(DavMethod::Unlock, "", file_state(), true), DavAction::Empty);
    assert_eq!(route_dav_request(DavMethod::Unlock, "", miss_state(), true), DavAction::NotFound);
    assert_eq!(
        route_dav_request(DavMethod::Other, "", file_state(), true),
        DavAction::MethodNotAllowed
    );
    assert_eq!(dav_header(), "1,2");
    assert_eq!(allow_header(), "GET,HEAD,PUT,OPTIONS,DELETE,PROPFIND,COPY,MOVE");
}

#[test]
fn range_header_parsing() {
    assert_eq!(
        parse_range("bytes=20000-20050"),
        Some(RangeValue { start: 20000, end: Some(20050) })
    );
    assert_eq!(parse_range("bytes=100-"), Some(RangeValue { start: 100, end: None }));
    assert_eq!(parse_range("bytes=100"), Some(RangeValue { start: 100, end: None }));
    assert_eq!(parse_range("items=1-2"), None);
    assert_eq!(parse_range("bytes=1-2,3-4"), None);
    assert_eq!(parse_range("bytes=-5"), None);
    assert_eq!(parse_range("bytes"), None);
}

#[test]
fn file_plan_serves_ranges_in_plaintext_figures() {
    let plan = send_file_plan(
        None,
        None,
        Some(RangeValue { start: 20000, end: Some(20050) }),
        None,
        30000,
        false,
    );
    assert_eq!(plan.status, 206);
    assert_eq!(plan.content_length, Some(51));
    assert_eq!(plan.content_range.unwrap(), "bytes 20000-20050/30000");
    assert_eq!(plan.body, BodyPlan::Range { start: 20000, length: 51 });
}

#[test]
fn file_plan_clamps_open_ranges() {
    let plan = send_file_plan(
        None,
        None,
        Some(RangeValue { start: 100, end: None }),
        None,
        500,
        false,
    );
    assert_eq!(plan.status, 206);
    assert_eq!(plan.content_length, Some(400));
    assert_eq!(plan.content_range.unwrap(), "bytes 100-499/500");
}

#[test]
fn file_plan_rejects_ranges_past_the_end() {
    let plan = send_file_plan(
        None,
        None,
        Some(RangeValue { start: 500, end: Some(600) }),
        None,
        500,
        false,
    );
    assert_eq!(plan.status, 416);
    assert_eq!(plan.content_range.unwrap(), "bytes */500");
    assert_eq!(plan.body, BodyPlan::Empty);
}

#[test]
fn file_plan_serves_cached_and_whole_bodies() {
    let cached = send_file_plan(Some(false), None, None, None, 500, false);
    assert_eq!(cached.status, 304);
    assert_eq!(cached.body, BodyPlan::Empty);
    let whole = send_file_plan(Some(true), None, None, None, 500, false);
    assert_eq!(whole.status, 200);
    assert_eq!(whole.content_length, Some(500));
    assert_eq!(whole.body, BodyPlan::Whole);
    let head = send_file_plan(None, None, None, None, 500, true);
    assert_eq!(head.body, BodyPlan::Empty);
    // a stale If-Range falls back to the full body
    let stale = send_file_plan(
        None,
        None,
        Some(RangeValue { start: 0, end: Some(1) }),
        Some(true),
        500,
        false,
    );
    assert_eq!(stale.status, 200);
}

#[test]
fn etag_carries_mtime_and_stored_size() {
    assert_eq!(etag_value(123, 456), "\"123-456\"");
}

#[test]
fn uri_coding_round_trip() {
    assert_eq!(encode_uri("a b/c d"), "a%20b/c%20d");
    assert_eq!(decode_uri("a%20b").unwrap(), "a b");
    assert_eq!(decode_uri("plain").unwrap(), "plain");
    assert!(decode_uri("%FF%FE").is_none());
    let round = decode_uri(encode_uri("some dir/héllo file.txt").as_str()).unwrap();
    assert_eq!(round, "some dir/héllo file.txt");
}

#[test]
fn paths_resolve_under_the_dav_root() {
    assert_eq!(extract_path("/a%20b/c.txt", "/data/root").unwrap(), "/data/root/a b/c.txt");
    assert_eq!(join_path("/data/root/", "x"), "/data/root/x");
    assert_eq!(join_path("", "x"), "x");
    assert_eq!(join_path("/data", "/abs"), "/abs");
    assert_eq!(strip_path_prefix("a/b"), "a/b");
    assert_eq!(normalize_path("a/b"), "a/b");
    assert_eq!(get_file_name("/data/root/a.txt"), "a.txt");
    assert_eq!(get_file_name("plain"), "plain");
    assert!(path_contained("/data/root/x", "/data/root"));
    assert!(path_contained("/data/root", "/data/root"));
    assert!(!path_contained("/data/rootx", "/data/root"));
    assert!(!path_contained("/elsewhere", "/data/root"));
}

#[test]
fn search_matches_case_insensitively() {
    assert!(query_matches("LoremIpsum.TXT", "ipsum"));
    assert!(!query_matches("LoremIpsum.TXT", "dolor"));
    assert!(str_contains("abcdef", "cde"));
    assert!(!str_contains("abcdef", "gh"));
}

#[test]
fn path_items_expose_plaintext_sizes() {
    let file = make_path_item("docs/a.txt".to_string(), false, false, 1000, 10051);
    assert_eq!(file.path_type, PathType::File);
    assert_eq!(file.size, Some(10000));
    assert!(!file.is_dir());
    let dir = make_path_item("docs".to_string(), true, true, 1000, 0);
    assert_eq!(dir.path_type, PathType::SymlinkDir);
    assert_eq!(dir.size, None);
    assert!(dir.is_dir());
}

#[test]
fn dav_xml_lists_entries() {
    let file = PathItem {
        path_type: PathType::File,
        name: "docs/a&b.txt".to_string(),
        mtime: 1_600_000_000_000,
        size: Some(42),
    };
    let xml = file.to_dav_xml("/");
    assert!(xml.contains("<D:href>/docs/a%26b.txt</D:href>"));
    assert!(xml.contains("<D:displayname>a&amp;b.txt</D:displayname>"));
    assert!(xml.contains("<D:getcontentlength>42</D:getcontentlength>"));
    assert!(xml.contains("<D:getlastmodified>Sun, 13 Sep 2020"));
    assert!(xml.contains("<D:resourcetype></D:resourcetype>"));
    let dir = PathItem {
        path_type: PathType::Dir,
        name: "docs".to_string(),
        mtime: 1_600_000_000_000,
        size: None,
    };
    let xml = dir.to_dav_xml("/");
    assert!(xml.contains("<D:href>/docs/</D:href>"));
    assert!(xml.contains("<D:resourcetype><D:collection/></D:resourcetype>"));
    let wrapped = multistatus_body(&xml);
    assert!(wrapped.starts_with("<?xml version=\"1.0\" encoding=\"utf-8\" ?>\n<D:multistatus"));
    assert!(wrapped.ends_with("</D:multistatus>"));
}

#[test]
fn lock_and_proppatch_bodies() {
    let token = lock_token();
    assert!(token.starts_with("opaquelocktoken:"));
    assert_eq!(token.len(), "opaquelocktoken:".len() + 36);
    let body = lock_body(token.as_str(), "/files/a.txt");
    assert!(body.contains(&token));
    assert!(body.contains("<D:lockroot><D:href>/files/a.txt</D:href></D:lockroot>"));
    let rejected = proppatch_body("/files/a.txt");
    assert!(rejected.contains("HTTP/1.1 403 Forbidden"));
}

#[test]
fn mime_types_follow_extensions() {
    assert_eq!(content_type_for("a.html"), "text/html");
    assert_eq!(content_type_for("a.unknownext"), "application/octet-stream");
}

#[test]
fn decimal_helpers() {
    assert_eq!(u64_to_decimal(0), "0");
    assert_eq!(u64_to_decimal(10051), "10051");
    assert_eq!(parse_u64("10051"), Some(10051));
    assert_eq!(parse_u64(""), None);
    assert_eq!(parse_u64("12x"), None);
    assert_eq!(parse_u64("18446744073709551615"), Some(u64::MAX));
    assert_eq!(parse_u64("18446744073709551616"), None);
}

#[test]
fn random_tokens_are_alphanumeric() {
    let t = random_string(10);
    assert_eq!(t.len(), 10);
    assert!(t.chars().all(|c| c.is_ascii_alphanumeric()));
}
