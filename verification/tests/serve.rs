use gausify_server::serve::{
    classify_target, frame_file, parse_content_length, AppState, ErrorReply, Stats, Target,
    IMMUTABLE_CACHE_CONTROL,
};
use std::path::PathBuf;

#[test]
fn frame_files_are_recognized_by_extension() {
    assert!(frame_file("frame.sog"));
    assert!(frame_file("scan.ply"));
    assert!(frame_file("a.b.splat"));
    assert!(frame_file("..sog"));
    assert!(!frame_file(".sog"));
    assert!(!frame_file("frame.SOG"));
    assert!(!frame_file("scene.json"));
    assert!(!frame_file("sog"));
    assert!(!frame_file("frame.sog.bak"));
    assert!(!frame_file(".."));
    assert_eq!(IMMUTABLE_CACHE_CONTROL, "public, max-age=31536000, immutable");
}

#[test]
fn targets_are_classified_by_metadata() {
    assert_eq!(classify_target(None, "x.sog"), Target::Fail(ErrorReply::NotFound));
    assert_eq!(classify_target(Some(true), "x.sog"), Target::Listing);
    assert_eq!(classify_target(Some(false), "x.sog"), Target::File { immutable: true });
    assert_eq!(classify_target(Some(false), "thumb.webp"), Target::File { immutable: false });
}

#[test]
fn error_replies_have_fixed_status_and_body() {
    assert_eq!((ErrorReply::Forbidden.status(), ErrorReply::Forbidden.body()), (403, "forbidden"));
    assert_eq!((ErrorReply::NotFound.status(), ErrorReply::NotFound.body()), (404, "not found"));
    assert_eq!(
        (ErrorReply::UnreadableDirectory.status(), ErrorReply::UnreadableDirectory.body()),
        (500, "cannot read directory")
    );
}

#[test]
fn content_length_values_are_read_as_u64_from_str_does() {
    assert_eq!(parse_content_length(b"812"), Some(812));
    assert_eq!(parse_content_length(b"0"), Some(0));
    assert_eq!(parse_content_length(b"+5"), Some(5));
    assert_eq!(parse_content_length(b"007"), Some(7));
    assert_eq!(parse_content_length(b"18446744073709551615"), Some(u64::MAX));
    assert_eq!(parse_content_length(b"18446744073709551616"), None);
    assert_eq!(parse_content_length(b"99999999999999999999x"), None);
    assert_eq!(parse_content_length(b""), None);
    assert_eq!(parse_content_length(b"+"), None);
    assert_eq!(parse_content_length(b"-1"), None);
    assert_eq!(parse_content_length(b"1 2"), None);
    assert_eq!(parse_content_length(b"12\x01"), None);
    assert_eq!(parse_content_length(b"\xff"), None);
}

#[test]
fn stats_start_at_zero_and_wrap() {
    let mut s = Stats::default();
    assert_eq!((s.requests, s.bytes), (0, 0));
    s.record_request();
    s.record_bytes(10);
    assert_eq!((s.requests, s.bytes), (1, 10));
    s.record_bytes(u64::MAX);
    assert_eq!(s.bytes, 9);
    s.requests = u64::MAX;
    s.record_request();
    assert_eq!(s.requests, 0);
}

#[test]
fn each_request_is_counted_and_resolved() {
    let mut st = AppState::new(PathBuf::from("/lib"));
    assert_eq!(st.begin_request("/3dgs/x/"), Ok(vec!["3dgs".to_string(), "x".to_string()]));
    assert_eq!(st.begin_request("/../etc"), Err(ErrorReply::Forbidden));
    assert_eq!(st.stats.requests, 2);
    assert_eq!(st.stats.bytes, 0);
    assert_eq!(st.root, PathBuf::from("/lib"));
}

#[test]
fn served_bytes_are_counted_from_content_length() {
    let mut st = AppState::new(PathBuf::from("/lib"));
    st.record_served(Some(b"100"));
    st.record_served(None);
    st.record_served(Some(b"nope"));
    st.record_served(Some(b"23"));
    assert_eq!(st.stats.bytes, 123);
    assert_eq!(st.stats.requests, 0);
}

#[test]
fn counters_never_decrease_below_the_limit() {
    let mut st = AppState::new(PathBuf::from("/lib"));
    let mut last = (st.stats.requests, st.stats.bytes);
    for path in ["/a", "/..", "/b/c", ""] {
        st.begin_request(path);
        st.record_served(Some(b"7"));
        st.record_served(Some(b"bad"));
        let now = (st.stats.requests, st.stats.bytes);
        assert!(now.0 > last.0 && now.1 >= last.1);
        last = now;
    }
    assert_eq!(last, (4, 28));
    assert_eq!(st.root, PathBuf::from("/lib"));
}
