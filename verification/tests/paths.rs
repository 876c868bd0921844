use gausify_server::paths::safe_relative;

fn segs(v: &[&str]) -> Option<Vec<String>> {
    Some(v.iter().map(|s| s.to_string()).collect())
}

#[test]
fn plain_path_resolves_to_its_components() {
    assert_eq!(safe_relative("/3dgs/my-object/scene.json"), segs(&["3dgs", "my-object", "scene.json"]));
}

#[test]
fn root_resolves_to_no_component() {
    assert_eq!(safe_relative("/"), segs(&[]));
    assert_eq!(safe_relative(""), segs(&[]));
}

#[test]
fn empty_and_dot_segments_are_dropped() {
    assert_eq!(safe_relative("/a/./b//c/"), segs(&["a", "b", "c"]));
    assert_eq!(safe_relative("/./"), segs(&[]));
}

#[test]
fn parent_segment_is_refused() {
    assert_eq!(safe_relative("/a/../b"), None);
    assert_eq!(safe_relative("/.."), None);
    assert_eq!(safe_relative("/ok/.."), None);
}

#[test]
fn encoded_parent_segment_is_refused() {
    assert_eq!(safe_relative("/%2e%2e/etc/passwd"), None);
    assert_eq!(safe_relative("/a%2F..%2Fb"), None);
}

#[test]
fn backslash_and_nul_are_refused() {
    assert_eq!(safe_relative("/a\\b"), None);
    assert_eq!(safe_relative("/a%5Cb"), None);
    assert_eq!(safe_relative("/a%00b"), None);
}

#[test]
fn dots_that_are_not_parent_are_kept() {
    assert_eq!(safe_relative("/.../x.y"), segs(&["...", "x.y"]));
    assert_eq!(safe_relative("/.gausify/cert.pem"), segs(&[".gausify", "cert.pem"]));
}

#[test]
fn percent_escapes_are_decoded() {
    assert_eq!(safe_relative("/my%20object/frame%2Esog"), segs(&["my object", "frame.sog"]));
    assert_eq!(safe_relative("/caf%C3%A9"), segs(&["café"]));
}

#[test]
fn malformed_escapes_stand_for_themselves() {
    assert_eq!(safe_relative("/100%/%zz/%4"), segs(&["100%", "%zz", "%4"]));
}

#[test]
fn invalid_utf8_is_refused() {
    assert_eq!(safe_relative("/%ff"), None);
    assert_eq!(safe_relative("/%C3"), None);
}

#[test]
fn drive_prefix_segments_are_refused() {
    assert_eq!(safe_relative("/C:"), None);
    assert_eq!(safe_relative("/c:/windows"), None);
    assert_eq!(safe_relative("/lib/Z:evil"), None);
    assert_eq!(safe_relative("/%43%3A/x"), None);
}

#[test]
fn colons_elsewhere_are_kept() {
    assert_eq!(safe_relative("/ab:c/1:/:x"), segs(&["ab:c", "1:", ":x"]));
}

#[test]
fn inserted_empty_and_dot_pieces_change_nothing() {
    let cases = [("/a", "b"), ("/100%", "41"), ("/%4", "1"), ("", "x/y"), ("/a", "..")];
    for (a, b) in cases {
        let plain = format!("{a}/{b}");
        let padded = format!("{a}//./{b}");
        assert_eq!(safe_relative(&plain), safe_relative(&padded));
    }
    assert_eq!(safe_relative("/a//./b"), segs(&["a", "b"]));
    assert_eq!(safe_relative("/100%//./41"), segs(&["100%", "41"]));
}

#[test]
fn trailing_slash_changes_nothing() {
    for s in ["/a/b", "/%ff", "/x/..", "/caf%C3%A9", ""] {
        assert_eq!(safe_relative(&format!("{s}/")), safe_relative(s));
    }
}
