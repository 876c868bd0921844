use gausify_server::banner::banner_lines;
use gausify_server::config::Settings;
use std::path::PathBuf;

fn settings(http: bool, https: bool) -> Settings {
    Settings {
        library: PathBuf::from("/path/to/library"),
        http,
        https,
        http_port: 8080,
        https_port: 8443,
    }
}

#[test]
fn banner_lists_both_listeners() {
    let ips = vec![u32::from_be_bytes([192, 168, 1, 10])];
    let lines = banner_lines("/path/to/library", &settings(true, true), &ips);
    let expected = vec![
        "",
        "  Gausify Server",
        "  Serving library:",
        "    /path/to/library",
        "",
        "  HTTPS:",
        "    https://localhost:8443",
        "    https://192.168.1.10:8443",
        "  HTTP:",
        "    http://localhost:8080",
        "    http://192.168.1.10:8080",
        "",
        "  Paste an HTTPS URL above into the Gausify gallery. Ctrl-C to stop.",
        "",
    ];
    assert_eq!(lines, expected);
}

#[test]
fn banner_leaves_out_disabled_listeners() {
    let lines = banner_lines("lib", &settings(false, true), &vec![]);
    assert!(lines.iter().any(|l| l == "    https://localhost:8443"));
    assert!(!lines.iter().any(|l| l.contains("http://")));
    let lines = banner_lines("lib", &settings(true, false), &vec![]);
    assert!(!lines.iter().any(|l| l.contains("https://")));
    assert!(lines.iter().any(|l| l == "    http://localhost:8080"));
}

#[test]
fn banner_writes_every_address_in_order() {
    let ips = vec![u32::from_be_bytes([10, 0, 0, 2]), u32::from_be_bytes([255, 255, 255, 254])];
    let lines = banner_lines("lib", &settings(true, false), &ips);
    assert_eq!(lines[5..9], ["  HTTP:", "    http://localhost:8080", "    http://10.0.0.2:8080", "    http://255.255.255.254:8080"]);
}
