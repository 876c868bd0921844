use gausify_server::text::{decimal_string, push_ipv4};

#[test]
fn decimal_text_of_integers() {
    assert_eq!(decimal_string(0), "0");
    assert_eq!(decimal_string(7), "7");
    assert_eq!(decimal_string(8443), "8443");
    assert_eq!(decimal_string(u64::MAX), "18446744073709551615");
}

#[test]
fn dotted_quad_text() {
    let mut s = String::from("at ");
    push_ipv4(&mut s, u32::from_be_bytes([192, 168, 0, 9]));
    assert_eq!(s, "at 192.168.0.9");
}
