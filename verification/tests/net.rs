use gausify_server::net::{local_ipv4s, IpAddress};

fn ip(a: u8, b: u8, c: u8, d: u8) -> u32 {
    u32::from_be_bytes([a, b, c, d])
}

#[test]
fn lan_addresses_are_sorted_and_deduplicated() {
    let listed = vec![
        IpAddress::V4(ip(192, 168, 1, 10)),
        IpAddress::V4(ip(127, 0, 0, 1)),
        IpAddress::V6,
        IpAddress::V4(ip(10, 0, 0, 2)),
        IpAddress::V4(ip(169, 254, 3, 4)),
        IpAddress::V4(ip(0, 0, 0, 0)),
        IpAddress::V4(ip(192, 168, 1, 10)),
        IpAddress::V4(ip(172, 16, 0, 1)),
    ];
    assert_eq!(
        local_ipv4s(Some(listed)),
        vec![ip(10, 0, 0, 2), ip(172, 16, 0, 1), ip(192, 168, 1, 10)]
    );
}

#[test]
fn unreadable_interface_list_gives_no_address() {
    assert_eq!(local_ipv4s(None), Vec::<u32>::new());
}

#[test]
fn loopback_range_and_link_local_range_are_skipped() {
    let listed = vec![
        IpAddress::V4(ip(127, 5, 6, 7)),
        IpAddress::V4(ip(169, 254, 0, 0)),
        IpAddress::V4(ip(169, 253, 0, 1)),
        IpAddress::V4(ip(128, 0, 0, 1)),
    ];
    assert_eq!(local_ipv4s(Some(listed)), vec![ip(128, 0, 0, 1), ip(169, 253, 0, 1)]);
}
