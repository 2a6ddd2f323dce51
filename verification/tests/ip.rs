use kannader::ip::{parse_ipv4, parse_ipv6};

#[test]
fn ipv4_literals() {
    assert_eq!(parse_ipv4(b"1.2.3.4"), Some([1, 2, 3, 4]));
    assert_eq!(parse_ipv4(b"255.255.255.255"), Some([255, 255, 255, 255]));
    assert_eq!(parse_ipv4(b"0.0.0.0"), Some([0, 0, 0, 0]));
    assert_eq!(parse_ipv4(b"256.0.0.1"), None);
    assert_eq!(parse_ipv4(b"01.2.3.4"), None);
    assert_eq!(parse_ipv4(b"1.2.3"), None);
    assert_eq!(parse_ipv4(b"1.2.3.4.5"), None);
    assert_eq!(parse_ipv4(b"1.2.3.4 "), None);
    assert_eq!(parse_ipv4(b""), None);
    assert_eq!(parse_ipv4(b"1..3.4"), None);
}

#[test]
fn ipv6_literals() {
    assert_eq!(parse_ipv6(b"::1"), Some([0, 0, 0, 0, 0, 0, 0, 1]));
    assert_eq!(parse_ipv6(b"::"), Some([0; 8]));
    assert_eq!(parse_ipv6(b"1::"), Some([1, 0, 0, 0, 0, 0, 0, 0]));
    assert_eq!(parse_ipv6(b"1:2:3:4:5:6:7:8"), Some([1, 2, 3, 4, 5, 6, 7, 8]));
    assert_eq!(parse_ipv6(b"fe80::aBcD"), Some([0xfe80, 0, 0, 0, 0, 0, 0, 0xabcd]));
    assert_eq!(
        parse_ipv6(b"0::ffff:8.7.6.5"),
        Some([0, 0, 0, 0, 0, 0xffff, 0x0807, 0x0605])
    );
    assert_eq!(parse_ipv6(b"1:2:3:4:5:6:7:8:9"), None);
    assert_eq!(parse_ipv6(b"1::2::3"), None);
    assert_eq!(parse_ipv6(b"12345::"), None);
    assert_eq!(parse_ipv6(b"1:2:3"), None);
    assert_eq!(parse_ipv6(b"::g"), None);
    assert_eq!(parse_ipv6(b""), None);
}
