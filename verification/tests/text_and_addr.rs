use ci_system::addr::{parse_host, Ipv4Addr, SocketAddrV4};
use ci_system::text::{append_decimal, chars_of, parse_u16, parse_u8, split_chars};

fn chars(s: &str) -> Vec<char> {
    chars_of(s)
}

#[test]
fn parse_u8_accepts_what_std_accepts() {
    for (input, expected) in [
        ("0", Some(0u8)),
        ("255", Some(255)),
        ("+7", Some(7)),
        ("007", Some(7)),
        ("0000000000000000000042", Some(42)),
        ("256", None),
        ("99999999999", None),
        ("-1", None),
        ("-0", None),
        ("", None),
        ("+", None),
        ("++1", None),
        ("1a", None),
        (" 1", None),
        ("1.5", None),
    ] {
        assert_eq!(parse_u8(&chars(input)), expected, "input {:?}", input);
        assert_eq!(parse_u8(&chars(input)), input.parse::<u8>().ok(), "input {:?}", input);
    }
}

#[test]
fn parse_u16_bounds() {
    assert_eq!(parse_u16(&chars("65535")), Some(65535));
    assert_eq!(parse_u16(&chars("65536")), None);
    assert_eq!(parse_u16(&chars("8080")), Some(8080));
    assert_eq!(parse_u16(&chars("+8080")), Some(8080));
    assert_eq!(parse_u16(&chars("port")), None);
}

#[test]
fn split_keeps_empty_pieces() {
    let pieces = split_chars(&chars("a..b"), '.');
    assert_eq!(pieces, vec![vec!['a'], vec![], vec!['b']]);
    assert_eq!(split_chars(&chars(""), '.'), vec![Vec::<char>::new()]);
    assert_eq!(split_chars(&chars("1.2."), '.'), vec![vec!['1'], vec!['2'], vec![]]);
}

#[test]
fn decimal_writing() {
    for n in [0u16, 7, 10, 99, 100, 8080, 65535] {
        let mut s = String::from("x");
        append_decimal(&mut s, n);
        assert_eq!(s, format!("x{}", n));
    }
}

#[test]
fn socket_address_is_written_like_std() {
    let a = SocketAddrV4::new(Ipv4Addr::new(127, 0, 0, 1), 8080);
    assert_eq!(a.to_string(), "127.0.0.1:8080");
    let b = SocketAddrV4::new(Ipv4Addr::new(255, 255, 255, 255), 65535);
    assert_eq!(b.to_string(), "255.255.255.255:65535");
    let c = SocketAddrV4::new(Ipv4Addr::new(0, 0, 0, 0), 0);
    assert_eq!(c.to_string(), "0.0.0.0:0");
    let d = SocketAddrV4::new(Ipv4Addr::new(10, 20, 30, 40), 9000);
    assert_eq!(d.to_string(), "10.20.30.40:9000");
}

#[test]
fn host_parsing() {
    assert_eq!(parse_host("10.0.0.1"), Some(Ipv4Addr::new(10, 0, 0, 1)));
    assert_eq!(parse_host("1.2.3.4.5"), Some(Ipv4Addr::new(1, 2, 3, 4)));
    assert_eq!(parse_host("1.2.3.4.junk"), Some(Ipv4Addr::new(1, 2, 3, 4)));
    assert_eq!(parse_host("+1.02.3.004"), Some(Ipv4Addr::new(1, 2, 3, 4)));
    assert_eq!(parse_host("1.2.3"), None);
    assert_eq!(parse_host("1.2.3.256"), None);
    assert_eq!(parse_host("1..2.3"), None);
    assert_eq!(parse_host(""), None);
    assert_eq!(parse_host("localhost"), None);
}

#[test]
fn host_round_trip() {
    for ip in [
        Ipv4Addr::new(0, 0, 0, 0),
        Ipv4Addr::new(127, 0, 0, 1),
        Ipv4Addr::new(255, 255, 255, 255),
        Ipv4Addr::new(192, 168, 10, 9),
    ] {
        let text = SocketAddrV4::new(ip, 1).to_string();
        let host = text.split(':').next().unwrap();
        assert_eq!(parse_host(host), Some(ip));
    }
}
