use dns_server::address::{client_ip, client_key, ipv4, parse_ipv4, UNKNOWN_CLIENT};

#[test]
fn ipv4_puts_the_first_field_highest() {
    assert_eq!(ipv4(1, 2, 3, 4), 0x0102_0304);
    assert_eq!(ipv4(45, 33, 55, 171), 0x2D21_37AB);
    assert_eq!(ipv4(0, 0, 0, 0), 0);
    assert_eq!(ipv4(255, 255, 255, 255), u32::MAX);
}

#[test]
fn parse_ipv4_reads_a_dotted_quad() {
    assert_eq!(parse_ipv4(b"45.33.55.171"), Some(0x2D21_37AB));
    assert_eq!(parse_ipv4(b"0.0.0.0"), Some(0));
    assert_eq!(parse_ipv4(b"255.255.255.255"), Some(u32::MAX));
    assert_eq!(parse_ipv4(b"3.129.217.143"), Some(0x0381_D98F));
}

#[test]
fn parse_ipv4_takes_leading_zeros_within_three_digits() {
    assert_eq!(parse_ipv4(b"001.002.003.004"), Some(0x0102_0304));
    assert_eq!(parse_ipv4(b"0001.2.3.4"), None);
}

#[test]
fn parse_ipv4_wants_four_fields() {
    assert_eq!(parse_ipv4(b""), None);
    assert_eq!(parse_ipv4(b"1"), None);
    assert_eq!(parse_ipv4(b"1.2"), None);
    assert_eq!(parse_ipv4(b"1.2.3"), None);
    assert_eq!(parse_ipv4(b"1.2.3.4.5"), None);
    assert_eq!(parse_ipv4(b"1.2.3."), None);
    assert_eq!(parse_ipv4(b".1.2.3"), None);
    assert_eq!(parse_ipv4(b"1..2.3"), None);
    assert_eq!(parse_ipv4(b"..."), None);
}

#[test]
fn parse_ipv4_wants_digits_up_to_255() {
    assert_eq!(parse_ipv4(b"256.1.1.1"), None);
    assert_eq!(parse_ipv4(b"1.1.1.256"), None);
    assert_eq!(parse_ipv4(b"1.1.1.999"), None);
    assert_eq!(parse_ipv4(b"a.b.c.d"), None);
    assert_eq!(parse_ipv4(b"+1.2.3.4"), None);
    assert_eq!(parse_ipv4(b"-1.2.3.4"), None);
    assert_eq!(parse_ipv4(b"1.2.3.4 "), None);
    assert_eq!(parse_ipv4(b" 1.2.3.4"), None);
    assert_eq!(parse_ipv4(b"1.2.3.4:53"), None);
}

#[test]
fn client_ip_cuts_the_port_off() {
    assert_eq!(client_ip(b"10.0.0.1:5353"), b"10.0.0.1");
    assert_eq!(client_ip(b"10.0.0.1"), b"10.0.0.1");
    assert_eq!(client_ip(b":53"), b"");
    assert_eq!(client_ip(b""), b"");
    assert_eq!(client_ip(b"[::1]:53"), b"[");
    assert_eq!(client_ip(b"host:1:2"), b"host");
}

#[test]
fn client_key_is_the_address_of_an_ipv4_client() {
    assert_eq!(client_key(b"10.0.0.1:5353"), 0x0A00_0001);
    assert_eq!(client_key(b"192.168.1.20:40000"), 0xC0A8_0114);
    assert_eq!(client_key(b"255.255.255.255:1"), 0xFFFF_FFFF);
    assert_eq!(client_key(b"10.0.0.1"), 0x0A00_0001);
}

#[test]
fn client_key_files_every_other_client_under_one_key() {
    assert_eq!(UNKNOWN_CLIENT, 1u64 << 32);
    assert_eq!(client_key(b"[::1]:53"), UNKNOWN_CLIENT);
    assert_eq!(client_key(b"localhost:53"), UNKNOWN_CLIENT);
    assert_eq!(client_key(b""), UNKNOWN_CLIENT);
    assert_eq!(client_key(b"10.0.0:53"), UNKNOWN_CLIENT);
}
