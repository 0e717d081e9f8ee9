use latency_hooks::util::{get_in_addr, same_text, utf8_from_ptr, InvalidUtf8, SockAddr};

fn v6(groups: [u16; 8]) -> SockAddr {
    let mut octets = [0u8; 16];
    for (i, group) in groups.iter().enumerate() {
        octets[2 * i] = (group >> 8) as u8;
        octets[2 * i + 1] = (group & 0xff) as u8;
    }
    SockAddr::Inet6(octets)
}

#[test]
fn string_ends_before_the_first_nul() {
    assert_eq!(utf8_from_ptr(b"example.com\0junk"), Ok("example.com"));
    assert_eq!(utf8_from_ptr(b"example.com\0"), Ok("example.com"));
    assert_eq!(utf8_from_ptr(b"a\0b\0c\0"), Ok("a"));
}

#[test]
fn string_without_nul_is_the_whole_buffer() {
    assert_eq!(utf8_from_ptr(b"example.com"), Ok("example.com"));
}

#[test]
fn empty_strings_decode_to_the_empty_text() {
    assert_eq!(utf8_from_ptr(b""), Ok(""));
    assert_eq!(utf8_from_ptr(b"\0"), Ok(""));
    assert_eq!(utf8_from_ptr(b"\0example.com"), Ok(""));
    assert_eq!(utf8_from_ptr(&[0u8; 45]), Ok(""));
}

#[test]
fn text_outside_ascii_is_decoded() {
    assert_eq!(utf8_from_ptr("bücher.example\0".as_bytes()), Ok("bücher.example"));
    assert_eq!(utf8_from_ptr("例え\0x".as_bytes()), Ok("例え"));
}

#[test]
fn bytes_that_are_not_utf8_are_refused() {
    assert_eq!(utf8_from_ptr(&[0xff, 0x00]), Err(InvalidUtf8));
    assert_eq!(utf8_from_ptr(&[b'a', 0xc3, 0x00]), Err(InvalidUtf8));
    assert_eq!(utf8_from_ptr(&[0xc3, 0x28]), Err(InvalidUtf8));
    assert_eq!(utf8_from_ptr(&[0xed, 0xa0, 0x80, 0x00]), Err(InvalidUtf8));
    assert_eq!(utf8_from_ptr(&[0xc0, 0x80]), Err(InvalidUtf8));
}

#[test]
fn bytes_after_the_nul_are_not_looked_at() {
    assert_eq!(utf8_from_ptr(&[b'o', b'k', 0x00, 0xff, 0xfe]), Ok("ok"));
}

#[test]
fn ipv4_addresses_are_dotted_decimal() {
    assert_eq!(get_in_addr(&SockAddr::Inet([127, 0, 0, 1])), "127.0.0.1");
    assert_eq!(get_in_addr(&SockAddr::Inet([0, 0, 0, 0])), "0.0.0.0");
    assert_eq!(get_in_addr(&SockAddr::Inet([255, 255, 255, 255])), "255.255.255.255");
    assert_eq!(get_in_addr(&SockAddr::Inet([10, 20, 30, 40])), "10.20.30.40");
    assert_eq!(get_in_addr(&SockAddr::Inet([192, 168, 1, 100])), "192.168.1.100");
    assert_eq!(get_in_addr(&SockAddr::Inet([9, 99, 100, 109])), "9.99.100.109");
}

#[test]
fn every_octet_is_written_without_leading_zeros() {
    for n in 0..=255u8 {
        let expected = format!("{}.0.{}.{}", n, n, n);
        assert_eq!(get_in_addr(&SockAddr::Inet([n, 0, n, n])), expected);
    }
}

#[test]
fn ipv6_addresses_are_colon_separated_hexadecimal() {
    assert_eq!(get_in_addr(&v6([1, 2, 3, 4, 5, 6, 7, 8])), "1:2:3:4:5:6:7:8");
    assert_eq!(
        get_in_addr(&v6([0x2001, 0xdb8, 0x85a3, 0x8d3, 0x1319, 0x8a2e, 0x370, 0x7348])),
        "2001:db8:85a3:8d3:1319:8a2e:370:7348"
    );
    assert_eq!(
        get_in_addr(&v6([0xffff, 0xffff, 0xffff, 0xffff, 0xffff, 0xffff, 0xffff, 0xffff])),
        "ffff:ffff:ffff:ffff:ffff:ffff:ffff:ffff"
    );
    assert_eq!(
        get_in_addr(&v6([0xabcd, 0xef01, 0x10, 0x100, 0x1000, 0xf, 0xff, 0xfff])),
        "abcd:ef01:10:100:1000:f:ff:fff"
    );
}

#[test]
fn the_longest_run_of_zero_groups_is_shortened() {
    assert_eq!(get_in_addr(&v6([0, 0, 0, 0, 0, 0, 0, 0])), "::");
    assert_eq!(get_in_addr(&v6([0, 0, 0, 0, 0, 0, 0, 1])), "::1");
    assert_eq!(get_in_addr(&v6([1, 0, 0, 0, 0, 0, 0, 0])), "1::");
    assert_eq!(get_in_addr(&v6([0x2001, 0xdb8, 0, 0, 0, 0, 0, 1])), "2001:db8::1");
    assert_eq!(get_in_addr(&v6([0xfe80, 0, 0, 0, 1, 2, 3, 4])), "fe80::1:2:3:4");
    assert_eq!(get_in_addr(&v6([1, 0, 0, 2, 0, 0, 0, 3])), "1:0:0:2::3");
    assert_eq!(get_in_addr(&v6([1, 0, 0, 0, 2, 0, 0, 3])), "1::2:0:0:3");
    assert_eq!(get_in_addr(&v6([0, 0, 1, 0, 0, 0, 0, 0])), "0:0:1::");
    assert_eq!(get_in_addr(&v6([0, 0, 0, 1, 2, 3, 4, 5])), "::1:2:3:4:5");
}

#[test]
fn of_two_longest_runs_the_left_one_is_shortened() {
    assert_eq!(get_in_addr(&v6([1, 0, 0, 2, 3, 0, 0, 4])), "1::2:3:0:0:4");
    assert_eq!(get_in_addr(&v6([0, 0, 1, 2, 3, 4, 0, 0])), "::1:2:3:4:0:0");
    assert_eq!(get_in_addr(&v6([1, 0, 0, 0, 2, 0, 0, 0])), "1::2:0:0:0");
}

#[test]
fn a_single_zero_group_is_written_out() {
    assert_eq!(get_in_addr(&v6([1, 0, 2, 3, 4, 5, 6, 7])), "1:0:2:3:4:5:6:7");
    assert_eq!(get_in_addr(&v6([0, 1, 2, 3, 4, 5, 6, 7])), "0:1:2:3:4:5:6:7");
    assert_eq!(get_in_addr(&v6([1, 2, 3, 4, 5, 6, 7, 0])), "1:2:3:4:5:6:7:0");
    assert_eq!(get_in_addr(&v6([0, 1, 0, 1, 0, 1, 0, 1])), "0:1:0:1:0:1:0:1");
}

#[test]
fn embedded_ipv4_addresses_end_in_dotted_decimal() {
    assert_eq!(get_in_addr(&v6([0, 0, 0, 0, 0, 0xffff, 0x0102, 0x0304])), "::ffff:1.2.3.4");
    assert_eq!(get_in_addr(&v6([0, 0, 0, 0, 0, 0xffff, 0xc0a8, 0x0164])), "::ffff:192.168.1.100");
    assert_eq!(get_in_addr(&v6([0, 0, 0, 0, 0, 0xffff, 0, 0])), "::ffff:0.0.0.0");
    assert_eq!(get_in_addr(&v6([0, 0, 0, 0, 0, 0, 0x0102, 0x0304])), "::1.2.3.4");
    assert_eq!(get_in_addr(&v6([0, 0, 0, 0, 0, 0, 0x0001, 0])), "::0.1.0.0");
}

#[test]
fn other_runs_of_five_or_six_are_plain_hexadecimal() {
    assert_eq!(get_in_addr(&v6([0, 0, 0, 0, 0, 0xfffe, 0x0102, 0x0304])), "::fffe:102:304");
    assert_eq!(get_in_addr(&v6([1, 0, 0, 0, 0, 0, 0, 2])), "1::2");
    assert_eq!(get_in_addr(&v6([1, 2, 0, 0, 0, 0, 0, 0])), "1:2::");
    assert_eq!(get_in_addr(&v6([1, 0, 0, 0, 0, 0, 0xffff, 2])), "1::ffff:2");
}

#[test]
fn other_families_have_the_empty_text() {
    assert_eq!(get_in_addr(&SockAddr::Other), "");
}

#[test]
fn ip_addresses_never_have_the_empty_text() {
    assert!(!get_in_addr(&SockAddr::Inet([0, 0, 0, 0])).is_empty());
    assert!(!get_in_addr(&SockAddr::Inet6([0; 16])).is_empty());
}

#[test]
fn same_text_compares_whole_strings() {
    assert!(same_text("", ""));
    assert!(same_text("a.example", "a.example"));
    assert!(!same_text("a.example", "b.example"));
    assert!(!same_text("a.example", "a.exampl"));
    assert!(!same_text("a.exampl", "a.example"));
    assert!(!same_text("", "a"));
    assert!(same_text("bücher", "bücher"));
    assert!(!same_text("bücher", "bucher"));
}

#[test]
fn different_addresses_have_different_texts() {
    let mut addresses = vec![
        SockAddr::Inet([1, 2, 3, 4]),
        SockAddr::Inet([1, 2, 3, 40]),
        SockAddr::Inet([12, 3, 4, 5]),
        SockAddr::Inet([1, 23, 4, 5]),
        SockAddr::Inet([0, 0, 0, 0]),
        SockAddr::Inet([0, 0, 0, 1]),
    ];
    let patterns: [[u16; 8]; 12] = [
        [0, 0, 0, 0, 0, 0, 0, 0],
        [0, 0, 0, 0, 0, 0, 0, 1],
        [0, 0, 0, 0, 0, 0, 1, 0],
        [0, 0, 0, 0, 0, 0, 0x0102, 0x0304],
        [0, 0, 0, 0, 0, 0xffff, 0x0102, 0x0304],
        [0, 0, 0, 0, 0, 0xfffe, 0x0102, 0x0304],
        [1, 0, 0, 0, 0, 0, 0, 0],
        [1, 0, 0, 0, 0, 0, 0, 1],
        [1, 0, 0, 1, 0, 0, 0, 1],
        [1, 0, 0, 0, 1, 0, 0, 1],
        [0x12, 0x34, 0, 0, 0, 0, 0, 0],
        [0x1234, 0, 0, 0, 0, 0, 0, 0],
    ];
    for groups in patterns {
        addresses.push(v6(groups));
    }
    let texts: Vec<String> = addresses.iter().map(get_in_addr).collect();
    for i in 0..texts.len() {
        for j in 0..texts.len() {
            assert_eq!(i == j, texts[i] == texts[j], "{:?} and {:?}", texts[i], texts[j]);
        }
    }
}

#[test]
fn no_text_is_longer_than_39_characters() {
    let longest = get_in_addr(&v6([0xffff; 8]));
    assert_eq!(longest.len(), 39);
    assert_eq!(get_in_addr(&SockAddr::Inet([255; 4])).len(), 15);
    assert_eq!(get_in_addr(&v6([0, 0, 0, 0, 0, 0xffff, 0xffff, 0xffff])).len(), 22);
}
