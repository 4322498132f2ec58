use dns_forwarder::addr::{parse_ipv4, push_dotted, IpAddr, Ipv4Addr};
use dns_forwarder::decimal::{parse_byte, push_decimal};
use dns_forwarder::text::{join_texts, same_text, split_text};
use dns_forwarder::whitespace::{is_whitespace, split_whitespace, trim_text};
use dns_forwarder::wire::{
    encode_domain_to_labels, push_u16, push_u32, read_domain_name, skip_name, u16_be, u32_be,
    DnsError,
};

#[test]
fn numbers_are_big_endian() {
    let mut buf: Vec<u8> = Vec::new();
    push_u16(&mut buf, 0x1234);
    push_u32(&mut buf, 0x89AB_CDEF);
    assert_eq!(buf, vec![0x12, 0x34, 0x89, 0xAB, 0xCD, 0xEF]);
    assert_eq!(u16_be(&buf, 0), 0x1234);
    assert_eq!(u32_be(&buf, 2), 0x89AB_CDEF);
}

#[test]
fn a_name_is_written_label_by_label() {
    assert_eq!(
        encode_domain_to_labels("www.example.com"),
        b"\x03www\x07example\x03com\x00".to_vec()
    );
    assert_eq!(encode_domain_to_labels(""), vec![0]);
    assert_eq!(encode_domain_to_labels("a..b."), b"\x01a\x01b\x00".to_vec());
}

#[test]
fn a_written_name_reads_back() {
    let mut data: Vec<u8> = vec![0xFF, 0xFF];
    data.extend(encode_domain_to_labels("www.example.com"));
    data.extend([9, 9]);
    let (name, end) = read_domain_name(&data, 2).unwrap();
    assert_eq!(name, "www.example.com");
    assert_eq!(end, data.len() - 2);
    assert_eq!(skip_name(&data, 2), Ok(end as u128));
}

#[test]
fn a_pointer_is_followed() {
    let data: Vec<u8> = b"\x03com\x00\x07example\xC0\x00\xFF".to_vec();
    let (name, end) = read_domain_name(&data, 5).unwrap();
    assert_eq!(name, "example.com");
    assert_eq!(end, 15);
    assert_eq!(skip_name(&data, 5), Ok(15));
}

#[test]
fn a_label_holds_text_beyond_ascii() {
    let data: Vec<u8> = b"\x05b\xC3\xBCch\x00".to_vec();
    let (name, end) = read_domain_name(&data, 0).unwrap();
    assert_eq!(name, "b\u{fc}ch");
    assert_eq!(end, 7);
    assert_eq!(encode_domain_to_labels("b\u{fc}ch"), data);
}

#[test]
fn a_name_that_cannot_be_read_is_refused() {
    assert_eq!(read_domain_name(&[], 0).err(), Some(DnsError::NamePastEnd));
    assert_eq!(read_domain_name(b"\x01a", 0).err(), Some(DnsError::NamePastEnd));
    assert_eq!(read_domain_name(b"\xC0", 0).err(), Some(DnsError::PointerTruncated));
    assert_eq!(read_domain_name(b"\x05ab", 0).err(), Some(DnsError::LabelPastEnd));
    assert_eq!(read_domain_name(b"\x02\xFF\xFE\x00", 0).err(), Some(DnsError::InvalidUtf8));
    assert_eq!(read_domain_name(b"\xC0\x00", 0).err(), Some(DnsError::PointerLoop));
    assert_eq!(read_domain_name(b"\x01a\xC0\x00", 0).err(), Some(DnsError::PointerLoop));
    assert_eq!(skip_name(b"\x05ab", 0), Err(DnsError::NamePastEnd));
    assert_eq!(skip_name(b"\xC0", 0), Ok(2));
}

#[test]
fn text_is_split_and_joined() {
    assert_eq!(split_text("a.b..c", '.'), vec!["a", "b", "", "c"]);
    assert_eq!(split_text("", '.'), vec![""]);
    let parts: Vec<String> = split_text("a.b..c", '.');
    assert_eq!(join_texts(&parts, '.'), "a.b..c");
    assert!(same_text("abc", "abc"));
    assert!(!same_text("abc", "abd"));
    assert!(!same_text("abc", "ab"));
}

#[test]
fn white_space_is_that_of_unicode() {
    let mut n: u32 = 0;
    while n <= 0x10FFFF {
        if let Some(c) = char::from_u32(n) {
            assert_eq!(is_whitespace(c), c.is_whitespace(), "{n:x}");
        }
        n += 1;
    }
}

#[test]
fn text_is_trimmed_and_cut_into_words() {
    assert_eq!(trim_text(" \t a b\u{a0}\r"), "a b");
    assert_eq!(trim_text(" \n "), "");
    assert_eq!(split_whitespace("  inet  fw\txip "), vec!["inet", "fw", "xip"]);
    assert!(split_whitespace(" \u{3000}").is_empty());
}

#[test]
fn numbers_are_written_and_read() {
    let mut out: String = String::from("n=");
    push_decimal(&mut out, 0);
    push_decimal(&mut out, 18446744073709551615);
    assert_eq!(out, "n=018446744073709551615");
    assert_eq!(parse_byte("255"), Some(255));
    assert_eq!(parse_byte("+7"), Some(7));
    assert_eq!(parse_byte("007"), Some(7));
    assert_eq!(parse_byte("256"), None);
    assert_eq!(parse_byte(""), None);
    assert_eq!(parse_byte("+"), None);
    assert_eq!(parse_byte("-1"), None);
    assert_eq!(parse_byte("1 "), None);
}

#[test]
fn addresses_are_written_and_read() {
    let ip: Ipv4Addr = parse_ipv4("192.168.1.100").unwrap();
    assert_eq!(ip.bits, 0xC0A8_0164);
    assert_eq!(ip.octets(), [192, 168, 1, 100]);
    let mut out: String = String::new();
    push_dotted(&mut out, &ip);
    assert_eq!(out, "192.168.1.100");
    for bad in ["", "1.2.3", "1.2.3.4.5", "1.2.3.256", "01.2.3.4", "1.2.3.+4", "1.2.3.4 ", "a.b.c.d"] {
        assert_eq!(parse_ipv4(bad), None, "{bad}");
    }
    assert_eq!(IpAddr::V4(ip).to_bytes(), vec![192, 168, 1, 100]);
    let bytes: [u8; 16] = [1, 2, 3, 4, 5, 6, 7, 8, 9, 10, 11, 12, 13, 14, 15, 16];
    assert_eq!(IpAddr::V6(bytes).to_bytes(), bytes.to_vec());
}
