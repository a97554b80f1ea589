use tockloader_lib::number::{parse_hex_address, parse_radix16_u64};

fn chars(s: &str) -> Vec<char> {
    s.chars().collect()
}

#[test]
fn radix16_reads_digits() {
    assert_eq!(parse_radix16_u64(&chars("40000")), Some(0x40000));
    assert_eq!(parse_radix16_u64(&chars("AbCdEf")), Some(0xabcdef));
    assert_eq!(parse_radix16_u64(&chars("+ff")), Some(0xff));
    assert_eq!(parse_radix16_u64(&chars("0")), Some(0));
    assert_eq!(parse_radix16_u64(&chars("ffffffffffffffff")), Some(u64::MAX));
}

#[test]
fn radix16_agrees_with_std() {
    for s in ["1", "+1", "", "+", "-1", "-", "g", "12g", " 1", "ffffffffffffffff", "10000000000000000", "00000000000000000001", "+-1"] {
        assert_eq!(parse_radix16_u64(&chars(s)), u64::from_str_radix(s, 16).ok(), "input {s:?}");
    }
}

#[test]
fn radix16_rejects_bad_input() {
    assert_eq!(parse_radix16_u64(&chars("")), None);
    assert_eq!(parse_radix16_u64(&chars("+")), None);
    assert_eq!(parse_radix16_u64(&chars("-1")), None);
    assert_eq!(parse_radix16_u64(&chars("x1")), None);
    assert_eq!(parse_radix16_u64(&chars("10000000000000000")), None);
}

#[test]
fn hex_address_strips_prefixes() {
    assert_eq!(parse_hex_address(&chars("0x40000")), Some(0x40000));
    assert_eq!(parse_hex_address(&chars("40000")), Some(0x40000));
    assert_eq!(parse_hex_address(&chars("0x0x10")), Some(0x10));
    assert_eq!(parse_hex_address(&chars("0X10")), None);
    assert_eq!(parse_hex_address(&chars("0x")), None);
    assert_eq!(parse_hex_address(&chars("00x1")), None);
}
