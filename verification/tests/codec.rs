use pipetool::codec::{ascii_lower, ascii_upper, base64_digit, base64_group, encode_char, hex_digit, hex_pair};

#[test]
fn hex_digits() {
    assert_eq!(hex_digit(0), '0');
    assert_eq!(hex_digit(9), '9');
    assert_eq!(hex_digit(10), 'A');
    assert_eq!(hex_digit(15), 'F');
}

#[test]
fn hex_pairs_put_the_high_nibble_first() {
    assert_eq!(hex_pair(0xAB), ('A', 'B'));
    assert_eq!(hex_pair(0x05), ('0', '5'));
    assert_eq!(hex_pair(0xF0), ('F', '0'));
    assert_eq!(hex_pair(0xFF), ('F', 'F'));
}

#[test]
fn base64_digits() {
    assert_eq!(base64_digit(0), 'A');
    assert_eq!(base64_digit(25), 'Z');
    assert_eq!(base64_digit(26), 'a');
    assert_eq!(base64_digit(51), 'z');
    assert_eq!(base64_digit(52), '0');
    assert_eq!(base64_digit(61), '9');
    assert_eq!(base64_digit(62), '+');
    assert_eq!(base64_digit(63), '/');
}

#[test]
fn base64_groups() {
    assert_eq!(base64_group(b'M', Some(b'a'), Some(b'n')), ['T', 'W', 'F', 'u']);
    assert_eq!(base64_group(b'M', Some(b'a'), None), ['T', 'W', 'E', '=']);
    assert_eq!(base64_group(b'M', None, None), ['T', 'Q', '=', '=']);
    assert_eq!(base64_group(0xFF, Some(0xFF), Some(0xFF)), ['/', '/', '/', '/']);
    assert_eq!(base64_group(0, Some(0), Some(0)), ['A', 'A', 'A', 'A']);
}

#[test]
fn base64_group_with_only_the_last_byte() {
    assert_eq!(base64_group(b'M', None, Some(b'n')), ['T', 'Q', '=', 'u']);
}

#[test]
fn ascii_lowering() {
    assert_eq!(ascii_lower('A'), 'a');
    assert_eq!(ascii_lower('Z'), 'z');
    assert_eq!(ascii_lower('q'), 'q');
    assert_eq!(ascii_lower('@'), '@');
    assert_eq!(ascii_lower('['), '[');
    assert_eq!(ascii_lower('É'), 'É');
}

fn encoded(c: char) -> Vec<u8> {
    let (bytes, n) = encode_char(c);
    bytes[..n].to_vec()
}

#[test]
fn utf8_encodings() {
    assert_eq!(encoded('A'), vec![0x41]);
    assert_eq!(encoded('é'), vec![0xC3, 0xA9]);
    assert_eq!(encoded('€'), vec![0xE2, 0x82, 0xAC]);
    assert_eq!(encoded('😀'), vec![0xF0, 0x9F, 0x98, 0x80]);
    for c in ['\0', '\u{7f}', '\u{80}', '\u{7ff}', '\u{800}', '\u{ffff}', '\u{10000}', '\u{10ffff}'] {
        let mut buf = [0u8; 4];
        assert_eq!(encoded(c), c.encode_utf8(&mut buf).as_bytes().to_vec());
    }
}

#[test]
fn ascii_raising() {
    assert_eq!(ascii_upper('a'), 'A');
    assert_eq!(ascii_upper('z'), 'Z');
    assert_eq!(ascii_upper('Q'), 'Q');
    assert_eq!(ascii_upper('`'), '`');
    assert_eq!(ascii_upper('{'), '{');
    assert_eq!(ascii_upper('é'), 'é');
}
