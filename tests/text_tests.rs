use libppm::text::{append_decimal, parse_decimal, write_decimal};

#[test]
fn write_decimal_edges() {
    let mut out: Vec<u8> = Vec::new();
    write_decimal(&mut out, 0);
    out.push(b' ');
    write_decimal(&mut out, 10);
    out.push(b' ');
    write_decimal(&mut out, usize::MAX);
    assert_eq!(String::from_utf8(out).unwrap(), format!("0 10 {}", usize::MAX));
}

#[test]
fn append_decimal_edges() {
    let mut s = String::from("x");
    append_decimal(&mut s, 0);
    append_decimal(&mut s, 255);
    append_decimal(&mut s, 90);
    assert_eq!(s, "x025590");
}

#[test]
fn parse_decimal_edges() {
    assert_eq!(parse_decimal(&b"0".to_vec()), Some(0));
    assert_eq!(parse_decimal(&b"00042".to_vec()), Some(42));
    assert_eq!(parse_decimal(&usize::MAX.to_string().into_bytes()), Some(usize::MAX));
    assert_eq!(parse_decimal(&b"".to_vec()), None);
    assert_eq!(parse_decimal(&b"4x2".to_vec()), None);
    assert_eq!(parse_decimal(&b"-1".to_vec()), None);
    let too_big = format!("{}0", usize::MAX);
    assert_eq!(parse_decimal(&too_big.into_bytes()), None);
}
