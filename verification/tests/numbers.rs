use configset::number::{parse_bool, parse_int, parse_ulong, TypeError};

#[test]
fn parse_int_plain() {
    assert_eq!(parse_int(b"0"), Ok(0));
    assert_eq!(parse_int(b"42"), Ok(42));
    assert_eq!(parse_int(b"+5"), Ok(5));
    assert_eq!(parse_int(b"-5"), Ok(-5));
    assert_eq!(parse_int(b"007"), Ok(7));
    assert_eq!(parse_int(b"-0"), Ok(0));
}

#[test]
fn parse_int_units() {
    assert_eq!(parse_int(b"1k"), Ok(1024));
    assert_eq!(parse_int(b"1K"), Ok(1024));
    assert_eq!(parse_int(b"3m"), Ok(3145728));
    assert_eq!(parse_int(b"3M"), Ok(3145728));
    assert_eq!(parse_int(b"1g"), Ok(1073741824));
    assert_eq!(parse_int(b"1G"), Ok(1073741824));
    assert_eq!(parse_int(b"-1g"), Ok(-1073741824));
    assert_eq!(parse_int(b"0g"), Ok(0));
}

#[test]
fn parse_int_bounds() {
    assert_eq!(parse_int(b"2147483647"), Ok(2147483647));
    assert_eq!(parse_int(b"2147483648"), Err(TypeError::Overflow));
    assert_eq!(parse_int(b"-2147483648"), Ok(-2147483648));
    assert_eq!(parse_int(b"-2147483649"), Err(TypeError::Overflow));
    assert_eq!(parse_int(b"2g"), Err(TypeError::Overflow));
    assert_eq!(parse_int(b"-2g"), Ok(-2147483648));
    assert_eq!(parse_int(b"2097152k"), Err(TypeError::Overflow));
    assert_eq!(parse_int(b"2097151k"), Ok(2147482624));
    assert_eq!(parse_int(b"4294967296"), Err(TypeError::Overflow));
    assert_eq!(parse_int(b"99999999999999999999999999"), Err(TypeError::Overflow));
    assert_eq!(parse_int(b"-99999999999999999999999999k"), Err(TypeError::Overflow));
}

#[test]
fn parse_int_refuses_what_is_no_number() {
    for text in [
        &b""[..], b"k", b"-", b"+", b"-k", b"1kk", b"k1", b"1 k", b" 1", b"1 ", b"1.5", b"0x10",
        b"--1", b"+-1", b"1-", b"ten", b"1t", b"12x",
    ] {
        assert_eq!(parse_int(text), Err(TypeError::NotInteger), "{:?}", text);
    }
    // What is no number is refused before any range is asked.
    assert_eq!(parse_int(b"99999999999999999999999999x"), Err(TypeError::NotInteger));
}

#[test]
fn parse_ulong_values() {
    assert_eq!(parse_ulong(b"0"), Ok(0));
    assert_eq!(parse_ulong(b"42"), Ok(42));
    assert_eq!(parse_ulong(b"+42"), Ok(42));
    assert_eq!(parse_ulong(b"4294967296"), Ok(4294967296));
    assert_eq!(parse_ulong(b"16g"), Ok(17179869184));
    assert_eq!(parse_ulong(b"18446744073709551615"), Ok(18446744073709551615));
    assert_eq!(parse_ulong(b"18446744073709551616"), Err(TypeError::Overflow));
    assert_eq!(parse_ulong(b"17179869183g"), Ok(18446744072635809792));
    assert_eq!(parse_ulong(b"17179869184g"), Err(TypeError::Overflow));
    assert_eq!(parse_ulong(b"18014398509481984k"), Err(TypeError::Overflow));
    assert_eq!(parse_ulong(b"184467440737095516150"), Err(TypeError::Overflow));
}

#[test]
fn parse_ulong_refusals() {
    assert_eq!(parse_ulong(b"-1"), Err(TypeError::Negative));
    assert_eq!(parse_ulong(b"-0"), Err(TypeError::Negative));
    assert_eq!(parse_ulong(b"-99999999999999999999999999"), Err(TypeError::Negative));
    assert_eq!(parse_ulong(b""), Err(TypeError::NotInteger));
    assert_eq!(parse_ulong(b"-"), Err(TypeError::NotInteger));
    assert_eq!(parse_ulong(b"-x"), Err(TypeError::NotInteger));
    assert_eq!(parse_ulong(b"1e3"), Err(TypeError::NotInteger));
}

#[test]
fn parse_bool_words() {
    for text in [&b"true"[..], b"yes", b"on", b"TRUE", b"True", b"YES", b"On", b"oN"] {
        assert_eq!(parse_bool(text), Ok(true), "{:?}", text);
    }
    for text in [&b"false"[..], b"no", b"off", b"FALSE", b"False", b"NO", b"Off", b"oFF"] {
        assert_eq!(parse_bool(text), Ok(false), "{:?}", text);
    }
}

#[test]
fn parse_bool_numbers() {
    assert_eq!(parse_bool(b"1"), Ok(true));
    assert_eq!(parse_bool(b"100"), Ok(true));
    assert_eq!(parse_bool(b"-3"), Ok(true));
    assert_eq!(parse_bool(b"2k"), Ok(true));
    assert_eq!(parse_bool(b"0"), Ok(false));
    assert_eq!(parse_bool(b"00"), Ok(false));
    assert_eq!(parse_bool(b"+0"), Ok(false));
    assert_eq!(parse_bool(b"-0"), Ok(false));
    assert_eq!(parse_bool(b"0m"), Ok(false));
}

#[test]
fn parse_bool_refuses_everything_else() {
    for text in [
        &b""[..], b"t", b"f", b"y", b"n", b"tru", b"truee", b"yess", b"o", b"of", b"offf",
        b"maybe", b" true", b"true ", b"1x", b"4294967296", b"2g",
    ] {
        assert_eq!(parse_bool(text), Err(TypeError::NotBoolean), "{:?}", text);
    }
}
