use bindecode::text::{push_signed, push_unsigned};
use bindecode::value::ScalarValue;

fn text(value: ScalarValue) -> Option<String> {
    value.integer_text().map(|bytes| String::from_utf8(bytes).unwrap())
}

#[test]
fn unsigned_values_print_in_decimal() {
    assert_eq!(text(ScalarValue::U8(0)), Some("0".to_string()));
    assert_eq!(text(ScalarValue::U8(9)), Some("9".to_string()));
    assert_eq!(text(ScalarValue::U8(10)), Some("10".to_string()));
    assert_eq!(text(ScalarValue::U8(255)), Some("255".to_string()));
    assert_eq!(text(ScalarValue::U16(65535)), Some("65535".to_string()));
    assert_eq!(text(ScalarValue::U32(4_000_000_100)), Some("4000000100".to_string()));
    assert_eq!(text(ScalarValue::U64(u64::MAX)), Some("18446744073709551615".to_string()));
}

#[test]
fn signed_values_print_with_a_minus_sign() {
    assert_eq!(text(ScalarValue::I8(-128)), Some("-128".to_string()));
    assert_eq!(text(ScalarValue::I8(127)), Some("127".to_string()));
    assert_eq!(text(ScalarValue::I16(-1)), Some("-1".to_string()));
    assert_eq!(text(ScalarValue::I16(0)), Some("0".to_string()));
    assert_eq!(text(ScalarValue::I32(i32::MIN)), Some("-2147483648".to_string()));
    assert_eq!(text(ScalarValue::I64(i64::MIN)), Some("-9223372036854775808".to_string()));
    assert_eq!(text(ScalarValue::I64(i64::MAX)), Some("9223372036854775807".to_string()));
    assert_eq!(text(ScalarValue::I64(-1000)), Some("-1000".to_string()));
}

#[test]
fn floats_have_no_integer_text() {
    assert_eq!(text(ScalarValue::F32(1.0f32.to_bits())), None);
    assert_eq!(text(ScalarValue::F64(0)), None);
}

#[test]
fn integer_text_agrees_with_native_formatting() {
    let mut n: u64 = 1;
    for step in 0..64u32 {
        n = n.wrapping_mul(6364136223846793005).wrapping_add(step as u64 + 1442695040888963407);
        assert_eq!(text(ScalarValue::U64(n)), Some(format!("{}", n)));
        assert_eq!(text(ScalarValue::I64(n as i64)), Some(format!("{}", n as i64)));
        assert_eq!(text(ScalarValue::I32(n as i32)), Some(format!("{}", n as i32)));
        assert_eq!(text(ScalarValue::U16(n as u16)), Some(format!("{}", n as u16)));
    }
}

#[test]
fn digits_are_appended_to_what_is_there() {
    let mut out = b"x=".to_vec();
    push_unsigned(1203, &mut out);
    assert_eq!(out, b"x=1203".to_vec());
    push_signed(-45, &mut out);
    assert_eq!(out, b"x=1203-45".to_vec());
    push_signed(0, &mut out);
    assert_eq!(out, b"x=1203-450".to_vec());
}
