use senec_v3_collector::decode::{decode_numeric_values, decode_token, typed_tokens, RawNumber};

fn as_f64(n: &RawNumber) -> f64 {
    match n {
        RawNumber::Float(bits) => f32::from_bits(*bits) as f64,
        RawNumber::Unsigned(v) => *v as f64,
        RawNumber::Signed(v) => *v as f64,
    }
}

fn decoded(raw: &str) -> Vec<f64> {
    decode_numeric_values(raw).iter().map(as_f64).collect()
}

#[test]
fn decodes_float() {
    let values = decoded("fl_3F800000");
    assert_eq!(values, vec![1.0]);
}

#[test]
fn decodes_unsigned_values() {
    let values = decoded("u8_0A u1_0010 u3_000000FF u6_0000000000000001");
    assert_eq!(values, vec![10.0, 16.0, 255.0, 1.0]);
}

#[test]
fn decodes_signed_values() {
    let values = decoded("i1_FFFF i3_FFFFFFFE i8_FF");
    assert_eq!(values, vec![-1.0, -2.0, -1.0]);
}

#[test]
fn ignores_non_numeric_tokens() {
    let values = decoded("st_text FORBIDDEN");
    assert!(values.is_empty());
}

#[test]
fn decodes_array_encoded_tokens() {
    let values = decoded("[\"fl_3F800000\",\"u1_0002\",\"i1_FFFF\"]");
    assert_eq!(values, vec![1.0, 2.0, -1.0]);
}

#[test]
fn splits_tokens_at_separators() {
    let tokens = typed_tokens(" [\"fl_41C80000\",\n\"u1_0002\"]\t i3_FFFFFFF6 ");
    assert_eq!(tokens, vec!["fl_41C80000", "u1_0002", "i3_FFFFFFF6"]);
    assert!(typed_tokens("").is_empty());
    assert!(typed_tokens(" \u{00A0}[],\"\u{3000}").is_empty());
    assert_eq!(typed_tokens("a\u{2003}b"), vec!["a", "b"]);
}

#[test]
fn decodes_the_readme_examples() {
    assert_eq!(decoded("fl_41C80000"), vec![25.0]);
    assert_eq!(decoded("i3_FFFFFFF6"), vec![-10.0]);
}

#[test]
fn reads_digits_as_from_str_radix_does() {
    assert_eq!(decode_token("u1_+ff"), Some(RawNumber::Unsigned(255)));
    assert_eq!(decode_token("u1_aBc"), Some(RawNumber::Unsigned(0xabc)));
    assert_eq!(decode_token("u1_-1"), None);
    assert_eq!(decode_token("u1_"), None);
    assert_eq!(decode_token("u1_+"), None);
    assert_eq!(decode_token("u1_0x10"), None);
    assert_eq!(decode_token("u6_FFFFFFFFFFFFFFFF"), Some(RawNumber::Unsigned(u64::MAX)));
    assert_eq!(decode_token("u6_10000000000000000"), None);
    assert_eq!(decode_token("u8_00000000000000000000000000000000001"), Some(RawNumber::Unsigned(1)));
    assert_eq!(decode_token("fl_FFFFFFFF"), Some(RawNumber::Float(u32::MAX)));
    assert_eq!(decode_token("fl_100000000"), None);
    assert_eq!(decode_token("i1_-5"), Some(RawNumber::Signed(-65541)));
    assert_eq!(decode_token("i1_7FFF"), Some(RawNumber::Signed(32767)));
    assert_eq!(decode_token("i1_8000"), Some(RawNumber::Signed(-32768)));
    assert_eq!(decode_token("i8_7F"), Some(RawNumber::Signed(127)));
    assert_eq!(decode_token("i8_80"), Some(RawNumber::Signed(-128)));
    assert_eq!(decode_token("i3_80000000"), Some(RawNumber::Signed(-2147483648)));
    assert_eq!(decode_token("i1_1FFFF"), Some(RawNumber::Signed(131071 - 65536)));
    assert_eq!(decode_token("i1_-"), None);
}

#[test]
fn takes_the_type_from_before_the_first_underscore() {
    assert_eq!(decode_token("u1_00_1"), None);
    assert_eq!(decode_token("U1_0001"), None);
    assert_eq!(decode_token("x_0001"), None);
    assert_eq!(decode_token("u1"), None);
    assert_eq!(decode_token("st_text"), None);
    assert_eq!(decode_token("u3_10"), Some(RawNumber::Unsigned(16)));
}

#[test]
fn decodes_the_list_of_two_texts_as_both_lists() {
    let a = "u1_0001,i8_FF";
    let b = "fl_3F800000 nope";
    let joined = format!("{a},{b}");
    let mut expected = decode_numeric_values(a);
    expected.extend(decode_numeric_values(b));
    assert_eq!(decode_numeric_values(&joined), expected);
}

#[test]
fn decodes_signed_values_of_extreme_magnitude_like_a_release_build() {
    // The smallest i128 that still has bit 15 set.
    let v = decode_token("i1_-7FFFFFFFFFFFFFFFFFFFFFFFFFFF8000");
    let raw: i128 = -0x7FFF_FFFF_FFFF_FFFF_FFFF_FFFF_FFFF_8000;
    assert_eq!(v, Some(RawNumber::Signed(raw.wrapping_sub(0x1_0000))));
    assert_eq!(decode_token("i1_-80000000000000000000000000000000"), Some(RawNumber::Signed(i128::MIN)));
    assert_eq!(decode_token("i1_80000000000000000000000000000000"), None);
}
