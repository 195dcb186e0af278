use dfint_hook::encoding::{
    byte_of, parse_decimal, replace_transition, shift_transition, split_chars, str_to_array,
    utf_transition, Encoding, EncodingError,
};

fn chars(s: &str) -> Vec<char> {
    s.chars().collect()
}

fn entries(list: &[(&str, Option<i64>)]) -> Vec<(Vec<char>, Option<i64>)> {
    list.iter().map(|(k, v)| (chars(k), *v)).collect()
}

#[test]
fn decimal_numbers() {
    assert_eq!(parse_decimal(&chars("0"), 255), Some(0));
    assert_eq!(parse_decimal(&chars("255"), 255), Some(255));
    assert_eq!(parse_decimal(&chars("256"), 255), None);
    assert_eq!(parse_decimal(&chars("+7"), 255), Some(7));
    assert_eq!(parse_decimal(&chars("+"), 255), None);
    assert_eq!(parse_decimal(&chars(""), 255), None);
    assert_eq!(parse_decimal(&chars("-1"), 255), None);
    assert_eq!(parse_decimal(&chars("1a"), 255), None);
    assert_eq!(parse_decimal(&chars("4294967295"), u32::MAX), Some(u32::MAX));
    assert_eq!(parse_decimal(&chars("4294967296"), u32::MAX), None);
    assert_eq!(parse_decimal(&chars("99999999999999999999"), u32::MAX), None);
}

#[test]
fn key_forms() {
    assert_eq!(str_to_array(&chars("65:70")), Ok(vec![65, 66, 67, 68, 69, 70]));
    assert_eq!(str_to_array(&chars("70:65")), Ok(vec![]));
    assert_eq!(str_to_array(&chars("1|2|200")), Ok(vec![1, 2, 200]));
    assert_eq!(str_to_array(&chars("42")), Ok(vec![42]));
    assert_eq!(str_to_array(&chars("300")), Err(EncodingError::BadKey));
    assert_eq!(str_to_array(&chars("1|x")), Err(EncodingError::BadKey));
    assert_eq!(str_to_array(&chars("1:2:3")), Ok(vec![1, 2]));
    assert_eq!(str_to_array(&chars("a:2")), Err(EncodingError::BadKey));
}

#[test]
fn split_like_str_split() {
    let parts = split_chars(&chars("a||b|"), '|');
    assert_eq!(parts, vec![chars("a"), chars(""), chars("b"), chars("")]);
}

#[test]
fn integer_casts_wrap() {
    assert_eq!(byte_of(0), 0);
    assert_eq!(byte_of(255), 255);
    assert_eq!(byte_of(256), 0);
    assert_eq!(byte_of(-32), 224);
    assert_eq!(byte_of(-1), 255);
    assert_eq!(byte_of(i64::MIN), 0);
    assert_eq!(byte_of(i64::MAX), 255);
}

#[test]
fn shift_and_replace() {
    let shifted = shift_transition(&entries(&[("97:99", Some(-32)), ("97", Some(1))]), None).unwrap();
    assert_eq!(shifted[97], 66);
    assert_eq!(shifted[98], 66);
    assert_eq!(shifted[99], 67);
    assert_eq!(shifted[100], 100);
    let replaced = replace_transition(&entries(&[("1|2", Some(9))]), Some(shifted)).unwrap();
    assert_eq!(replaced[1], 9);
    assert_eq!(replaced[2], 9);
    assert_eq!(replaced[97], 66);
    assert_eq!(
        shift_transition(&entries(&[("5", None)]), None),
        Err(EncodingError::NotInteger)
    );
    assert_eq!(shift_transition(&entries(&[("9:1", None)]), None).map(|t| t[5]), Ok(5));
    assert_eq!(
        replace_transition(&entries(&[("x", Some(1))]), None),
        Err(EncodingError::BadKey)
    );
}

#[test]
fn utf_map_entries() {
    let m = utf_transition(&entries(&[("1041", Some(193)), ("1072", Some(480))])).unwrap();
    assert_eq!(m.get(&1041), Some(&193));
    assert_eq!(m.get(&1072), Some(&224));
    assert_eq!(m.len(), 2);
    assert_eq!(
        utf_transition(&entries(&[("abc", Some(1))])).map(|m| m.len()),
        Err(EncodingError::BadKey)
    );
    assert_eq!(
        utf_transition(&entries(&[("1", None)])).map(|m| m.len()),
        Err(EncodingError::NotInteger)
    );
}

const DOC: &str = r#"
[maps.capitalize]
"97:122" = -32
[maps.lowercast]
"65:90" = 32
[maps.simplify]
"233" = 101
[maps.uppercase]
[maps.lowercase]
[maps.utf]
"1072" = 224
"#;

#[test]
fn parse_full_document() {
    let e = Encoding::parse_encodings(DOC).unwrap();
    assert!(e.parsed);
    assert_eq!(e.capitalize[b'a' as usize], b'A');
    assert_eq!(e.lowercast[b'A' as usize], b'a');
    assert_eq!(e.simplify[233], 101);
    assert_eq!(e.simplify[b'B' as usize], b'b');
    assert_eq!(e.uppercase[b'z' as usize], b'Z');
    assert_eq!(e.lowercase[b'Z' as usize], b'z');
    assert_eq!(e.utf.get(&1072), Some(&224));
}

#[test]
fn missing_or_bad_document_gives_identity() {
    let missing = Encoding::parse_encodings("[maps.capitalize]\n");
    assert_eq!(missing.err(), Some(EncodingError::MissingTable));
    let not_toml = Encoding::parse_encodings("this is = = not toml");
    assert_eq!(not_toml.err(), Some(EncodingError::MissingTable));
    let e = Encoding::new(Some("nonsense"));
    assert!(!e.parsed);
    assert_eq!(e.capitalize[b'a' as usize], b'a');
    let none = Encoding::new(None);
    assert!(!none.parsed);
    assert!(none.utf.is_empty());
    let d = Encoding::default();
    assert_eq!(d.lowercase.len(), 256);
    assert_eq!(d.simplify[200], 200);
}
