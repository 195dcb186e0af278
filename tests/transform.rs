use dfint_hook::cxxstring::gnu::CxxString;
use dfint_hook::encoding::Encoding;
use dfint_hook::transform::{
    capitalize, capitalize_string_first_word, capitalize_string_words, lower_case_string,
    lowercast, simplify_string, standardstringentry, upper_case_string,
};

const DOC: &str = r#"
[maps.capitalize]
"97:122" = -32
[maps.lowercast]
"65:90" = 32
[maps.simplify]
"233" = 101
"224|226" = 97
[maps.uppercase]
"39" = 39
[maps.lowercase]
"32" = 32
[maps.utf]
"1041" = 193
"1072" = 224
"#;

fn enc() -> Encoding {
    Encoding::new(Some(DOC))
}

fn text(s: &[u8]) -> CxxString {
    CxxString::new(s, s.len())
}

#[test]
fn simplify_upper_lower() {
    let e = enc();
    let mut s = text(&[b'C', 233, b'a', 224, 226, b'Z']);
    simplify_string(&e, &mut s);
    assert_eq!(s.bytes(), b"ceaaaz".to_vec());
    let mut u = text(b"Hello, World!");
    upper_case_string(&e, &mut u);
    assert_eq!(u.bytes(), b"HELLO, WORLD!".to_vec());
    lower_case_string(&e, &mut u);
    assert_eq!(u.bytes(), b"hello, world!".to_vec());
}

#[test]
fn capitalize_every_word() {
    let e = enc();
    let mut s = text(b"the dwarf \"urist\" said 'hello, 'world");
    capitalize_string_words(&e, &mut s);
    assert_eq!(s.bytes(), b"The Dwarf \"Urist\" Said 'Hello, 'World".to_vec());
}

#[test]
fn capitalize_words_skips_brackets() {
    let e = enc();
    let mut s = text(b"a [b [c d] e] f");
    capitalize_string_words(&e, &mut s);
    assert_eq!(s.bytes(), b"A [b [c d] e] F".to_vec());
}

#[test]
fn capitalize_words_after_unbalanced_close() {
    let e = enc();
    let mut s = text(b"a] b");
    capitalize_string_words(&e, &mut s);
    assert_eq!(s.bytes(), b"A] B".to_vec());
}

#[test]
fn capitalize_first_word_only() {
    let e = enc();
    let mut s = text(b"the dwarf said");
    capitalize_string_first_word(&e, &mut s);
    assert_eq!(s.bytes(), b"The dwarf said".to_vec());
    let mut q = text(b" \"x y");
    capitalize_string_first_word(&e, &mut q);
    assert_eq!(q.bytes(), b" \"X y".to_vec());
    let mut b = text(b"[tag] word more");
    capitalize_string_first_word(&e, &mut b);
    assert_eq!(b.bytes(), b"[tag] Word more".to_vec());
}

#[test]
fn single_byte_maps() {
    let e = enc();
    assert_eq!(capitalize(&e, b'q'), b'Q');
    assert_eq!(capitalize(&e, b'Q'), b'Q');
    assert_eq!(lowercast(&e, b'Q'), b'q');
}

#[test]
fn keystrokes_are_remapped() {
    let e = enc();
    let mut codes: Vec<u32> = vec![1041, 1072, 65, 122, 5000, 0, 0, 0];
    standardstringentry(&e, &mut codes, 0);
    assert_eq!(codes, vec![193, 224, 65, 122, 5000, 0, 0, 0]);
    let mut caps: Vec<u32> = vec![1072, 97, 0, 0, 0, 0, 0, 0];
    standardstringentry(&e, &mut caps, 8 | 1);
    assert_eq!(caps, vec![224, 97, 0, 0, 0, 0, 0, 0]);
}
