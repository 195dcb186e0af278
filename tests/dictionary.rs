use dfint_hook::dictionary::Dictionary;

const CSV: &[u8] = b"\"Hello\",\"Bonjour\"\n\"Say \"\"hi\"\"\",\"Dis \"\"salut\"\"\"\n\"Hello\",\"Salut\"\nnot a record\n\"a\",\"b\"\n";

#[test]
fn load_reads_records() {
    let d = Dictionary::load("dictionary.csv", CSV).unwrap();
    assert_eq!(d.size(), 3);
    assert_eq!(d.get(b"Hello"), Some(&b"Salut\0".to_vec()));
    assert_eq!(d.get(b"Say \"hi\""), Some(&b"Dis \"salut\"\0".to_vec()));
    assert_eq!(d.get(b"a"), Some(&b"b\0".to_vec()));
    assert_eq!(d.get(b"Goodbye"), None);
    assert_eq!(d.path(), "dictionary.csv");
}

#[test]
fn new_without_file_is_empty() {
    let d = Dictionary::new("missing.csv", None);
    assert_eq!(d.size(), 0);
    assert_eq!(d.get(b"Hello"), None);
    let e = Dictionary::new("empty.csv", Some(b"".as_slice()));
    assert_eq!(e.size(), 0);
}

#[test]
fn new_with_contents_loads() {
    let d = Dictionary::new("d.csv", Some(b"\"Hello\",\"Bonjour\"".as_slice()));
    assert_eq!(d.size(), 1);
    assert_eq!(d.get(b"Hello"), Some(&b"Bonjour\0".to_vec()));
}

#[test]
fn reload_replaces_everything() {
    let mut d = Dictionary::new("d.csv", Some(CSV));
    assert_eq!(d.reload(b"\"x\",\"y\"\n"), Ok(()));
    assert_eq!(d.size(), 1);
    assert_eq!(d.get(b"Hello"), None);
    assert_eq!(d.get(b"x"), Some(&b"y\0".to_vec()));
}

#[test]
fn unquote_collapses_quote_runs() {
    assert_eq!(dfint_hook::dictionary::unquote_field(b"a\"\"b\"\"\"c"), b"a\"b\"c".to_vec());
    assert_eq!(dfint_hook::dictionary::unquote_field(b""), Vec::<u8>::new());
}

#[test]
fn bytes_equal_compares() {
    assert!(dfint_hook::dictionary::bytes_equal(b"abc", b"abc"));
    assert!(!dfint_hook::dictionary::bytes_equal(b"abc", b"abd"));
    assert!(!dfint_hook::dictionary::bytes_equal(b"abc", b"ab"));
}
