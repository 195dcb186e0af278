use dfint_hook::cxxstring::{gnu, msvc, NativeString};
use dfint_hook::dictionary::Dictionary;
use dfint_hook::translation::{
    addst, addst_flag, addst_top, lookup, std_string_append, std_string_assign, string_append_n,
    string_copy_n, Forward,
};

fn dict() -> Dictionary {
    Dictionary::new(
        "dictionary.csv",
        Some(b"\"Hello\",\"Bonjour\"\n\"A long sentence to translate\",\"Une longue phrase a traduire\"\n\"x\",\"y\"\n".as_slice()),
    )
}

#[test]
fn copy_hook_forwards_translation() {
    let d = dict();
    match string_copy_n(&d, b"Hello", 5) {
        Forward::Replaced((bytes, len)) => {
            assert_eq!(bytes, b"Bonjour\0");
            assert_eq!(len, 7);
            assert_eq!(bytes[len], 0);
        }
        Forward::Unchanged => panic!("expected a translation"),
    }
}

#[test]
fn copy_hook_forwards_missing_key_unchanged() {
    let d = dict();
    assert!(matches!(string_copy_n(&d, b"Goodbye", 7), Forward::Unchanged));
    assert!(matches!(string_append_n(&d, b"Goodbye", 7), Forward::Unchanged));
}

#[test]
fn copy_hook_uses_only_size_bytes() {
    let d = dict();
    assert!(matches!(string_copy_n(&d, b"Hello world", 5), Forward::Replaced(_)));
    assert!(matches!(string_append_n(&d, b"Hello", 4), Forward::Unchanged));
}

#[test]
fn short_inputs_bypass_lookup() {
    let d = dict();
    assert!(lookup(&d, b"x").is_none());
    assert!(lookup(&d, b"").is_none());
    assert!(matches!(string_copy_n(&d, b"x", 1), Forward::Unchanged));
    assert!(matches!(std_string_append(&d, b"x"), Forward::Unchanged));
    assert_eq!(lookup(&d, b"Hello"), Some(&b"Bonjour\0".to_vec()));
}

#[test]
fn c_string_hooks_forward_terminated_translation() {
    let d = dict();
    match std_string_assign(&d, b"Hello") {
        Forward::Replaced(b) => assert_eq!(b, b"Bonjour\0"),
        Forward::Unchanged => panic!("expected a translation"),
    }
    assert!(matches!(std_string_append(&d, b"Nope"), Forward::Unchanged));
}

#[test]
fn native_hooks_build_replacement_strings() {
    let d = dict();
    let src = gnu::CxxString::new(b"Hello", 5);
    match addst(&d, &src) {
        Forward::Replaced(s) => {
            assert_eq!(s.bytes(), b"Bonjour".to_vec());
            assert!(s.inline_storage());
        }
        Forward::Unchanged => panic!("expected a translation"),
    }
    let long = msvc::CxxString::new(b"A long sentence to translate", 28);
    match addst_top(&d, &long) {
        Forward::Replaced(s) => {
            assert_eq!(s.bytes(), b"Une longue phrase a traduire".to_vec());
            assert!(!s.inline_storage());
            assert_eq!(NativeString::length(&s), 28);
        }
        Forward::Unchanged => panic!("expected a translation"),
    }
    let other = gnu::CxxString::new(b"Goodbye", 7);
    assert!(matches!(addst_flag(&d, &other), Forward::Unchanged));
}
