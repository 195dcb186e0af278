use dfint_hook::cxxstring::{gnu, msvc, DecodeError, NativeString};

fn sample(n: usize) -> Vec<u8> {
    (0..n).map(|i| b'a' + (i % 26) as u8).collect()
}

#[test]
fn gnu_round_trip_all_lengths() {
    for n in 0..=1024usize {
        let bytes = sample(n);
        let s = gnu::CxxString::new(&bytes, n);
        assert_eq!(s.size(), n);
        assert_eq!(s.to_bytes(), Ok(bytes.clone()));
        assert_eq!(s.inline_storage(), n < 16);
    }
}

#[test]
fn msvc_round_trip_all_lengths() {
    for n in 0..=1024usize {
        let bytes = sample(n);
        let s = msvc::CxxString::new(&bytes, n);
        assert_eq!(s.size(), n);
        assert_eq!(s.to_bytes(), Ok(bytes.clone()));
        assert_eq!(s.capa < 16, n < 16);
    }
}

#[test]
fn build_uses_prefix_only() {
    let s = gnu::CxxString::new(b"Bonjour\0", 7);
    assert_eq!(s.bytes(), b"Bonjour".to_vec());
    assert_eq!(s.buf[7], 0);
    let m = msvc::CxxString::new(b"Bonjour\0", 7);
    assert_eq!(m.bytes(), b"Bonjour".to_vec());
    assert_eq!(m.capa, 15);
}

#[test]
fn heap_layout_records_capacity() {
    let bytes = sample(20);
    let s = gnu::CxxString::new(&bytes, 20);
    assert_eq!(s.capa, 20);
    assert_eq!(s.ptr.len(), 21);
    assert_eq!(s.ptr[20], 0);
    let m = msvc::CxxString::new(&bytes, 20);
    assert_eq!(m.capa, 20);
    assert_eq!(m.ptr[20], 0);
}

#[test]
fn interior_nul_is_refused() {
    let s = gnu::CxxString::new(b"ab\0cd", 5);
    assert_eq!(s.to_bytes(), Err(DecodeError::InteriorNul));
    assert_eq!(s.to_str(), Err(DecodeError::InteriorNul));
    let m = msvc::CxxString::new(b"ab\0cd", 5);
    assert_eq!(m.to_str(), Err(DecodeError::InteriorNul));
}

#[test]
fn to_str_decodes_utf8() {
    let s = gnu::CxxString::new("héllo".as_bytes(), 6);
    assert_eq!(s.to_str(), Ok(String::from("héllo")));
    let bad = gnu::CxxString::new(&[0xff, 0xfe, 0x41], 3);
    assert_eq!(bad.to_str(), Err(DecodeError::InvalidUtf8));
    let m = msvc::CxxString::new(&[0xc3], 1);
    assert_eq!(m.to_str(), Err(DecodeError::InvalidUtf8));
}

fn check_gnu_resizes(sizes: &[usize]) {
    let mut s = gnu::CxxString::new(b"hello", 5);
    let mut model: Vec<u8> = b"hello".to_vec();
    for &n in sizes {
        s.resize(n);
        model.resize(n, 0);
        assert_eq!(s.size(), n);
        assert_eq!(s.bytes(), model);
        assert!(s.size() <= s.capacity_size());
        assert_eq!(s.terminated()[n], 0);
    }
}

fn check_msvc_resizes(sizes: &[usize]) {
    let mut s = msvc::CxxString::new(b"hello", 5);
    let mut model: Vec<u8> = b"hello".to_vec();
    for &n in sizes {
        s.resize(n);
        model.resize(n, 0);
        assert_eq!(s.size(), n);
        assert_eq!(s.bytes(), model);
        assert!(s.size() <= s.capacity_size());
        assert_eq!(s.terminated()[n], 0);
    }
}

#[test]
fn resize_sequences_keep_prefix_and_capacity() {
    let seqs: [&[usize]; 4] = [
        &[3, 15, 16, 40, 100, 17, 2, 0, 64],
        &[200, 10, 1000, 33, 32, 48, 49],
        &[16, 31, 32, 33, 15, 16],
        &[0, 0, 1, 1024, 512, 5],
    ];
    for sizes in seqs.iter() {
        check_gnu_resizes(sizes);
        check_msvc_resizes(sizes);
    }
}

#[test]
fn growth_uses_fixed_steps() {
    let mut s = gnu::CxxString::new(b"hello", 5);
    s.resize(16);
    assert_eq!(s.capa, 32);
    s.resize(33);
    assert_eq!(s.capa, 48);
    s.resize(100);
    assert_eq!(s.capa, 112);
    let mut m = msvc::CxxString::new(b"hello", 5);
    m.resize(40);
    assert_eq!(m.capa, 48);
    m.resize(3);
    assert_eq!(m.capa, 48);
    assert_eq!(m.bytes(), b"hel".to_vec());
}

#[test]
fn gnu_shrink_back_to_inline() {
    let bytes = sample(30);
    let mut s = gnu::CxxString::new(&bytes, 30);
    s.resize(4);
    assert_eq!(s.bytes(), bytes[..4].to_vec());
    assert_eq!(s.buf[4], 0);
}

#[test]
fn push_and_pop() {
    let mut s = gnu::CxxString::new(b"abc", 3);
    for i in 0..20u8 {
        s.push_back(b'A' + i);
    }
    assert_eq!(s.size(), 23);
    assert_eq!(s.get(3), b'A');
    assert_eq!(s.get(22), b'T');
    s.pop_back();
    assert_eq!(s.size(), 22);
    assert_eq!(s.get(21), b'S');
    let mut m = msvc::CxxString::new(b"", 0);
    m.push_back(b'x');
    m.push_back(b'y');
    m.pop_back();
    assert_eq!(m.bytes(), b"x".to_vec());
}

#[test]
fn set_changes_one_byte() {
    let mut s = msvc::CxxString::new(b"hello world, long", 17);
    s.set(0, b'H');
    assert_eq!(s.bytes(), b"Hello world, long".to_vec());
    let mut g = gnu::CxxString::new(b"hi", 2);
    NativeString::set_byte(&mut g, 1, b'o');
    assert_eq!(NativeString::content_bytes(&g), b"ho".to_vec());
    assert_eq!(NativeString::length(&g), 2);
}
