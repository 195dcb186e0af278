use vstd::prelude::*;

use crate::cxxstring::NativeString;
use crate::dictionary::{nul_terminated, Dictionary};

verus! {

/// Inputs shorter than this are never looked up.
pub const MIN_LOOKUP_LEN: usize = 2;

/// What a hook hands on to the function it intercepts.
pub enum Forward<T> {
    /// The original arguments, exactly as received.
    Unchanged,
    /// A replacement for the intercepted string argument.
    Replaced(T),
}

/// The translation that the dictionary `d` gives for the input `s`: only an
/// exact match counts, and inputs shorter than `MIN_LOOKUP_LEN` are skipped.
/// A translation ends with a NUL byte.
pub open spec fn translation_of(d: Map<Seq<u8>, Seq<u8>>, s: Seq<u8>) -> Option<Seq<u8>> {
    if s.len() >= MIN_LOOKUP_LEN && d.contains_key(s) {
        Some(d[s])
    } else {
        None
    }
}

/// Inputs of zero or one byte are never looked up; a longer input gets the
/// dictionary's value exactly when it is a key, and nothing otherwise.
pub proof fn lemma_translation_of(d: Map<Seq<u8>, Seq<u8>>, s: Seq<u8>)
    ensures
        s.len() <= 1 ==> translation_of(d, s).is_none(),
        s.len() > 1 && d.contains_key(s) ==> translation_of(d, s) == Some(d[s]),
        !d.contains_key(s) ==> translation_of(d, s).is_none(),
{
}

/// Looks up the translation of `src`.
pub fn lookup<'a>(dict: &'a Dictionary, src: &[u8]) -> (r: Option<&'a Vec<u8>>)
    requires
        dict.wf(),
    ensures
        match r {
            Some(v) => translation_of(dict@, src@) == Some(v@) && nul_terminated(v@),
            None => translation_of(dict@, src@).is_none(),
        },
{
    if src.len() < MIN_LOOKUP_LEN {
        return None;
    }
    dict.get(src)
}

/// Body of a hook on a function taking a byte buffer and its length: the
/// replacement is the translation, NUL byte included, with the length of the
/// translation without it.
fn translate_counted<'a>(dict: &'a Dictionary, src: &[u8], size: usize) -> (r: Forward<
    (&'a [u8], usize),
>)
    requires
        dict.wf(),
        size <= src@.len(),
    ensures
        match r {
            Forward::Unchanged => translation_of(dict@, src@.take(size as int)).is_none(),
            Forward::Replaced((b, n)) => translation_of(dict@, src@.take(size as int)) == Some(
                b@,
            ) && nul_terminated(b@) && n == b@.len() - 1,
        },
{
    let input = slice_prefix(src, size);
    match lookup(dict, input.as_slice()) {
        Some(t) => Forward::Replaced((t.as_slice(), t.len() - 1)),
        None => Forward::Unchanged,
    }
}

/// The first `size` bytes of `src`.
fn slice_prefix(src: &[u8], size: usize) -> (r: Vec<u8>)
    requires
        size <= src@.len(),
    ensures
        r@ == src@.take(size as int),
{
    let mut out: Vec<u8> = Vec::new();
    let mut i: usize = 0;
    while i < size
        invariant
            i <= size,
            size <= src@.len(),
            out@ == src@.take(i as int),
        decreases size - i,
    {
        out.push(src[i]);
        i = i + 1;
        proof {
            assert(out@ =~= src@.take(i as int));
        }
    }
    out
}

/// Hook body for the host's copy of `size` bytes from `src` into a string.
pub fn string_copy_n<'a>(dict: &'a Dictionary, src: &[u8], size: usize) -> (r: Forward<
    (&'a [u8], usize),
>)
    requires
        dict.wf(),
        size <= src@.len(),
    ensures
        match r {
            Forward::Unchanged => translation_of(dict@, src@.take(size as int)).is_none(),
            Forward::Replaced((b, n)) => translation_of(dict@, src@.take(size as int)) == Some(
                b@,
            ) && nul_terminated(b@) && n == b@.len() - 1,
        },
{
    translate_counted(dict, src, size)
}

/// Hook body for the host's append of `size` bytes from `src` to a string.
pub fn string_append_n<'a>(dict: &'a Dictionary, src: &[u8], size: usize) -> (r: Forward<
    (&'a [u8], usize),
>)
    requires
        dict.wf(),
        size <= src@.len(),
    ensures
        match r {
            Forward::Unchanged => translation_of(dict@, src@.take(size as int)).is_none(),
            Forward::Replaced((b, n)) => translation_of(dict@, src@.take(size as int)) == Some(
                b@,
            ) && nul_terminated(b@) && n == b@.len() - 1,
        },
{
    translate_counted(dict, src, size)
}

/// Hook body for the host's append of the C string `src` (terminator
/// excluded): the replacement is the translation, itself a C string.
pub fn std_string_append<'a>(dict: &'a Dictionary, src: &[u8]) -> (r: Forward<&'a [u8]>)
    requires
        dict.wf(),
    ensures
        match r {
            Forward::Unchanged => translation_of(dict@, src@).is_none(),
            Forward::Replaced(b) => translation_of(dict@, src@) == Some(b@) && nul_terminated(b@),
        },
{
    match lookup(dict, src) {
        Some(t) => Forward::Replaced(t.as_slice()),
        None => Forward::Unchanged,
    }
}

/// Hook body for the host's assignment of the C string `src` (terminator
/// excluded): the replacement is the translation, itself a C string.
pub fn std_string_assign<'a>(dict: &'a Dictionary, src: &[u8]) -> (r: Forward<&'a [u8]>)
    requires
        dict.wf(),
    ensures
        match r {
            Forward::Unchanged => translation_of(dict@, src@).is_none(),
            Forward::Replaced(b) => translation_of(dict@, src@) == Some(b@) && nul_terminated(b@),
        },
{
    std_string_append(dict, src)
}

/// Whether `r` is what a hook on a native string forwards for `src`: a fresh
/// native string holding the translation without its NUL byte, or nothing
/// when there is no translation.
pub open spec fn forwards_native<S: NativeString>(
    d: Map<Seq<u8>, Seq<u8>>,
    src: Seq<u8>,
    r: Forward<S>,
) -> bool {
    match r {
        Forward::Unchanged => translation_of(d, src).is_none(),
        Forward::Replaced(s) => s.well_formed() && (translation_of(d, src) matches Some(t)
            && s.content() == t.drop_last()),
    }
}

/// Translates the text of a native string into a fresh native string.
fn translate_native<S: NativeString>(dict: &Dictionary, src: &S) -> (r: Forward<S>)
    requires
        dict.wf(),
        src.well_formed(),
    ensures
        forwards_native(dict@, src.content(), r),
{
    let text = src.content_bytes();
    match lookup(dict, text.as_slice()) {
        Some(t) => {
            let n = t.len() - 1;
            let s = S::from_bytes(t.as_slice(), n);
            proof {
                assert(t@.take(n as int) =~= t@.drop_last());
            }
            Forward::Replaced(s)
        },
        None => Forward::Unchanged,
    }
}

/// Hook body for the host's drawing of a native string.
pub fn addst<S: NativeString>(dict: &Dictionary, src: &S) -> (r: Forward<S>)
    requires
        dict.wf(),
        src.well_formed(),
    ensures
        forwards_native(dict@, src.content(), r),
{
    translate_native(dict, src)
}

/// Hook body for the host's drawing of a native string on the top layer.
pub fn addst_top<S: NativeString>(dict: &Dictionary, src: &S) -> (r: Forward<S>)
    requires
        dict.wf(),
        src.well_formed(),
    ensures
        forwards_native(dict@, src.content(), r),
{
    translate_native(dict, src)
}

/// Hook body for the host's drawing of a native string with flags.
pub fn addst_flag<S: NativeString>(dict: &Dictionary, src: &S) -> (r: Forward<S>)
    requires
        dict.wf(),
        src.well_formed(),
    ensures
        forwards_native(dict@, src.content(), r),
{
    translate_native(dict, src)
}

} // verus!
