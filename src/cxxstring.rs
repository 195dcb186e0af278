use vstd::prelude::*;

pub mod gnu;
pub mod msvc;

verus! {

/// Strings shorter than this are stored inside the string header itself.
pub const INLINE_SIZE: usize = 16;

/// Step by which a heap buffer grows when it must be reallocated.
pub const GROWTH_STEP: usize = 16;

/// Capacity given to a buffer when a string first moves from inline to heap storage.
pub const FIRST_HEAP_CAPACITY: usize = 32;

/// Why the bytes of a native string could not be read as text.
#[derive(Debug, Clone, Copy, PartialEq, Eq, Structural)]
pub enum DecodeError {
    /// A NUL byte occurs before the terminator.
    InteriorNul,
    /// The bytes are not valid UTF-8.
    InvalidUtf8,
}

/// Sequence of `n` zero bytes.
pub open spec fn zeros(n: nat) -> Seq<u8> {
    Seq::new(n, |i: int| 0u8)
}

/// Content of a string after it is resized to `n` bytes: a prefix is kept,
/// new bytes are zero.
pub open spec fn resized(s: Seq<u8>, n: nat) -> Seq<u8> {
    if n <= s.len() {
        s.take(n as int)
    } else {
        s + zeros((n - s.len()) as nat)
    }
}

/// Smallest capacity reached from `c` in steps of `GROWTH_STEP` that holds `n` bytes.
pub open spec fn grown_capacity(c: nat, n: nat) -> nat
    decreases n + GROWTH_STEP - c,
{
    if n <= c {
        c
    } else {
        grown_capacity(c + GROWTH_STEP as nat, n)
    }
}

pub proof fn lemma_grown_capacity(c: nat, n: nat)
    ensures
        n <= grown_capacity(c, n),
        c <= grown_capacity(c, n),
        grown_capacity(c, n) < c + GROWTH_STEP || grown_capacity(c, n) < n + GROWTH_STEP,
    decreases n + GROWTH_STEP - c,
{
    if n > c {
        lemma_grown_capacity(c + GROWTH_STEP as nat, n);
    }
}

/// Grows capacity `c` by fixed steps until it holds `n` bytes.
pub fn grow_capacity(c: usize, n: usize) -> (r: usize)
    requires
        n <= usize::MAX - 2 * GROWTH_STEP,
    ensures
        r == grown_capacity(c as nat, n as nat),
        n <= r,
        c <= r,
        r <= c || r < n + GROWTH_STEP,
{
    proof {
        lemma_grown_capacity(c as nat, n as nat);
    }
    let mut r: usize = c;
    while r < n
        invariant
            c <= r,
            r < n + GROWTH_STEP || r == c,
            grown_capacity(r as nat, n as nat) == grown_capacity(c as nat, n as nat),
            n <= usize::MAX - 2 * GROWTH_STEP,
        decreases n + GROWTH_STEP - r,
    {
        r = r + GROWTH_STEP;
    }
    r
}

/// Whether `b` holds no NUL byte.
pub open spec fn nul_free(b: Seq<u8>) -> bool {
    forall|i: int| 0 <= i < b.len() ==> b[i] != 0
}

/// The text read back as a C string body: the bytes themselves, or an error
/// where they hold a NUL byte.
pub open spec fn c_text(b: Seq<u8>) -> Result<Seq<u8>, DecodeError> {
    if nul_free(b) {
        Ok(b)
    } else {
        Err(DecodeError::InteriorNul)
    }
}

/// Building a string from all of `bytes` (its text is then `bytes`, in either
/// layout) and reading the text back as a C string body gives `bytes` again,
/// whenever they hold no NUL byte.
pub proof fn lemma_build_read_round_trip(bytes: Seq<u8>)
    requires
        nul_free(bytes),
    ensures
        c_text(bytes.take(bytes.len() as int)) == Ok::<Seq<u8>, DecodeError>(bytes),
{
    assert(bytes.take(bytes.len() as int) =~= bytes);
}

/// A resize to `n` bytes keeps the bytes below both the old and the new
/// length, and leaves exactly `n` bytes.
pub proof fn lemma_resize_keeps_prefix(s: Seq<u8>, n: nat)
    ensures
        resized(s, n).len() == n,
        forall|i: int| 0 <= i < s.len() && i < n ==> #[trigger] resized(s, n)[i] == s[i],
{
}

/// Byte strings as the host lays them out in memory, read and written in
/// place.
pub trait NativeString: Sized {
    /// The layout invariant of the string.
    spec fn well_formed(&self) -> bool;

    /// The text, terminator excluded.
    spec fn content(&self) -> Seq<u8>;

    /// Builds a string from the first `size` bytes of `src`.
    fn from_bytes(src: &[u8], size: usize) -> (r: Self)
        requires
            size <= src@.len(),
            size < usize::MAX,
        ensures
            r.well_formed(),
            r.content() == src@.take(size as int),
    ;

    fn length(&self) -> (r: usize)
        requires
            self.well_formed(),
        ensures
            r == self.content().len(),
    ;

    fn byte(&self, i: usize) -> (r: u8)
        requires
            self.well_formed(),
            i < self.content().len(),
        ensures
            r == self.content()[i as int],
    ;

    fn set_byte(&mut self, i: usize, v: u8)
        requires
            old(self).well_formed(),
            i < old(self).content().len(),
        ensures
            final(self).well_formed(),
            final(self).content() == old(self).content().update(i as int, v),
    ;

    fn content_bytes(&self) -> (r: Vec<u8>)
        requires
            self.well_formed(),
        ensures
            r@ == self.content(),
    ;
}

/// What UTF-8 decoding makes of a byte sequence, or `None` where it is not valid UTF-8.
pub uninterp spec fn utf8_text(b: Seq<u8>) -> Option<Seq<char>>;

/// Relies on `String::from_utf8`: it succeeds exactly on valid UTF-8 and then
/// holds the decoded characters.
#[verifier::external_body]
fn decode_utf8(b: Vec<u8>) -> (r: Option<String>)
    ensures
        match r {
            Some(s) => utf8_text(b@) == Some(s@),
            None => utf8_text(b@).is_none(),
        },
{
    String::from_utf8(b).ok()
}

/// Checks that `b` is a valid C string body (no interior NUL) and copies it.
pub fn checked_c_bytes(b: &[u8]) -> (r: Result<Vec<u8>, DecodeError>)
    ensures
        match r {
            Ok(v) => nul_free(b@) && v@ == b@,
            Err(e) => !nul_free(b@) && e == DecodeError::InteriorNul,
        },
{
    let mut out: Vec<u8> = Vec::new();
    let mut i: usize = 0;
    while i < b.len()
        invariant
            i <= b@.len(),
            out@ == b@.take(i as int),
            forall|j: int| 0 <= j < i ==> b@[j] != 0,
        decreases b@.len() - i,
    {
        if b[i] == 0 {
            return Err(DecodeError::InteriorNul);
        }
        out.push(b[i]);
        i = i + 1;
        proof {
            assert(out@ =~= b@.take(i as int));
        }
    }
    proof {
        assert(b@.take(b@.len() as int) =~= b@);
    }
    Ok(out)
}

/// Decodes a C string body as UTF-8 text.
pub fn c_bytes_to_text(b: &[u8]) -> (r: Result<String, DecodeError>)
    ensures
        match r {
            Ok(s) => nul_free(b@) && utf8_text(b@) == Some(s@),
            Err(DecodeError::InteriorNul) => !nul_free(b@),
            Err(DecodeError::InvalidUtf8) => nul_free(b@) && utf8_text(b@).is_none(),
        },
{
    match checked_c_bytes(b) {
        Ok(v) => match decode_utf8(v) {
            Some(s) => Ok(s),
            None => Err(DecodeError::InvalidUtf8),
        },
        Err(e) => Err(e),
    }
}

} // verus!
