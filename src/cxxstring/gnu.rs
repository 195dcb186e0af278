use vstd::prelude::*;

use crate::cxxstring::{
    c_bytes_to_text, c_text, checked_c_bytes, grow_capacity, grown_capacity, resized, zeros, DecodeError,
    FIRST_HEAP_CAPACITY, GROWTH_STEP, INLINE_SIZE,
};

verus! {

/// A string in the libstdc++ layout: the inline buffer shares its storage with
/// the heap capacity, and which of the two is live follows from the length.
/// Text shorter than `INLINE_SIZE` lives in `buf`, longer text in `ptr`, whose
/// last byte past the capacity holds room for the terminator.
pub struct CxxString {
    pub ptr: Vec<u8>,
    pub len: usize,
    pub capa: usize,
    pub buf: Vec<u8>,
}

impl CxxString {
    /// Text is stored inline exactly when it is shorter than `INLINE_SIZE`.
    pub open spec fn is_inline(&self) -> bool {
        self.len < INLINE_SIZE
    }

    /// Bytes that can be held without reallocation, terminator excluded.
    pub open spec fn capacity(&self) -> nat {
        if self.is_inline() {
            (INLINE_SIZE - 1) as nat
        } else {
            self.capa as nat
        }
    }

    /// The live storage: inline buffer or heap buffer.
    pub open spec fn storage(&self) -> Seq<u8> {
        if self.is_inline() {
            self.buf@
        } else {
            self.ptr@
        }
    }

    /// The text, terminator excluded.
    pub open spec fn text(&self) -> Seq<u8> {
        self.storage().take(self.len as int)
    }

    pub open spec fn wf(&self) -> bool {
        &&& self.buf@.len() == INLINE_SIZE
        &&& self.len <= self.capacity()
        &&& self.capacity() < usize::MAX
        &&& self.storage().len() == self.capacity() + 1
        &&& self.storage()[self.len as int] == 0
    }

    /// Builds a string holding the first `size` bytes of `src`, inline when
    /// shorter than `INLINE_SIZE`, else in a heap buffer of capacity `size`.
    pub fn new(src: &[u8], size: usize) -> (r: Self)
        requires
            size <= src@.len(),
            size < usize::MAX,
        ensures
            r.wf(),
            r.text() == src@.take(size as int),
            r.len == size,
            !r.is_inline() ==> r.capa == size,
    {
        if size >= INLINE_SIZE {
            let mut ptr: Vec<u8> = Vec::new();
            let mut i: usize = 0;
            while i < size
                invariant
                    i <= size,
                    size <= src@.len(),
                    ptr@ == src@.take(i as int),
                decreases size - i,
            {
                ptr.push(src[i]);
                i = i + 1;
                proof {
                    assert(ptr@ =~= src@.take(i as int));
                }
            }
            ptr.push(0);
            let r = CxxString { ptr, len: size, capa: size, buf: vec![0u8; INLINE_SIZE] };
            proof {
                assert(r.text() =~= src@.take(size as int));
            }
            r
        } else {
            let mut buf: Vec<u8> = vec![0u8; INLINE_SIZE];
            let mut i: usize = 0;
            while i < size
                invariant
                    i <= size,
                    size < INLINE_SIZE,
                    size <= src@.len(),
                    buf@.len() == INLINE_SIZE,
                    buf@.take(i as int) == src@.take(i as int),
                    forall|j: int| i <= j < INLINE_SIZE ==> buf@[j] == 0,
                decreases size - i,
            {
                buf.set(i, src[i]);
                i = i + 1;
                proof {
                    assert(buf@.take(i as int) =~= src@.take(i as int));
                }
            }
            let r = CxxString { ptr: Vec::new(), len: size, capa: 0, buf };
            r
        }
    }

    pub fn size(&self) -> (r: usize)
        requires
            self.wf(),
        ensures
            r == self.text().len(),
    {
        self.len
    }

    /// Byte at position `i` of the text.
    pub fn get(&self, i: usize) -> (r: u8)
        requires
            self.wf(),
            i < self.text().len(),
        ensures
            r == self.text()[i as int],
    {
        if self.len < INLINE_SIZE {
            self.buf[i]
        } else {
            self.ptr[i]
        }
    }

    /// Overwrites byte `i` of the text.
    pub fn set(&mut self, i: usize, v: u8)
        requires
            old(self).wf(),
            i < old(self).text().len(),
        ensures
            final(self).wf(),
            final(self).text() == old(self).text().update(i as int, v),
            final(self).capacity() == old(self).capacity(),
    {
        if self.len < INLINE_SIZE {
            self.buf.set(i, v);
        } else {
            self.ptr.set(i, v);
        }
        proof {
            assert(self.text() =~= old(self).text().update(i as int, v));
        }
    }

    /// Resizes the text to `size` bytes: a shorter text is truncated, a longer
    /// one is padded with zero bytes; the result is always terminated. Growing
    /// past the inline buffer moves the text to the heap, and a heap buffer too
    /// small is reallocated in steps of `GROWTH_STEP`.
    pub fn resize(&mut self, size: usize)
        requires
            old(self).wf(),
            size <= old(self).len || size <= usize::MAX - 2 * GROWTH_STEP - FIRST_HEAP_CAPACITY,
        ensures
            final(self).wf(),
            final(self).len == size,
            final(self).text() == resized(old(self).text(), size as nat),
            final(self).len <= final(self).capacity(),
            !final(self).is_inline() && !old(self).is_inline() && size <= old(self).capa
                ==> final(self).capa == old(self).capa,
            !final(self).is_inline() && !old(self).is_inline() && size > old(self).capa
                ==> final(self).capa == grown_capacity(old(self).capa as nat, size as nat),
            !final(self).is_inline() && old(self).is_inline()
                ==> final(self).capa == grown_capacity(FIRST_HEAP_CAPACITY as nat, size as nat),
    {
        let ghost old_text = self.text();
        let len = self.len;
        if size < INLINE_SIZE {
            if len < INLINE_SIZE {
                retarget(&mut self.buf, len, size);
                self.len = size;
            } else {
                let mut i: usize = 0;
                while i < size
                    invariant
                        i <= size,
                        size < INLINE_SIZE,
                        len >= INLINE_SIZE,
                        len <= self.ptr@.len(),
                        self.ptr@ == old(self).ptr@,
                        self.buf@.len() == INLINE_SIZE,
                        self.buf@.take(i as int) == self.ptr@.take(i as int),
                    decreases size - i,
                {
                    let b = self.ptr[i];
                    self.buf.set(i, b);
                    i = i + 1;
                    proof {
                        assert(self.buf@.take(i as int) =~= self.ptr@.take(i as int));
                    }
                }
                let ghost copied = self.buf@;
                self.buf.set(size, 0);
                self.len = size;
                proof {
                    assert(self.buf@.take(size as int) =~= copied.take(size as int));
                    assert(old_text.take(size as int) =~= old(self).ptr@.take(size as int));
                    assert(self.text() =~= resized(old_text, size as nat));
                }
            }
        } else if len < INLINE_SIZE {
            let capa = grow_capacity(FIRST_HEAP_CAPACITY, size);
            self.ptr = padded_copy(&self.buf, len, capa + 1);
            self.capa = capa;
            self.len = size;
            proof {
                assert(self.text() =~= resized(old_text, size as nat));
            }
        } else if size > self.capa {
            let capa = grow_capacity(self.capa, size);
            self.ptr = padded_copy(&self.ptr, len, capa + 1);
            self.capa = capa;
            self.len = size;
            proof {
                assert(self.text() =~= resized(old_text, size as nat));
            }
        } else {
            retarget(&mut self.ptr, len, size);
            self.len = size;
        }
    }

    /// Drops the last byte of the text.
    pub fn pop_back(&mut self)
        requires
            old(self).wf(),
            old(self).text().len() > 0,
        ensures
            final(self).wf(),
            final(self).text() == old(self).text().drop_last(),
    {
        let n = self.len - 1;
        self.resize(n);
        proof {
            assert(self.text() =~= old(self).text().drop_last());
        }
    }

    /// Appends one byte to the text.
    pub fn push_back(&mut self, symbol: u8)
        requires
            old(self).wf(),
            old(self).text().len() < usize::MAX - 2 * GROWTH_STEP - FIRST_HEAP_CAPACITY,
        ensures
            final(self).wf(),
            final(self).text() == old(self).text().push(symbol),
    {
        let index = self.len;
        self.resize(index + 1);
        self.set(index, symbol);
        proof {
            assert(self.text() =~= old(self).text().push(symbol));
        }
    }

    /// Whether the text is stored in the inline buffer.
    pub fn inline_storage(&self) -> (r: bool)
        ensures
            r == self.is_inline(),
    {
        self.len < INLINE_SIZE
    }

    /// Bytes that can be held without reallocation, terminator excluded.
    pub fn capacity_size(&self) -> (r: usize)
        requires
            self.wf(),
        ensures
            r == self.capacity(),
    {
        if self.inline_storage() {
            INLINE_SIZE - 1
        } else {
            self.capa
        }
    }

    /// The text followed by its terminator, as it lies in storage.
    pub fn terminated(&self) -> (r: Vec<u8>)
        requires
            self.wf(),
        ensures
            r@ == self.storage().take(self.len + 1),
            r@.last() == 0,
    {
        let mut out = self.bytes();
        out.push(0);
        proof {
            assert(out@ =~= self.storage().take(self.len + 1));
        }
        out
    }

    /// Copies of the text bytes.
    pub fn bytes(&self) -> (r: Vec<u8>)
        requires
            self.wf(),
        ensures
            r@ == self.text(),
    {
        let mut out: Vec<u8> = Vec::new();
        let mut i: usize = 0;
        while i < self.len
            invariant
                self.wf(),
                i <= self.len,
                out@ == self.text().take(i as int),
            decreases self.len - i,
        {
            out.push(self.get(i));
            i = i + 1;
            proof {
                assert(out@ =~= self.text().take(i as int));
            }
        }
        proof {
            assert(self.text().take(self.len as int) =~= self.text());
        }
        out
    }

    /// The text as a C string body: fails where it holds a NUL byte.
    pub fn to_bytes(&self) -> (r: Result<Vec<u8>, DecodeError>)
        requires
            self.wf(),
        ensures
            match r {
                Ok(v) => c_text(self.text()) == Ok::<Seq<u8>, DecodeError>(v@),
                Err(e) => c_text(self.text()) == Err::<Seq<u8>, DecodeError>(e),
            },
    {
        let b = self.bytes();
        checked_c_bytes(b.as_slice())
    }

    /// The text decoded as UTF-8.
    pub fn to_str(&self) -> (r: Result<String, DecodeError>)
        requires
            self.wf(),
        ensures
            match r {
                Ok(s) => crate::cxxstring::nul_free(self.text()) && crate::cxxstring::utf8_text(
                    self.text(),
                ) == Some(s@),
                Err(DecodeError::InteriorNul) => !crate::cxxstring::nul_free(self.text()),
                Err(DecodeError::InvalidUtf8) => crate::cxxstring::nul_free(self.text())
                    && crate::cxxstring::utf8_text(self.text()).is_none(),
            },
    {
        let b = self.bytes();
        c_bytes_to_text(b.as_slice())
    }
}

impl crate::cxxstring::NativeString for CxxString {
    open spec fn well_formed(&self) -> bool {
        self.wf()
    }

    open spec fn content(&self) -> Seq<u8> {
        self.text()
    }

    fn from_bytes(src: &[u8], size: usize) -> (r: Self) {
        CxxString::new(src, size)
    }

    fn length(&self) -> (r: usize) {
        self.size()
    }

    fn byte(&self, i: usize) -> (r: u8) {
        self.get(i)
    }

    fn set_byte(&mut self, i: usize, v: u8) {
        self.set(i, v)
    }

    fn content_bytes(&self) -> (r: Vec<u8>) {
        self.bytes()
    }
}

/// Rewrites a buffer that holds a text of `len` bytes so that it holds the
/// text resized to `size` bytes, terminated.
fn retarget(v: &mut Vec<u8>, len: usize, size: usize)
    requires
        len < old(v)@.len(),
        size < old(v)@.len(),
        size < usize::MAX,
    ensures
        final(v)@.len() == old(v)@.len(),
        final(v)@.take(size as int) == resized(old(v)@.take(len as int), size as nat),
        final(v)@[size as int] == 0,
{
    if size < len {
        v.set(size, 0);
        proof {
            assert(v@.take(size as int) =~= resized(old(v)@.take(len as int), size as nat));
        }
    } else {
        zero_range(v, len, size + 1);
        proof {
            assert(v@.take(size as int) =~= resized(old(v)@.take(len as int), size as nat));
        }
    }
}

/// Sets positions `from..to` of `v` to zero, where `from < to`; other
/// positions are kept.
fn zero_range(v: &mut Vec<u8>, from: usize, to: usize)
    requires
        from <= to,
        to <= old(v)@.len(),
    ensures
        final(v)@.len() == old(v)@.len(),
        forall|j: int| 0 <= j < final(v)@.len() ==> final(v)@[j] == if from <= j < to {
            0u8
        } else {
            old(v)@[j]
        },
{
    let mut i: usize = from;
    while i < to
        invariant
            from <= i <= to,
            to <= v@.len(),
            v@.len() == old(v)@.len(),
            forall|j: int| 0 <= j < v@.len() ==> v@[j] == if from <= j < i {
                0u8
            } else {
                old(v)@[j]
            },
        decreases to - i,
    {
        v.set(i, 0);
        i = i + 1;
    }
    proof {
        assert(i == to);
    }
}

/// Copies the first `n` bytes of `src` into a fresh buffer of `total` bytes,
/// padded with zero bytes.
fn padded_copy(src: &Vec<u8>, n: usize, total: usize) -> (r: Vec<u8>)
    requires
        n <= src@.len(),
        n <= total,
    ensures
        r@ == src@.take(n as int) + zeros((total - n) as nat),
{
    let mut out: Vec<u8> = Vec::new();
    let mut i: usize = 0;
    while i < total
        invariant
            i <= total,
            n <= src@.len(),
            n <= total,
            out@.len() == i,
            forall|j: int| 0 <= j < i ==> out@[j] == if j < n {
                src@[j]
            } else {
                0u8
            },
        decreases total - i,
    {
        if i < n {
            out.push(src[i]);
        } else {
            out.push(0);
        }
        i = i + 1;
    }
    proof {
        assert(out@ =~= src@.take(n as int) + zeros((total - n) as nat));
    }
    out
}

} // verus!
