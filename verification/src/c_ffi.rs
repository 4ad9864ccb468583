//! C interface types: `void` and NUL-terminated strings.

use vstd::prelude::*;

verus! {

/// C's `void`, for pointers to untyped memory.
#[allow(non_camel_case_types)]
pub enum c_void {
    __variant1,
    __variant2,
}

/// The length of the C string at the start of `bytes`: the index of its
/// first NUL byte.
pub open spec fn c_str_len(bytes: Seq<u8>) -> int
    decreases bytes.len(),
{
    if bytes.len() == 0 || bytes[0] == 0 {
        0
    } else {
        1 + c_str_len(bytes.drop_first())
    }
}

proof fn lemma_c_str_len(bytes: Seq<u8>, i: int)
    requires
        0 <= i <= bytes.len(),
        forall|j: int| 0 <= j < i ==> bytes[j] != 0,
        i == bytes.len() || bytes[i] == 0,
    ensures
        c_str_len(bytes) == i,
    decreases bytes.len(),
{
    if bytes.len() > 0 && bytes[0] != 0 {
        lemma_c_str_len(bytes.drop_first(), i - 1);
    }
}

/// A NUL-terminated string in a byte buffer.
#[derive(Clone, Copy)]
pub struct CStr<'a> {
    bytes: &'a [u8],
}

impl<'a> CStr<'a> {
    /// The buffer the string starts at.
    pub closed spec fn buffer(&self) -> Seq<u8> {
        self.bytes@
    }

    /// The string held by a NUL-terminated slice.
    pub fn new(slice: &'a [u8]) -> (r: CStr<'a>)
        requires
            slice@.len() > 0,
            slice@.last() == 0,
        ensures
            r.buffer() == slice@,
    {
        CStr { bytes: slice }
    }

    /// The number of bytes before the terminating NUL.
    pub fn len(&self) -> (r: usize)
        ensures
            r == c_str_len(self.buffer()),
            r <= self.buffer().len(),
    {
        let mut i: usize = 0;
        while i < self.bytes.len() && self.bytes[i] != 0
            invariant
                i <= self.bytes@.len(),
                forall|j: int| 0 <= j < i ==> self.bytes@[j] != 0,
            decreases self.bytes@.len() - i,
        {
            i = i + 1;
        }
        proof {
            lemma_c_str_len(self.bytes@, i as int);
        }
        i
    }

    pub fn is_empty(&self) -> (r: bool)
        ensures
            r == (c_str_len(self.buffer()) == 0),
    {
        self.len() == 0
    }

    /// The bytes of the string, without the terminating NUL.
    pub fn as_bytes(&self) -> (r: &'a [u8])
        ensures
            r@ == self.buffer().subrange(0, c_str_len(self.buffer())),
    {
        let n = self.len();
        slice_prefix(self.bytes, n)
    }
}

fn slice_prefix<'a>(s: &'a [u8], n: usize) -> (r: &'a [u8])
    requires
        n <= s@.len(),
    ensures
        r@ == s@.subrange(0, n as int),
{
    let (a, _) = s.split_at(n);
    a
}

} // verus!
