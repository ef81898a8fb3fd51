//! Fixed-size byte buffers: the representation every convertible type maps to.
use vstd::prelude::*;

verus! {

/// A fixed-size, contiguous sequence of bytes.
///
/// Every instance of an implementing type holds exactly `byte_len()` bytes; a
/// zero-valued instance can always be built.
pub trait ByteArray: Copy + Sized {
    /// The bytes held, in order.
    spec fn bytes(&self) -> Seq<u8>;

    /// The fixed number of bytes of every instance.
    spec fn byte_len() -> nat;

    /// Every instance holds exactly `byte_len()` bytes.
    proof fn lemma_len(&self)
        ensures
            self.bytes().len() == Self::byte_len(),
    ;

    /// An instance is determined by its bytes.
    proof fn lemma_bytes_injective(a: Self, b: Self)
        requires
            a.bytes() == b.bytes(),
        ensures
            a == b,
    ;

    /// The number of bytes of every instance.
    fn byte_size() -> (r: usize)
        ensures
            r == Self::byte_len(),
    ;

    /// An instance whose bytes are all zero.
    fn zeroed() -> (r: Self)
        ensures
            r.bytes() == Seq::new(Self::byte_len(), |i: int| 0u8),
    ;

    /// The bytes, as a slice.
    fn as_byte_slice(&self) -> (r: &[u8])
        ensures
            r@ == self.bytes(),
    ;

    /// The bytes, as a mutable slice: what is written through it becomes the
    /// bytes of the instance.
    fn as_byte_slice_mut(&mut self) -> (r: &mut [u8])
        ensures
            r@ == old(self).bytes(),
            final(self).bytes() == final(r)@,
    ;

    /// The instance whose bytes are `src`.
    fn from_byte_slice(src: &[u8]) -> (r: Self)
        requires
            src@.len() == Self::byte_len(),
        ensures
            r.bytes() == src@,
    ;
}

impl<const N: usize> ByteArray for [u8; N] {
    open spec fn bytes(&self) -> Seq<u8> {
        self@
    }

    open spec fn byte_len() -> nat {
        N as nat
    }

    proof fn lemma_len(&self) {
    }

    proof fn lemma_bytes_injective(a: Self, b: Self) {
        assert(a =~= b);
    }

    fn byte_size() -> (r: usize) {
        N
    }

    fn zeroed() -> (r: Self) {
        let r = [0u8; N];
        assert(r@ =~= Seq::new(N as nat, |i: int| 0u8));
        r
    }

    fn as_byte_slice(&self) -> (r: &[u8]) {
        self.as_slice()
    }

    fn as_byte_slice_mut(&mut self) -> (r: &mut [u8]) {
        self
    }

    fn from_byte_slice(src: &[u8]) -> (r: Self) {
        let mut r = [0u8; N];
        let mut i: usize = 0;
        while i < N
            invariant
                src@.len() == N,
                i <= N,
                r@.len() == N,
                forall|j: int| 0 <= j < i ==> r@[j] == src@[j],
            decreases N - i,
        {
            r[i] = src[i];
            i = i + 1;
        }
        assert(r@ =~= src@);
        r
    }
}

} // verus!
