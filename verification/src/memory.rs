//! The byte store that objects live in, and the words laid over it.

use vstd::bytes::{
    lemma_auto_spec_u64_to_from_le_bytes, spec_u64_from_le_bytes, spec_u64_to_le_bytes,
    u64_from_le_bytes, u64_to_le_bytes,
};
use vstd::prelude::*;
use vstd::slice::slice_subrange;

verus! {

/// Number of bytes that one stored word occupies.
pub const WORD_SIZE: usize = 8;

/// The word stored at `addr`: eight bytes, least significant first.
#[verifier::opaque]
pub open spec fn word_at(bytes: Seq<u8>, addr: int) -> usize {
    spec_u64_from_le_bytes(bytes.subrange(addr, addr + WORD_SIZE)) as usize
}

/// `bytes` with `src` copied over the positions starting at `addr`.
#[verifier::opaque]
pub open spec fn with_bytes(bytes: Seq<u8>, addr: int, src: Seq<u8>) -> Seq<u8> {
    Seq::new(
        bytes.len(),
        |i: int|
            if addr <= i < addr + src.len() {
                src[i - addr]
            } else {
                bytes[i]
            },
    )
}

/// `bytes` with the word `value` stored at `addr`.
pub open spec fn with_word(bytes: Seq<u8>, addr: int, value: usize) -> Seq<u8> {
    with_bytes(bytes, addr, spec_u64_to_le_bytes(value as u64))
}

/// The two byte sequences have the same length and agree at every position
/// outside `[lo1, hi1)` and `[lo2, hi2)`.
pub open spec fn same_outside_two(
    pre: Seq<u8>,
    post: Seq<u8>,
    lo1: int,
    hi1: int,
    lo2: int,
    hi2: int,
) -> bool {
    &&& post.len() == pre.len()
    &&& forall|i: int|
        0 <= i < pre.len() && !(lo1 <= i < hi1) && !(lo2 <= i < hi2) ==> #[trigger] post[i]
            == pre[i]
}

/// The two byte sequences have the same length and agree at every position
/// outside `[lo, hi)`.
pub open spec fn same_outside(pre: Seq<u8>, post: Seq<u8>, lo: int, hi: int) -> bool {
    same_outside_two(pre, post, lo, hi, 0, 0)
}

/// The two byte sequences agree at every position of `[lo, hi)`.
pub open spec fn same_within(pre: Seq<u8>, post: Seq<u8>, lo: int, hi: int) -> bool {
    forall|i: int| lo <= i < hi ==> #[trigger] post[i] == pre[i]
}

/// A word that was stored is the word that is read back.
pub proof fn lemma_word_stored(bytes: Seq<u8>, addr: int, value: usize)
    requires
        0 <= addr,
        addr + WORD_SIZE <= bytes.len(),
    ensures
        word_at(with_word(bytes, addr, value), addr) == value,
        same_outside(bytes, with_word(bytes, addr, value), addr, addr + WORD_SIZE),
{
    reveal(word_at);
    reveal(with_bytes);
    lemma_auto_spec_u64_to_from_le_bytes();
    let enc = spec_u64_to_le_bytes(value as u64);
    let post = with_word(bytes, addr, value);
    assert(post.subrange(addr, addr + WORD_SIZE) =~= enc);
}

/// Bytes that were copied in are the bytes found there, and no byte outside
/// them changed.
pub proof fn lemma_bytes_written(bytes: Seq<u8>, addr: int, src: Seq<u8>)
    requires
        0 <= addr,
        addr + src.len() <= bytes.len(),
    ensures
        with_bytes(bytes, addr, src).subrange(addr, addr + src.len()) == src,
        same_outside(bytes, with_bytes(bytes, addr, src), addr, addr + src.len()),
{
    reveal(with_bytes);
    assert(with_bytes(bytes, addr, src).subrange(addr, addr + src.len()) =~= src);
}

/// A word depends only on the eight bytes that hold it.
pub proof fn lemma_word_same(pre: Seq<u8>, post: Seq<u8>, addr: int)
    requires
        0 <= addr,
        addr + WORD_SIZE <= pre.len(),
        pre.len() == post.len(),
        same_within(pre, post, addr, addr + WORD_SIZE),
    ensures
        word_at(post, addr) == word_at(pre, addr),
{
    reveal(word_at);
    assert(post.subrange(addr, addr + WORD_SIZE) =~= pre.subrange(addr, addr + WORD_SIZE));
}

/// A word that lies outside the two ranges in which the bytes may differ is
/// the same in both sequences.
pub proof fn lemma_word_kept(
    pre: Seq<u8>,
    post: Seq<u8>,
    lo1: int,
    hi1: int,
    lo2: int,
    hi2: int,
    addr: int,
)
    requires
        same_outside_two(pre, post, lo1, hi1, lo2, hi2),
        0 <= addr,
        addr + WORD_SIZE <= pre.len(),
        addr + WORD_SIZE <= lo1 || hi1 <= addr,
        addr + WORD_SIZE <= lo2 || hi2 <= addr,
    ensures
        word_at(post, addr) == word_at(pre, addr),
{
    lemma_word_same(pre, post, addr);
}

/// A fixed-size, zero-initialised array of bytes addressed from zero.
pub struct Memory {
    data: Vec<u8>,
}

impl View for Memory {
    type V = Seq<u8>;

    closed spec fn view(&self) -> Seq<u8> {
        self.data@
    }
}

impl Memory {
    /// Every address of the memory is a machine word.
    pub proof fn lemma_len_bounded(&self)
        ensures
            self@.len() <= usize::MAX,
    {
        assert(self.data.len() == self.data@.len());
    }

    /// A memory of `len` zero bytes.
    pub fn new(len: usize) -> (mem: Memory)
        ensures
            mem@ == Seq::new(len as nat, |i: int| 0u8),
    {
        let mut data: Vec<u8> = Vec::new();
        let mut i: usize = 0;
        while i < len
            invariant
                i <= len,
                data@ == Seq::new(i as nat, |k: int| 0u8),
            decreases len - i,
        {
            data.push(0u8);
            i += 1;
            assert(data@ =~= Seq::new(i as nat, |k: int| 0u8));
        }
        Memory { data }
    }

    /// Number of bytes in the memory.
    pub fn len(&self) -> (n: usize)
        ensures
            n == self@.len(),
    {
        self.data.len()
    }

    /// Reads the word stored at `addr`.
    pub fn load(&self, addr: usize) -> (value: usize)
        requires
            addr + WORD_SIZE <= self@.len(),
        ensures
            value == word_at(self@, addr as int),
    {
        let total = self.data.len();
        assert(addr + WORD_SIZE <= total);
        let bytes = slice_subrange(self.data.as_slice(), addr, addr + WORD_SIZE);
        let word: u64 = u64_from_le_bytes(bytes);
        proof {
            reveal(word_at);
        }
        #[verifier::truncate]
        (word as usize)
    }

    /// Stores the word `value` at `addr`.
    pub fn store(&mut self, addr: usize, value: usize)
        requires
            addr + WORD_SIZE <= old(self)@.len(),
        ensures
            final(self)@ == with_word(old(self)@, addr as int, value),
    {
        let enc = u64_to_le_bytes(value as u64);
        self.write(addr, enc.as_slice());
    }

    /// Copies `src` into the memory, starting at `addr`.
    pub fn write(&mut self, addr: usize, src: &[u8])
        requires
            addr + src@.len() <= old(self)@.len(),
        ensures
            final(self)@ == with_bytes(old(self)@, addr as int, src@),
    {
        let n = src.len();
        let total = self.data.len();
        let mut i: usize = 0;
        proof {
            reveal(with_bytes);
            assert(self@ =~= with_bytes(old(self)@, addr as int, src@.take(0)));
        }
        while i < n
            invariant
                i <= n,
                n == src@.len(),
                addr + n <= total,
                total == self@.len(),
                self@ == with_bytes(old(self)@, addr as int, src@.take(i as int)),
            decreases n - i,
        {
            self.data[addr + i] = src[i];
            i += 1;
            proof {
                reveal(with_bytes);
                assert(self@ =~= with_bytes(old(self)@, addr as int, src@.take(i as int)));
            }
        }
        assert(src@.take(n as int) =~= src@);
    }

    /// Returns the `len` bytes that start at `addr`.
    pub fn read(&self, addr: usize, len: usize) -> (out: Vec<u8>)
        requires
            addr + len <= self@.len(),
        ensures
            out@ == self@.subrange(addr as int, addr + len),
    {
        let mut out: Vec<u8> = Vec::new();
        let total = self.data.len();
        let mut i: usize = 0;
        while i < len
            invariant
                i <= len,
                addr + len <= total,
                total == self@.len(),
                out@ == self@.subrange(addr as int, addr + i),
            decreases len - i,
        {
            out.push(self.data[addr + i]);
            i += 1;
            assert(out@ =~= self@.subrange(addr as int, addr + i));
        }
        out
    }
}

} // verus!
