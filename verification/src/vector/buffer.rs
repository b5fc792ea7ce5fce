//! The aligned word buffer behind a vector.
//!
//! The buffer is an `aligned_vec::AVec` of 32-bit words with a run-time
//! alignment. Verus does not look inside it: what it holds and how it is
//! aligned are named here, and every operation on it is a thin call whose
//! contract is taken on trust from the `aligned_vec` sources.

use crate::utils::alignment::word_limit;
use aligned_vec::{AVec, RuntimeAlign};
use vstd::prelude::*;

verus! {

/// An owned, aligned run of 32-bit words: an `aligned_vec::AVec<u32,
/// RuntimeAlign>`. Length and alignment travel with the allocation and are
/// released together with it. Of a buffer only `buffer_words` and
/// `buffer_alignment` are known.
#[verifier::external_body]
#[derive(Debug)]
pub struct WordBuffer {
    words: AVec<u32, RuntimeAlign>,
}

/// The words a buffer holds, in order.
pub uninterp spec fn buffer_words(buf: &WordBuffer) -> Seq<u32>;

/// The alignment, in bytes, that a buffer was made with.
pub uninterp spec fn buffer_alignment(buf: &WordBuffer) -> nat;

/// Whether `align` is a power of two from 4, the bytes of a word, to 4096.
pub open spec fn accepted_alignment(align: usize) -> bool {
    align == 4 || align == 8 || align == 16 || align == 32 || align == 64 || align == 128 || align
        == 256 || align == 512 || align == 1024 || align == 2048 || align == 4096
}

impl WordBuffer {
    /// Calls `AVec::with_capacity`. The new buffer is empty and has the
    /// requested alignment, which is no less than a word needs.
    #[verifier::external_body]
    pub(crate) fn with_capacity(align: usize, capacity: usize) -> (buf: WordBuffer)
        requires
            accepted_alignment(align),
            capacity <= word_limit(),
        ensures
            buffer_words(&buf) == Seq::<u32>::empty(),
            buffer_alignment(&buf) == align,
    {
        WordBuffer { words: AVec::with_capacity(align, capacity) }
    }

    /// Calls `AVec::extend_from_slice`: the words of `other` are appended in
    /// order, and the alignment stays.
    #[verifier::external_body]
    pub(crate) fn extend_from_slice(&mut self, other: &[u32])
        requires
            buffer_words(old(self)).len() + other@.len() <= word_limit(),
        ensures
            buffer_words(final(self)) == buffer_words(old(self)) + other@,
            buffer_alignment(final(self)) == buffer_alignment(old(self)),
    {
        self.words.extend_from_slice(other)
    }

    /// Calls `AVec::resize`: a longer length appends copies of `value`, a
    /// shorter one cuts the tail off; the alignment stays.
    #[verifier::external_body]
    pub(crate) fn resize(&mut self, new_len: usize, value: u32)
        requires
            new_len <= word_limit(),
        ensures
            buffer_words(final(self)) == if new_len >= buffer_words(old(self)).len() {
                buffer_words(old(self)) + Seq::new(
                    (new_len - buffer_words(old(self)).len()) as nat,
                    |i: int| value,
                )
            } else {
                buffer_words(old(self)).take(new_len as int)
            },
            buffer_alignment(final(self)) == buffer_alignment(old(self)),
    {
        self.words.resize(new_len, value)
    }

    /// Calls `AVec::as_slice`: every word held, in order.
    #[verifier::external_body]
    pub(crate) fn as_slice(&self) -> (words: &[u32])
        ensures
            words@ == buffer_words(self),
    {
        self.words.as_slice()
    }

    /// Writes `value` into slot `index` through `AVec::as_mut_slice`; the
    /// other words, the length and the alignment stay. With the index in
    /// range the write cannot fail.
    #[verifier::external_body]
    pub(crate) fn store(&mut self, index: usize, value: u32)
        requires
            index < buffer_words(old(self)).len(),
        ensures
            buffer_words(final(self)) == buffer_words(old(self)).update(index as int, value),
            buffer_alignment(final(self)) == buffer_alignment(old(self)),
        no_unwind
    {
        self.words.as_mut_slice()[index] = value;
    }

    /// The address that `AVec::as_ptr` reports. It differs from run to run;
    /// in every run it is a multiple of the buffer's alignment.
    #[verifier::external_body]
    pub(crate) fn address(&self) -> (addr: usize)
        ensures
            addr as nat % buffer_alignment(self) == 0,
    {
        self.words.as_ptr() as usize
    }

    /// Calls `AVec::clone`: a new allocation with the same words and the
    /// same alignment.
    #[verifier::external_body]
    pub(crate) fn duplicate(&self) -> (copy: WordBuffer)
        ensures
            buffer_words(&copy) == buffer_words(self),
            buffer_alignment(&copy) == buffer_alignment(self),
    {
        WordBuffer { words: self.words.clone() }
    }
}

} // verus!
