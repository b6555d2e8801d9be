//! The working memory of one hash.
use vstd::prelude::*;

verus! {

/// How many words a scratch holds: 512 KiB of them.
pub const WORDS: usize = 0x2_0000;

/// Keeps the bits of a word that address the scratch.
pub const MASK: u32 = 0x1_ffff;

/// A scratch: `WORDS` words, owned by one hasher and rewritten by every hash.
pub struct Scratch {
    words: Vec<u32>,
}

impl View for Scratch {
    type V = Seq<u32>;

    closed spec fn view(&self) -> Seq<u32> {
        self.words@
    }
}

impl Scratch {
    /// A scratch has its full size.
    pub open spec fn wf(&self) -> bool {
        self@.len() == WORDS
    }

    /// A scratch of zeros.
    pub fn new() -> (scratch: Scratch)
        ensures
            scratch.wf(),
            scratch@ == Seq::new(WORDS as nat, |i: int| 0u32),
    {
        let words: Vec<u32> = vec![0u32; WORDS];
        assert(words@ =~= Seq::new(WORDS as nat, |i: int| 0u32));
        Scratch { words }
    }

    /// A scratch in memory that the caller has allocated, or `None` if it is
    /// not of the scratch's size.
    pub fn from_words(words: Vec<u32>) -> (scratch: Option<Scratch>)
        ensures
            words@.len() == WORDS ==> (scratch matches Some(s) && s.wf() && s@ == words@),
            words@.len() != WORDS ==> scratch is None,
    {
        if words.len() == WORDS {
            Some(Scratch { words })
        } else {
            None
        }
    }

    /// The word at `index`.
    #[inline]
    pub fn get(&self, index: usize) -> (word: u32)
        requires
            self.wf(),
            index < WORDS,
        ensures
            word == self@[index as int],
    {
        self.words[index]
    }

    /// Writes `word` at `index`.
    #[inline]
    pub fn put(&mut self, index: usize, word: u32)
        requires
            old(self).wf(),
            index < WORDS,
        ensures
            final(self).wf(),
            final(self)@ == old(self)@.update(index as int, word),
    {
        self.words[index] = word;
    }

    /// Touches the word at `index`, so that its cache line is on the way when a
    /// later turn asks for it. The scratch is not changed.
    #[inline]
    pub(crate) fn prefetch(&self, index: usize)
        requires
            self.wf(),
            index < WORDS,
    {
        let _touched: u32 = core::hint::black_box(self.words[index]);
    }
}

/// A word masked with `MASK` addresses the scratch.
pub proof fn lemma_masked_in_range(word: u32)
    ensures
        word & MASK < WORDS,
{
    assert(word & 0x1_ffff < 0x2_0000) by (bit_vector);
}

/// `core::hint::black_box` hands its argument back; the optimizer is asked not
/// to look through the call.
pub assume_specification<T>[ core::hint::black_box::<T> ](dummy: T) -> (result: T)
    ensures
        result == dummy,
;

} // verus!
