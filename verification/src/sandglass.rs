//! The Sandglass hash of one header.
use crate::bytes;
use crate::bytes::to_be_bytes;
use crate::fill;
use crate::scratch::{Scratch, WORDS};
use crate::sha;
use crate::tuning::Tuning;
use crate::walk;
use vstd::prelude::*;

verus! {

/// The length of a block header.
pub const HEADER_LEN: usize = 148;

/// What filling a scratch from `seed` and walking it leaves.
pub open spec fn state_of(seed: Seq<u8>) -> Seq<u32> {
    walk::outcome(fill::filled(seed), fill::last_word(seed))
}

/// The scratch that filling from `seed` and walking leaves.
pub open spec fn scratch_after(seed: Seq<u8>) -> Seq<u32> {
    walk::walked(fill::filled(seed), fill::last_word(seed)).words
}

/// The message that the digest is taken of: the seed and the five state words.
pub open spec fn closing_message(seed: Seq<u8>, state: Seq<u32>) -> Seq<u8> {
    seed + bytes::be_words(state)
}

/// The Sandglass digest of a header: SHA-256 of the seed (SHA-256 of the
/// header) and of what the fill and the walk made of that seed.
pub open spec fn digest_of(header: Seq<u8>) -> Seq<u8> {
    let seed = sha::sha256_of(header);
    sha::sha256_of(closing_message(seed, state_of(seed)))
}

/// Whoever fills a scratch from a seed, word after word, and walks it turn after
/// turn comes to the state and the scratch that the seed has: the word that the
/// walk began from and the four accumulators, and what the last turn left.
pub proof fn law_state_is_of_fill_and_walk(
    seed: Seq<u8>,
    words: Seq<u32>,
    states: Seq<walk::Walk>,
)
    requires
        words.len() == 0x2_0000,
        forall|n: int| 0 <= n < 0x2_0000 ==> #[trigger] fill::goes_on(words, seed, n),
        walk::walks(states, words, words[0x1_ffff]),
    ensures
        state_of(seed) == seq![
            words[0x1_ffff],
            states[0x20_0000].chains[0].acc,
            states[0x20_0000].chains[1].acc,
            states[0x20_0000].chains[2].acc,
            states[0x20_0000].chains[3].acc,
        ],
        scratch_after(seed) == states[0x20_0000].words,
{
    fill::law_fill_is_the_only_one(seed, words);
    walk::law_walk_takes_all_turns(states, words, words[0x1_ffff]);
}

/// Whoever fills a scratch from the SHA-256 of a header, word after word, walks
/// it turn after turn and writes down the seed, the word that the walk began
/// from and the four accumulators comes to the message whose SHA-256 is the
/// header's digest, and to the scratch that hashing leaves.
pub proof fn law_digest_is_of_fill_and_walk(
    header: Seq<u8>,
    words: Seq<u32>,
    states: Seq<walk::Walk>,
    message: Seq<u8>,
)
    requires
        sha::sha256_of(header).len() == 32,
        words.len() == 0x2_0000,
        forall|n: int|
            0 <= n < 0x2_0000 ==> #[trigger] fill::goes_on(words, sha::sha256_of(header), n),
        walk::walks(states, words, words[0x1_ffff]),
        message.len() == 52,
        message.take(32) == sha::sha256_of(header),
        bytes::be_word(message, 8) == words[0x1_ffff],
        bytes::be_word(message, 9) == states[0x20_0000].chains[0].acc,
        bytes::be_word(message, 10) == states[0x20_0000].chains[1].acc,
        bytes::be_word(message, 11) == states[0x20_0000].chains[2].acc,
        bytes::be_word(message, 12) == states[0x20_0000].chains[3].acc,
    ensures
        digest_of(header) == sha::sha256_of(message),
        scratch_after(sha::sha256_of(header)) == states[0x20_0000].words,
{
    let seed = sha::sha256_of(header);
    law_state_is_of_fill_and_walk(seed, words, states);
    let closing = closing_message(seed, state_of(seed));
    law_closing_message_reads_back(seed, state_of(seed));
    assert forall|i: int| 0 <= i < 13 implies #[trigger] bytes::be_word(message, i)
        == bytes::be_word(closing, i) by {
        if i < 8 {
            assert(message.subrange(4 * i, 4 * i + 4) =~= message.take(32).subrange(
                4 * i,
                4 * i + 4,
            ));
            assert(closing.subrange(4 * i, 4 * i + 4) =~= closing.take(32).subrange(
                4 * i,
                4 * i + 4,
            ));
        } else {
            assert(bytes::be_word(closing, 8 + (i - 8)) == state_of(seed)[i - 8]);
        }
    }
    bytes::lemma_words_determine_bytes(message, closing, 13);
}

/// Filling alone, walking alone and closing the walk's state with its seed come
/// to the digest of the header that the seed was taken of.
pub proof fn law_fill_and_walk_split_matches_digest(
    header: Seq<u8>,
    seed: Seq<u8>,
    words: Seq<u32>,
    h: u32,
    state: Seq<u32>,
)
    requires
        seed == sha::sha256_of(header),
        words == fill::filled(seed),
        h == fill::last_word(seed),
        state == walk::outcome(words, h),
    ensures
        sha::sha256_of(closing_message(seed, state)) == digest_of(header),
{
}

/// The closing message holds the seed and, behind it, the five state words.
pub proof fn law_closing_message_reads_back(seed: Seq<u8>, state: Seq<u32>)
    requires
        seed.len() == 32,
        state.len() == 5,
    ensures
        closing_message(seed, state).len() == 52,
        closing_message(seed, state).take(32) == seed,
        forall|i: int|
            0 <= i < 5 ==> bytes::be_word(closing_message(seed, state), 8 + i)
                == #[trigger] state[i],
{
    let message = closing_message(seed, state);
    assert(message.take(32) =~= seed);
    assert forall|i: int| 0 <= i < 5 implies bytes::be_word(message, 8 + i)
        == #[trigger] state[i] by {
        let four = message.subrange(4 * (8 + i), 4 * (8 + i) + 4);
        assert forall|j: int| 0 <= j < 4 implies #[trigger] four[j] == bytes::be_bytes(
            state[i],
        )[j] by {
            assert((4 * i + j) / 4 == i && (4 * i + j) % 4 == j);
        }
        assert(four =~= bytes::be_bytes(state[i]));
        bytes::law_be_bytes_read_back(state[i]);
    }
}

/// The seed of a header's hash: its SHA-256 digest.
pub fn seed_of(header: &[u8; HEADER_LEN]) -> (seed: [u8; 32])
    ensures
        seed@ == sha::sha256_of(header@),
{
    sha::sha256(header)
}

/// The message that the digest is taken of.
pub fn final_input(seed: &[u8; 32], state: &[u32; 5]) -> (message: [u8; 52])
    ensures
        message@ == closing_message(seed@, state@),
{
    let mut message: [u8; 52] = [0u8; 52];
    let mut at: usize = 0;
    while at < 32
        invariant
            at <= 32,
            forall|i: int| 0 <= i < at ==> #[trigger] message[i] == seed[i],
        decreases 32 - at,
    {
        message[at] = seed[at];
        at = at + 1;
    }
    let mut word: usize = 0;
    while word < 5
        invariant
            word <= 5,
            forall|i: int| 0 <= i < 32 ==> #[trigger] message[i] == seed[i],
            forall|i: int|
                32 <= i < 32 + 4 * word ==> #[trigger] message[i] == bytes::be_words(state@)[i
                    - 32],
        decreases 5 - word,
    {
        let four = to_be_bytes(state[word]);
        let start: usize = 32 + 4 * word;
        message[start] = four[0];
        message[start + 1] = four[1];
        message[start + 2] = four[2];
        message[start + 3] = four[3];
        proof {
            let words = bytes::be_words(state@);
            assert(words[4 * word] == four[0]);
            assert(words[4 * word + 1] == four[1]);
            assert(words[4 * word + 2] == four[2]);
            assert(words[4 * word + 3] == four[3]);
        }
        word = word + 1;
    }
    assert(message@ =~= closing_message(seed@, state@));
    message
}

/// A Sandglass hasher: one scratch, used again for every header.
pub struct Sandglass {
    scratch: Scratch,
    tuning: Tuning,
}

impl Default for Sandglass {
    fn default() -> (hasher: Self)
        ensures
            hasher.wf(),
            hasher.tuning() == (Tuning { gather: false, prefetch: false, pair_kernel: false }),
            hasher.words() == Seq::new(WORDS as nat, |i: int| 0u32),
    {
        Self::new()
    }
}

impl Sandglass {
    /// The hasher's scratch has its full size.
    pub closed spec fn wf(&self) -> bool {
        self.scratch.wf()
    }

    /// How the hasher goes about its work.
    pub closed spec fn tuning(&self) -> Tuning {
        self.tuning
    }

    /// The words of the hasher's scratch.
    pub closed spec fn words(&self) -> Seq<u32> {
        self.scratch@
    }

    /// A hasher owns a full scratch.
    pub proof fn law_scratch_is_full(&self)
        requires
            self.wf(),
        ensures
            self.words().len() == WORDS,
    {
    }

    /// A hasher with a fresh scratch and everything in `Tuning` switched off.
    pub fn new() -> (hasher: Self)
        ensures
            hasher.wf(),
            hasher.tuning() == (Tuning { gather: false, prefetch: false, pair_kernel: false }),
            hasher.words() == Seq::new(WORDS as nat, |i: int| 0u32),
    {
        Self::with_scratch(Scratch::new(), Tuning::plain())
    }

    /// A hasher on the given scratch.
    pub fn with_scratch(scratch: Scratch, tuning: Tuning) -> (hasher: Self)
        requires
            scratch.wf(),
        ensures
            hasher.wf(),
            hasher.tuning() == tuning,
            hasher.words() == scratch@,
    {
        Sandglass { scratch, tuning }
    }

    /// The Sandglass digest of `header`, whatever the hasher has hashed before
    /// and however it is tuned.
    pub fn hash(&mut self, header: &[u8; HEADER_LEN]) -> (digest: [u8; 32])
        requires
            old(self).wf(),
        ensures
            final(self).wf(),
            final(self).tuning() == old(self).tuning(),
            final(self).words() == scratch_after(sha::sha256_of(header@)),
            digest@ == digest_of(header@),
    {
        let seed: [u8; 32] = seed_of(header);
        let state: [u32; 5] = self.fill_and_walk(&seed);
        sha::sha256(&final_input(&seed, &state))
    }

    /// Fills the scratch from `seed`, walks it and returns the walk's state.
    pub fn fill_and_walk(&mut self, seed: &[u8; 32]) -> (state: [u32; 5])
        requires
            old(self).wf(),
        ensures
            final(self).wf(),
            final(self).tuning() == old(self).tuning(),
            final(self).words() == scratch_after(seed@),
            state@ == state_of(seed@),
    {
        let h: u32 = fill::fill(&mut self.scratch, seed);
        if self.tuning.gather {
            return walk::walk_gathered(&mut self.scratch, h);
        }
        if self.tuning.prefetch {
            return walk::walk_scalar::<true>(&mut self.scratch, h);
        }
        walk::walk_scalar::<false>(&mut self.scratch, h)
    }
}

} // verus!
