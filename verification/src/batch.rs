//! Several Sandglass hashes at once, interleaved so that their memory accesses
//! overlap.
use crate::bytes;
use crate::fill;
use crate::fill::{next_fill_word, seed_words};
use crate::mixer::{mix, GOLDEN};
use crate::sandglass;
use crate::sandglass::{final_input, seed_of, Sandglass, HEADER_LEN};
use crate::scratch::{Scratch, WORDS};
use crate::sha;
use crate::tuning::Tuning;
use crate::walk;
use crate::walk::{close_walk, init_walk_chains, take_turn, Chain, Walk, PER_CHAIN};
use vstd::prelude::*;

verus! {

/// Independent Sandglass lanes. Each lane owns its own scratch and computes an
/// exact Sandglass digest.
pub struct SandglassBatch<const LANES: usize> {
    scratches: Vec<Scratch>,
    tuning: Tuning,
}

/// As many full scratches as there are lanes.
pub open spec fn scratches_wf(scratches: Seq<Scratch>, lanes: int) -> bool {
    &&& scratches.len() == lanes
    &&& forall|lane: int| 0 <= lane < lanes ==> (#[trigger] scratches[lane]).wf()
}

/// Every chain stands inside its scratch.
spec fn in_range(chains: Seq<Chain>) -> bool {
    forall|l: int| 0 <= l < chains.len() ==> (#[trigger] chains[l]).index < WORDS
}

/// The walk that one lane is in the middle of.
spec fn lane_walk(
    scratches: Seq<Scratch>,
    c0: Seq<Chain>,
    c1: Seq<Chain>,
    c2: Seq<Chain>,
    c3: Seq<Chain>,
    lane: int,
) -> Walk {
    Walk { words: scratches[lane]@, chains: seq![c0[lane], c1[lane], c2[lane], c3[lane]] }
}

impl<const LANES: usize> SandglassBatch<LANES> {
    /// There is a lane, and every lane's scratch has its full size.
    pub closed spec fn wf(&self) -> bool {
        LANES > 0 && scratches_wf(self.scratches@, LANES as int)
    }

    /// How the batch goes about its work.
    pub closed spec fn tuning(&self) -> Tuning {
        self.tuning
    }

    /// The words of one lane's scratch.
    pub closed spec fn words(&self, lane: int) -> Seq<u32> {
        self.scratches@[lane]@
    }

    /// Filling and walking every lane from its own seed has come to `states`,
    /// and has left the scratches as they stand.
    pub open spec fn left_by(&self, seeds: Seq<[u8; 32]>, states: Seq<[u32; 5]>) -> bool {
        &&& forall|l: int|
            0 <= l < LANES ==> (#[trigger] states[l])@ == sandglass::state_of(seeds[l]@)
        &&& forall|l: int|
            0 <= l < LANES ==> #[trigger] self.words(l) == sandglass::scratch_after(seeds[l]@)
    }

    /// Every lane owns a full scratch.
    pub proof fn law_scratches_are_full(&self)
        requires
            self.wf(),
        ensures
            forall|l: int| 0 <= l < LANES ==> (#[trigger] self.words(l)).len() == WORDS,
    {
        assert forall|l: int| 0 <= l < LANES implies (#[trigger] self.words(l)).len() == WORDS by {
            assert(self.scratches@[l].wf());
        }
    }

    /// Fills every lane's scratch from its own seed, word by word across the
    /// lanes, and returns the last word of each.
    fn fill_lanes(&mut self, seeds: &[[u8; 32]; LANES]) -> (h: [u32; LANES])
        requires
            old(self).wf(),
        ensures
            final(self).wf(),
            final(self).tuning() == old(self).tuning(),
            forall|lane: int|
                0 <= lane < LANES ==> #[trigger] final(self).words(lane) == fill::filled(
                    seeds[lane]@,
                ),
            forall|lane: int|
                0 <= lane < LANES ==> #[trigger] h[lane] == fill::last_word(seeds[lane]@),
    {
        let mut words: [[u32; 8]; LANES] = [[0u32; 8]; LANES];
        let mut h: [u32; LANES] = [0u32; LANES];
        let mut lane: usize = 0;
        while lane < LANES
            invariant
                lane <= LANES,
                forall|l: int, i: int|
                    0 <= l < lane && 0 <= i < 8 ==> #[trigger] words[l][i] == bytes::be_word(
                        seeds[l]@,
                        i,
                    ),
                forall|l: int| 0 <= l < lane ==> #[trigger] h[l] == fill::fill_word(seeds[l]@, 0),
            decreases LANES - lane,
        {
            words[lane] = seed_words(&seeds[lane]);
            h[lane] = mix(words[lane][0] ^ GOLDEN);
            lane = lane + 1;
        }
        let mut index: usize = 0;
        while index < WORDS
            invariant
                index <= WORDS,
                self.wf(),
                self.tuning == old(self).tuning,
                forall|l: int, i: int|
                    0 <= l < LANES && 0 <= i < 8 ==> #[trigger] words[l][i] == bytes::be_word(
                        seeds[l]@,
                        i,
                    ),
                forall|l: int|
                    0 <= l < LANES ==> #[trigger] h[l] == fill::fill_word(seeds[l]@, index as nat),
                forall|l: int, i: int|
                    0 <= l < LANES && 0 <= i < index ==> #[trigger] self.scratches@[l]@[i]
                        == fill::fill_word(seeds[l]@, (i + 1) as nat),
            decreases WORDS - index,
        {
            let mut lane: usize = 0;
            while lane < LANES
                invariant
                    lane <= LANES,
                    index < WORDS,
                    self.wf(),
                    self.tuning == old(self).tuning,
                    forall|l: int, i: int|
                        0 <= l < LANES && 0 <= i < 8 ==> #[trigger] words[l][i] == bytes::be_word(
                            seeds[l]@,
                            i,
                        ),
                    forall|l: int|
                        0 <= l < LANES ==> #[trigger] h[l] == fill::fill_word(
                            seeds[l]@,
                            (index + if l < lane { 1int } else { 0 }) as nat,
                        ),
                    forall|l: int, i: int|
                        0 <= l < LANES && 0 <= i < index + (if l < lane { 1int } else { 0 })
                            ==> #[trigger] self.scratches@[l]@[i] == fill::fill_word(
                            seeds[l]@,
                            (i + 1) as nat,
                        ),
                decreases LANES - lane,
            {
                h[lane] = next_fill_word(h[lane], &words[lane], index);
                self.scratches[lane].put(index, h[lane]);
                lane = lane + 1;
            }
            index = index + 1;
        }
        assert forall|l: int| 0 <= l < LANES implies #[trigger] self.words(l) == fill::filled(
            seeds[l]@,
        ) by {
            assert(self.scratches@[l].wf());
            assert(self.words(l) =~= fill::filled(seeds[l]@));
        }
        h
    }

    /// Lets one chain of every lane take its turn of round `step`.
    #[inline]
    fn turn_lanes(&mut self, chains: &mut [Chain; LANES], step: u32)
        requires
            old(self).wf(),
            in_range(old(chains)@),
        ensures
            final(self).wf(),
            final(self).tuning() == old(self).tuning(),
            forall|l: int|
                0 <= l < LANES ==> #[trigger] final(chains)[l] == walk::chain_next(
                    old(self).words(l),
                    old(chains)[l],
                ),
            in_range(final(chains)@),
            forall|l: int|
                0 <= l < LANES ==> #[trigger] final(self).words(l) == walk::written(
                    old(self).words(l),
                    old(chains)[l],
                    final(chains)[l],
                    step,
                ),
    {
        let mut lane: usize = 0;
        while lane < LANES
            invariant
                lane <= LANES,
                self.wf(),
                self.tuning == old(self).tuning,
                in_range(chains@),
                forall|l: int| lane <= l < LANES ==> #[trigger] chains[l] == old(chains)[l],
                forall|l: int|
                    lane <= l < LANES ==> #[trigger] self.scratches@[l] == old(self).scratches@[l],
                forall|l: int|
                    0 <= l < lane ==> #[trigger] chains[l] == walk::chain_next(
                        old(self).words(l),
                        old(chains)[l],
                    ),
                forall|l: int|
                    0 <= l < lane ==> #[trigger] self.scratches@[l]@ == walk::written(
                        old(self).words(l),
                        old(chains)[l],
                        chains[l],
                        step,
                    ),
            decreases LANES - lane,
        {
            chains[lane] = take_turn(&mut self.scratches[lane], chains[lane], step);
            lane = lane + 1;
        }
    }

    /// Touches the words that one chain of every lane stands on.
    #[inline]
    fn prefetch_lanes(&self, chains: &[Chain; LANES])
        requires
            self.wf(),
            in_range(chains@),
    {
        let mut lane: usize = 0;
        while lane < LANES
            invariant
                lane <= LANES,
                self.wf(),
                in_range(chains@),
            decreases LANES - lane,
        {
            self.scratches[lane].prefetch(chains[lane].index as usize);
            lane = lane + 1;
        }
    }

    /// The chains of every lane's walk, before their first turn: one array for
    /// each of the four chains.
    fn open_lanes(h: &[u32; LANES]) -> (chains: (
        [Chain; LANES],
        [Chain; LANES],
        [Chain; LANES],
        [Chain; LANES],
    ))
        ensures
            forall|l: int| 0 <= l < LANES ==> #[trigger] chains.0[l] == walk::first_chain(h[l], 0),
            forall|l: int| 0 <= l < LANES ==> #[trigger] chains.1[l] == walk::first_chain(h[l], 1),
            forall|l: int| 0 <= l < LANES ==> #[trigger] chains.2[l] == walk::first_chain(h[l], 2),
            forall|l: int| 0 <= l < LANES ==> #[trigger] chains.3[l] == walk::first_chain(h[l], 3),
            in_range(chains.0@),
            in_range(chains.1@),
            in_range(chains.2@),
            in_range(chains.3@),
    {
        let idle = Chain { acc: 0, index: 0 };
        let mut c0: [Chain; LANES] = [idle; LANES];
        let mut c1: [Chain; LANES] = [idle; LANES];
        let mut c2: [Chain; LANES] = [idle; LANES];
        let mut c3: [Chain; LANES] = [idle; LANES];
        let mut lane: usize = 0;
        while lane < LANES
            invariant
                lane <= LANES,
                forall|l: int| 0 <= l < lane ==> #[trigger] c0[l] == walk::first_chain(h[l], 0),
                forall|l: int| 0 <= l < lane ==> #[trigger] c1[l] == walk::first_chain(h[l], 1),
                forall|l: int| 0 <= l < lane ==> #[trigger] c2[l] == walk::first_chain(h[l], 2),
                forall|l: int| 0 <= l < lane ==> #[trigger] c3[l] == walk::first_chain(h[l], 3),
                in_range(c0@),
                in_range(c1@),
                in_range(c2@),
                in_range(c3@),
            decreases LANES - lane,
        {
            let chains = init_walk_chains(h[lane]);
            proof {
                walk::lemma_first_chains_in_range(h[lane as int]);
            }
            c0[lane] = chains[0];
            c1[lane] = chains[1];
            c2[lane] = chains[2];
            c3[lane] = chains[3];
            lane = lane + 1;
        }
        (c0, c1, c2, c3)
    }

    /// Takes every lane through round `step` of its walk, chain by chain across
    /// the lanes.
    #[inline]
    fn round_lanes(
        &mut self,
        c0: &mut [Chain; LANES],
        c1: &mut [Chain; LANES],
        c2: &mut [Chain; LANES],
        c3: &mut [Chain; LANES],
        step: u32,
    )
        requires
            old(self).wf(),
            in_range(old(c0)@),
            in_range(old(c1)@),
            in_range(old(c2)@),
            in_range(old(c3)@),
        ensures
            final(self).wf(),
            final(self).tuning() == old(self).tuning(),
            in_range(final(c0)@),
            in_range(final(c1)@),
            in_range(final(c2)@),
            in_range(final(c3)@),
            forall|l: int|
                0 <= l < LANES ==> #[trigger] lane_walk(
                    final(self).scratches@,
                    final(c0)@,
                    final(c1)@,
                    final(c2)@,
                    final(c3)@,
                    l,
                ) == walk::ordered_round(
                    lane_walk(
                        old(self).scratches@,
                        old(c0)@,
                        old(c1)@,
                        old(c2)@,
                        old(c3)@,
                        l,
                    ),
                    step,
                ),
    {
        if self.tuning.prefetch {
            self.prefetch_lanes(c0);
        }
        self.turn_lanes(c0, step);
        let ghost s1 = *self;
        if self.tuning.prefetch {
            self.prefetch_lanes(c1);
        }
        self.turn_lanes(c1, step);
        let ghost s2 = *self;
        if self.tuning.prefetch {
            self.prefetch_lanes(c2);
        }
        self.turn_lanes(c2, step);
        let ghost s3 = *self;
        if self.tuning.prefetch {
            self.prefetch_lanes(c3);
        }
        self.turn_lanes(c3, step);
        proof {
            assert forall|l: int| 0 <= l < LANES implies #[trigger] lane_walk(
                self.scratches@,
                c0@,
                c1@,
                c2@,
                c3@,
                l,
            ) == walk::ordered_round(
                lane_walk(old(self).scratches@, old(c0)@, old(c1)@, old(c2)@, old(c3)@, l),
                step,
            ) by {
                let from = seq![old(c0)[l], old(c1)[l], old(c2)[l], old(c3)[l]];
                let to = seq![c0[l], c1[l], c2[l], c3[l]];
                assert(s1.words(l) == walk::written(old(self).words(l), from[0], to[0], step));
                assert(s2.words(l) == walk::written(s1.words(l), from[1], to[1], step));
                assert(s3.words(l) == walk::written(s2.words(l), from[2], to[2], step));
                assert(self.words(l) == walk::written(s3.words(l), from[3], to[3], step));
                walk::lemma_four_turns(old(self).words(l), from, to, step);
            }
        }
    }

    /// Walks every lane's scratch from its own `h`, chain by chain across the
    /// lanes. Within a lane the chains keep to the order of turns.
    fn walk_lanes(&mut self, h: &[u32; LANES]) -> (states: [[u32; 5]; LANES])
        requires
            old(self).wf(),
        ensures
            final(self).wf(),
            final(self).tuning() == old(self).tuning(),
            forall|l: int|
                0 <= l < LANES ==> (#[trigger] states[l])@ == walk::outcome(
                    old(self).words(l),
                    h[l],
                ),
            forall|l: int|
                0 <= l < LANES ==> #[trigger] final(self).words(l) == walk::walked(
                    old(self).words(l),
                    h[l],
                ).words,
    {
        let (c0, c1, c2, c3) = Self::open_lanes(h);
        let mut c0: [Chain; LANES] = c0;
        let mut c1: [Chain; LANES] = c1;
        let mut c2: [Chain; LANES] = c2;
        let mut c3: [Chain; LANES] = c3;
        proof {
            assert forall|l: int| 0 <= l < LANES implies #[trigger] lane_walk(
                self.scratches@,
                c0@,
                c1@,
                c2@,
                c3@,
                l,
            ) == walk::opening(old(self).words(l), h[l]) by {
                assert(lane_walk(self.scratches@, c0@, c1@, c2@, c3@, l) =~= walk::opening(
                    old(self).words(l),
                    h[l],
                ));
            }
        }
        let mut step: u32 = 0;
        while step < PER_CHAIN
            invariant
                step <= PER_CHAIN,
                self.wf(),
                self.tuning == old(self).tuning,
                in_range(c0@),
                in_range(c1@),
                in_range(c2@),
                in_range(c3@),
                forall|l: int|
                    0 <= l < LANES ==> #[trigger] lane_walk(
                        self.scratches@,
                        c0@,
                        c1@,
                        c2@,
                        c3@,
                        l,
                    ) == walk::after(
                        walk::opening(old(self).words(l), h[l]),
                        4 * step as nat,
                    ),
            decreases PER_CHAIN - step,
        {
            self.round_lanes(&mut c0, &mut c1, &mut c2, &mut c3, step);
            proof {
                assert forall|l: int| 0 <= l < LANES implies #[trigger] lane_walk(
                    self.scratches@,
                    c0@,
                    c1@,
                    c2@,
                    c3@,
                    l,
                ) == walk::after(
                    walk::opening(old(self).words(l), h[l]),
                    4 * (step + 1) as nat,
                ) by {
                    walk::lemma_round(walk::opening(old(self).words(l), h[l]), step);
                }
            }
            step = step + 1;
        }
        let mut states: [[u32; 5]; LANES] = [[0u32; 5]; LANES];
        let mut lane: usize = 0;
        while lane < LANES
            invariant
                lane <= LANES,
                forall|l: int|
                    0 <= l < lane ==> (#[trigger] states[l])@ == seq![
                        h[l],
                        c0[l].acc,
                        c1[l].acc,
                        c2[l].acc,
                        c3[l].acc,
                    ],
            decreases LANES - lane,
        {
            states[lane] = close_walk(h[lane], [c0[lane], c1[lane], c2[lane], c3[lane]]);
            lane = lane + 1;
        }
        proof {
            assert forall|l: int|
                #![trigger states[l]]
                #![trigger self.words(l)]
                0 <= l < LANES implies {
                &&& states[l]@ == walk::outcome(old(self).words(l), h[l])
                &&& self.words(l) == walk::walked(old(self).words(l), h[l]).words
            } by {
                let w = lane_walk(self.scratches@, c0@, c1@, c2@, c3@, l);
                assert(w == walk::walked(old(self).words(l), h[l]));
                assert(w.chains[0] == c0[l] && w.chains[1] == c1[l]);
                assert(w.chains[2] == c2[l] && w.chains[3] == c3[l]);
                assert(states[l]@ =~= walk::outcome(old(self).words(l), h[l]));
            }
        }
        states
    }

    /// Fills and walks every lane, interleaved.
    pub fn fill_and_walk_batch_generic(&mut self, seeds: &[[u8; 32]; LANES]) -> (states: [[u32;
        5]; LANES])
        requires
            old(self).wf(),
        ensures
            final(self).wf(),
            final(self).tuning() == old(self).tuning(),
            final(self).left_by(seeds@, states@),
    {
        let h: [u32; LANES] = self.fill_lanes(seeds);
        let ghost filled = *self;
        let states = self.walk_lanes(&h);
        proof {
            assert forall|l: int|
                #![trigger states[l]]
                #![trigger self.words(l)]
                0 <= l < LANES implies {
                &&& states[l]@ == sandglass::state_of(seeds[l]@)
                &&& self.words(l) == sandglass::scratch_after(seeds[l]@)
            } by {
                assert(filled.words(l) == fill::filled(seeds[l]@));
                assert(h[l] == fill::last_word(seeds[l]@));
            }
        }
        states
    }

    /// Fills and walks every lane from its own seed and returns each walk's
    /// state. A batch of two lanes may be tuned to use the unrolled kernel.
    pub fn fill_and_walk_batch(&mut self, seeds: &[[u8; 32]; LANES]) -> (states: [[u32; 5]; LANES])
        requires
            old(self).wf(),
        ensures
            final(self).wf(),
            final(self).tuning() == old(self).tuning(),
            final(self).left_by(seeds@, states@),
    {
        if LANES == 2 && self.tuning.pair_kernel {
            let pair: [[u8; 32]; 2] = [seeds[0], seeds[1]];
            let both: [[u32; 5]; 2] = fill_and_walk_batch_l2(
                &mut self.scratches,
                &pair,
                self.tuning.prefetch,
            );
            let mut states: [[u32; 5]; LANES] = [[0u32; 5]; LANES];
            states[0] = both[0];
            states[1] = both[1];
            return states;
        }
        self.fill_and_walk_batch_generic(seeds)
    }

    /// The Sandglass digest of each header.
    pub fn hash_batch(&mut self, headers: &[[u8; HEADER_LEN]; LANES]) -> (digests: [[u8;
        32]; LANES])
        requires
            old(self).wf(),
        ensures
            final(self).wf(),
            final(self).tuning() == old(self).tuning(),
            forall|l: int|
                0 <= l < LANES ==> (#[trigger] digests[l])@ == sandglass::digest_of(headers[l]@),
            forall|l: int|
                0 <= l < LANES ==> #[trigger] final(self).words(l) == sandglass::scratch_after(
                    sha::sha256_of(headers[l]@),
                ),
    {
        let mut seeds: [[u8; 32]; LANES] = [[0u8; 32]; LANES];
        let mut lane: usize = 0;
        while lane < LANES
            invariant
                lane <= LANES,
                forall|l: int|
                    0 <= l < lane ==> (#[trigger] seeds[l])@ == sha::sha256_of(headers[l]@),
            decreases LANES - lane,
        {
            seeds[lane] = seed_of(&headers[lane]);
            lane = lane + 1;
        }
        let states = self.fill_and_walk_batch(&seeds);
        let mut digests: [[u8; 32]; LANES] = [[0u8; 32]; LANES];
        let mut lane: usize = 0;
        while lane < LANES
            invariant
                lane <= LANES,
                forall|l: int|
                    0 <= l < LANES ==> (#[trigger] seeds[l])@ == sha::sha256_of(headers[l]@),
                forall|l: int|
                    0 <= l < LANES ==> (#[trigger] states[l])@ == sandglass::state_of(seeds[l]@),
                forall|l: int|
                    0 <= l < lane ==> (#[trigger] digests[l])@ == sandglass::digest_of(
                        headers[l]@,
                    ),
            decreases LANES - lane,
        {
            digests[lane] = sha::sha256(&final_input(&seeds[lane], &states[lane]));
            lane = lane + 1;
        }
        digests
    }

    /// A batch with fresh scratches and everything in `Tuning` switched off.
    pub fn new() -> (batch: Self)
        requires
            LANES > 0,
        ensures
            batch.wf(),
            batch.tuning() == (Tuning { gather: false, prefetch: false, pair_kernel: false }),
            forall|l: int|
                0 <= l < LANES ==> #[trigger] batch.words(l) == Seq::new(
                    WORDS as nat,
                    |i: int| 0u32,
                ),
    {
        let mut scratches: Vec<Scratch> = Vec::with_capacity(LANES);
        let mut lane: usize = 0;
        while lane < LANES
            invariant
                lane <= LANES,
                scratches_wf(scratches@, lane as int),
                forall|l: int|
                    0 <= l < lane ==> (#[trigger] scratches@[l])@ == Seq::new(
                        WORDS as nat,
                        |i: int| 0u32,
                    ),
            decreases LANES - lane,
        {
            scratches.push(Scratch::new());
            lane = lane + 1;
        }
        SandglassBatch { scratches, tuning: Tuning::plain() }
    }

    /// How the batch goes about its work.
    pub fn tuned(&self) -> (tuning: Tuning)
        ensures
            tuning == self.tuning(),
    {
        self.tuning
    }

    /// A batch on the given scratches, one to a lane.
    pub fn with_scratches(scratches: Vec<Scratch>, tuning: Tuning) -> (batch: Self)
        requires
            LANES > 0,
            scratches@.len() == LANES,
            forall|l: int| 0 <= l < LANES ==> (#[trigger] scratches@[l]).wf(),
        ensures
            batch.wf(),
            batch.tuning() == tuning,
            forall|l: int| 0 <= l < LANES ==> #[trigger] batch.words(l) == scratches@[l]@,
    {
        SandglassBatch { scratches, tuning }
    }
}

impl<const LANES: usize> Default for SandglassBatch<LANES> {
    /// What `new` gives. A batch without lanes is of no use: it is not in order,
    /// and nothing can be asked of it.
    fn default() -> (batch: Self)
        ensures
            batch.wf() <==> LANES > 0,
            batch.tuning() == (Tuning { gather: false, prefetch: false, pair_kernel: false }),
            forall|l: int|
                0 <= l < LANES ==> #[trigger] batch.words(l) == Seq::new(
                    WORDS as nat,
                    |i: int| 0u32,
                ),
    {
        if LANES == 0 {
            return SandglassBatch { scratches: Vec::new(), tuning: Tuning::plain() };
        }
        Self::new()
    }
}

impl SandglassBatch<2> {
    /// Fills both scratches and returns the last word of each, without walking.
    pub fn fill_only(&mut self, seeds: &[[u8; 32]; 2]) -> (h: [u32; 2])
        requires
            old(self).wf(),
        ensures
            final(self).wf(),
            final(self).tuning() == old(self).tuning(),
            forall|l: int|
                0 <= l < 2 ==> #[trigger] final(self).words(l) == fill::filled(seeds[l]@),
            forall|l: int| 0 <= l < 2 ==> #[trigger] h[l] == fill::last_word(seeds[l]@),
    {
        fill_batch_l2(&mut self.scratches, seeds)
    }

    /// Walks both scratches as they stand, each from its own `h`.
    pub fn walk_only(&mut self, h: [u32; 2]) -> (states: [[u32; 5]; 2])
        requires
            old(self).wf(),
        ensures
            final(self).wf(),
            final(self).tuning() == old(self).tuning(),
            forall|l: int|
                0 <= l < 2 ==> (#[trigger] states[l])@ == walk::outcome(old(self).words(l), h[l]),
            forall|l: int|
                0 <= l < 2 ==> #[trigger] final(self).words(l) == walk::walked(
                    old(self).words(l),
                    h[l],
                ).words,
    {
        walk_batch_l2(&mut self.scratches, h, self.tuning.prefetch)
    }
}

/// A lane's state and scratch come from its own seed alone: neither the other
/// lanes nor how many there are, neither the scratch's earlier words nor the
/// tuning have any part in them.
pub proof fn law_lane_depends_on_its_seed_alone<const P: usize, const Q: usize>(
    seeds: Seq<[u8; 32]>,
    states: Seq<[u32; 5]>,
    batch: SandglassBatch<P>,
    lane: int,
    other_seeds: Seq<[u8; 32]>,
    other_states: Seq<[u32; 5]>,
    other_batch: SandglassBatch<Q>,
    other_lane: int,
)
    requires
        batch.left_by(seeds, states),
        other_batch.left_by(other_seeds, other_states),
        0 <= lane < P,
        0 <= other_lane < Q,
        seeds[lane] == other_seeds[other_lane],
    ensures
        states[lane]@ == other_states[other_lane]@,
        batch.words(lane) == other_batch.words(other_lane),
{
}

/// A lane comes to the state and the scratch that a single hasher comes to from
/// the lane's seed.
pub proof fn law_lane_matches_single_hasher<const LANES: usize>(
    seeds: Seq<[u8; 32]>,
    states: Seq<[u32; 5]>,
    batch: SandglassBatch<LANES>,
    lane: int,
    state: [u32; 5],
    hasher: Sandglass,
)
    requires
        batch.left_by(seeds, states),
        0 <= lane < LANES,
        state@ == sandglass::state_of(seeds[lane]@),
        hasher.words() == sandglass::scratch_after(seeds[lane]@),
    ensures
        states[lane]@ == state@,
        batch.words(lane) == hasher.words(),
{
}

/// Fills and walks two lanes, unrolled.
pub fn fill_and_walk_batch_l2(
    scratches: &mut Vec<Scratch>,
    seeds: &[[u8; 32]; 2],
    prefetch: bool,
) -> (states: [[u32; 5]; 2])
    requires
        scratches_wf(old(scratches)@, 2),
    ensures
        scratches_wf(final(scratches)@, 2),
        forall|l: int| 0 <= l < 2 ==> (#[trigger] states[l])@ == sandglass::state_of(seeds[l]@),
        forall|l: int|
            0 <= l < 2 ==> (#[trigger] final(scratches)@[l])@ == sandglass::scratch_after(
                seeds[l]@,
            ),
{
    let h = fill_batch_l2(scratches, seeds);
    let ghost filled = scratches@;
    let states = walk_batch_l2(scratches, h, prefetch);
    proof {
        assert(filled[0]@ == fill::filled(seeds[0]@) && filled[1]@ == fill::filled(seeds[1]@));
        assert(h[0] == fill::last_word(seeds[0]@) && h[1] == fill::last_word(seeds[1]@));
    }
    states
}

/// Fills two scratches with both streams of writes in flight.
pub fn fill_batch_l2(scratches: &mut Vec<Scratch>, seeds: &[[u8; 32]; 2]) -> (h: [u32; 2])
    requires
        scratches_wf(old(scratches)@, 2),
    ensures
        scratches_wf(final(scratches)@, 2),
        forall|l: int|
            0 <= l < 2 ==> (#[trigger] final(scratches)@[l])@ == fill::filled(seeds[l]@),
        forall|l: int| 0 <= l < 2 ==> #[trigger] h[l] == fill::last_word(seeds[l]@),
{
    let words0 = seed_words(&seeds[0]);
    let words1 = seed_words(&seeds[1]);
    let mut h0: u32 = mix(words0[0] ^ GOLDEN);
    let mut h1: u32 = mix(words1[0] ^ GOLDEN);
    let mut index: usize = 0;
    while index < WORDS
        invariant
            index <= WORDS,
            scratches_wf(scratches@, 2),
            forall|i: int| 0 <= i < 8 ==> #[trigger] words0[i] == bytes::be_word(seeds[0]@, i),
            forall|i: int| 0 <= i < 8 ==> #[trigger] words1[i] == bytes::be_word(seeds[1]@, i),
            h0 == fill::fill_word(seeds[0]@, index as nat),
            h1 == fill::fill_word(seeds[1]@, index as nat),
            forall|i: int|
                0 <= i < index ==> #[trigger] scratches@[0]@[i] == fill::fill_word(
                    seeds[0]@,
                    (i + 1) as nat,
                ),
            forall|i: int|
                0 <= i < index ==> #[trigger] scratches@[1]@[i] == fill::fill_word(
                    seeds[1]@,
                    (i + 1) as nat,
                ),
        decreases WORDS - index,
    {
        h0 = next_fill_word(h0, &words0, index);
        h1 = next_fill_word(h1, &words1, index);
        scratches[0].put(index, h0);
        scratches[1].put(index, h1);
        index = index + 1;
    }
    proof {
        assert(scratches@[0].wf() && scratches@[1].wf());
        assert(scratches@[0]@ =~= fill::filled(seeds[0]@));
        assert(scratches@[1]@ =~= fill::filled(seeds[1]@));
    }
    [h0, h1]
}

/// Lets one chain of each of two lanes take its turn of round `step`.
#[inline]
fn turn_pair(
    scratches: &mut Vec<Scratch>,
    first: Chain,
    second: Chain,
    step: u32,
    prefetch: bool,
) -> (next: (Chain, Chain))
    requires
        scratches_wf(old(scratches)@, 2),
        first.index < WORDS,
        second.index < WORDS,
    ensures
        scratches_wf(final(scratches)@, 2),
        next.0.index < WORDS,
        next.1.index < WORDS,
        next.0 == walk::chain_next(old(scratches)@[0]@, first),
        next.1 == walk::chain_next(old(scratches)@[1]@, second),
        final(scratches)@[0]@ == walk::written(old(scratches)@[0]@, first, next.0, step),
        final(scratches)@[1]@ == walk::written(old(scratches)@[1]@, second, next.1, step),
{
    let n0 = take_turn(&mut scratches[0], first, step);
    let n1 = take_turn(&mut scratches[1], second, step);
    if prefetch {
        scratches[0].prefetch(n0.index as usize);
        scratches[1].prefetch(n1.index as usize);
    }
    (n0, n1)
}

/// Takes two lanes through round `step` of their walks, unrolled.
#[inline]
fn round_pair(
    scratches: &mut Vec<Scratch>,
    first: [Chain; 4],
    second: [Chain; 4],
    step: u32,
    prefetch: bool,
) -> (next: ([Chain; 4], [Chain; 4]))
    requires
        scratches_wf(old(scratches)@, 2),
        in_range(first@),
        in_range(second@),
    ensures
        scratches_wf(final(scratches)@, 2),
        in_range(next.0@),
        in_range(next.1@),
        (Walk { words: final(scratches)@[0]@, chains: next.0@ }) == walk::ordered_round(
            Walk { words: old(scratches)@[0]@, chains: first@ },
            step,
        ),
        (Walk { words: final(scratches)@[1]@, chains: next.1@ }) == walk::ordered_round(
            Walk { words: old(scratches)@[1]@, chains: second@ },
            step,
        ),
{
    let (a0, b0) = turn_pair(scratches, first[0], second[0], step, prefetch);
    let (a1, b1) = turn_pair(scratches, first[1], second[1], step, prefetch);
    let (a2, b2) = turn_pair(scratches, first[2], second[2], step, prefetch);
    let (a3, b3) = turn_pair(scratches, first[3], second[3], step, prefetch);
    let a: [Chain; 4] = [a0, a1, a2, a3];
    let b: [Chain; 4] = [b0, b1, b2, b3];
    proof {
        walk::lemma_four_turns(old(scratches)@[0]@, first@, a@, step);
        walk::lemma_four_turns(old(scratches)@[1]@, second@, b@, step);
    }
    (a, b)
}

/// Walks two scratches, unrolled.
pub fn walk_batch_l2(scratches: &mut Vec<Scratch>, h: [u32; 2], prefetch: bool) -> (states: [[u32;
    5]; 2])
    requires
        scratches_wf(old(scratches)@, 2),
    ensures
        scratches_wf(final(scratches)@, 2),
        forall|l: int|
            0 <= l < 2 ==> (#[trigger] states[l])@ == walk::outcome(old(scratches)@[l]@, h[l]),
        forall|l: int|
            0 <= l < 2 ==> (#[trigger] final(scratches)@[l])@ == walk::walked(
                old(scratches)@[l]@,
                h[l],
            ).words,
{
    let mut first: [Chain; 4] = init_walk_chains(h[0]);
    let mut second: [Chain; 4] = init_walk_chains(h[1]);
    let ghost start0 = walk::opening(scratches@[0]@, h[0]);
    let ghost start1 = walk::opening(scratches@[1]@, h[1]);
    proof {
        walk::lemma_first_chains_in_range(h[0]);
        walk::lemma_first_chains_in_range(h[1]);
    }
    let mut step: u32 = 0;
    while step < PER_CHAIN
        invariant
            step <= PER_CHAIN,
            scratches_wf(scratches@, 2),
            in_range(first@),
            in_range(second@),
            (Walk { words: scratches@[0]@, chains: first@ }) == walk::after(
                start0,
                4 * step as nat,
            ),
            (Walk { words: scratches@[1]@, chains: second@ }) == walk::after(
                start1,
                4 * step as nat,
            ),
        decreases PER_CHAIN - step,
    {
        let (a, b) = round_pair(scratches, first, second, step, prefetch);
        first = a;
        second = b;
        proof {
            walk::lemma_round(start0, step);
            walk::lemma_round(start1, step);
        }
        step = step + 1;
    }
    [close_walk(h[0], first), close_walk(h[1], second)]
}

} // verus!
