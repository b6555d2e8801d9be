//! The walk: four chains that read, mix and rewrite the scratch in turn.
use crate::mixer;
use crate::mixer::{mix, mix4, GOLDEN};
use crate::scratch;
use crate::scratch::{Scratch, MASK, WORDS};
use vstd::prelude::*;

verus! {

/// How many turns each chain of a walk takes.
pub const PER_CHAIN: u32 = 0x8_0000;

/// One chain of a walk: what it has accumulated, and the word it visits next.
#[derive(Clone, Copy)]
pub struct Chain {
    pub acc: u32,
    pub index: u32,
}

/// A walk in progress: the scratch and the four chains on it.
#[verifier::ext_equal]
pub struct Walk {
    pub words: Seq<u32>,
    pub chains: Seq<Chain>,
}

/// A walk of four chains that all stand inside a full scratch.
pub open spec fn walk_wf(walk: Walk) -> bool {
    &&& walk.words.len() == WORDS
    &&& walk.chains.len() == 4
    &&& forall|c: int| 0 <= c < 4 ==> (#[trigger] walk.chains[c]).index < WORDS
}

/// The chain after one turn on `words`: it mixes the word it stands on into
/// its accumulator, and goes where the accumulator's low bits point.
pub open spec fn chain_next(words: Seq<u32>, chain: Chain) -> Chain {
    let acc = mixer::mixed(chain.acc ^ words[chain.index as int]);
    Chain { acc, index: acc & MASK }
}

/// The walk after chain `c` has taken its turn of round `step`: the word that
/// the chain stood on now holds its new accumulator plus the round's number.
pub open spec fn turn(walk: Walk, c: int, step: u32) -> Walk {
    let next = chain_next(walk.words, walk.chains[c]);
    Walk {
        words: walk.words.update(walk.chains[c].index as int, next.acc.wrapping_add(step)),
        chains: walk.chains.update(c, next),
    }
}

/// The walk after `turns` turns: the chains take turns in order, four to a
/// round.
pub open spec fn after(start: Walk, turns: nat) -> Walk
    decreases turns,
{
    if turns == 0 {
        start
    } else {
        turn(after(start, (turns - 1) as nat), (turns - 1) % 4, ((turns - 1) / 4) as u32)
    }
}

/// The walk after round `step`: one turn of each chain, in order.
pub open spec fn ordered_round(walk: Walk, step: u32) -> Walk {
    turn(turn(turn(turn(walk, 0, step), 1, step), 2, step), 3, step)
}

/// The walk after one round in which all four chains read before any writes.
pub open spec fn gathered_round(walk: Walk, step: u32) -> Walk {
    let next = Seq::new(4, |c: int| chain_next(walk.words, walk.chains[c]));
    Walk {
        words: walk.words.update(
            walk.chains[0].index as int,
            next[0].acc.wrapping_add(step),
        ).update(walk.chains[1].index as int, next[1].acc.wrapping_add(step)).update(
            walk.chains[2].index as int,
            next[2].acc.wrapping_add(step),
        ).update(walk.chains[3].index as int, next[3].acc.wrapping_add(step)),
        chains: next,
    }
}

/// The word that chain number `n` of a walk from `h` is drawn from, counting
/// the chains from one; each is mixed from the one before.
pub open spec fn drawn(h: u32, n: nat) -> u32
    decreases n,
{
    if n == 0 {
        h
    } else {
        mixer::mixed(drawn(h, (n - 1) as nat) ^ n as u32)
    }
}

/// Chain `c` of a walk from `h`, before its first turn.
pub open spec fn first_chain(h: u32, c: int) -> Chain {
    let x = drawn(h, (c + 1) as nat);
    Chain { acc: mixer::mixed(x ^ GOLDEN), index: x & MASK }
}

/// The walk from `h` over `words`, before its first turn.
pub open spec fn opening(words: Seq<u32>, h: u32) -> Walk {
    Walk { words, chains: Seq::new(4, |c: int| first_chain(h, c)) }
}

/// The walk from `h` over `words`, after its last turn.
pub open spec fn walked(words: Seq<u32>, h: u32) -> Walk {
    after(opening(words, h), 4 * PER_CHAIN as nat)
}

/// What a walk from `h` over `words` leaves: `h` and the four accumulators.
pub open spec fn outcome(words: Seq<u32>, h: u32) -> Seq<u32> {
    let chains = walked(words, h).chains;
    seq![h, chains[0].acc, chains[1].acc, chains[2].acc, chains[3].acc]
}

/// Two of the four indices are the same.
pub open spec fn collide(i0: u32, i1: u32, i2: u32, i3: u32) -> bool {
    !seq![i0, i1, i2, i3].no_duplicates()
}

/// The four chains begin as a walk from `h` has them. Each is drawn from a word
/// that is mixed from the one before, against the chain's number.
pub open spec fn begins_from(chains: Seq<Chain>, h: u32) -> bool {
    let x1 = mixer::mixed(h ^ 1);
    let x2 = mixer::mixed(x1 ^ 2);
    let x3 = mixer::mixed(x2 ^ 3);
    let x4 = mixer::mixed(x3 ^ 4);
    &&& chains.len() == 4
    &&& chains[0].index == x1 as int % 0x2_0000
    &&& chains[1].index == x2 as int % 0x2_0000
    &&& chains[2].index == x3 as int % 0x2_0000
    &&& chains[3].index == x4 as int % 0x2_0000
    &&& chains[0].acc == mixer::mixed(x1 ^ 0x9e37_79b9)
    &&& chains[1].acc == mixer::mixed(x2 ^ 0x9e37_79b9)
    &&& chains[2].acc == mixer::mixed(x3 ^ 0x9e37_79b9)
    &&& chains[3].acc == mixer::mixed(x4 ^ 0x9e37_79b9)
}

/// From one state of a walk to the next, chain `c` takes its turn of round
/// `step`, and nothing else happens.
pub open spec fn moves_on(before: Walk, after: Walk, c: int, step: int) -> bool {
    let place = before.chains[c].index as int;
    let acc = after.chains[c].acc;
    &&& after.words.len() == before.words.len()
    &&& after.chains.len() == before.chains.len()
    &&& acc == mixer::mixed(before.chains[c].acc ^ before.words[place])
    &&& after.chains[c].index == acc as int % 0x2_0000
    &&& after.words[place] == (acc + step) % 0x1_0000_0000
    &&& forall|i: int|
        0 <= i < before.words.len() && i != place ==> #[trigger] after.words[i] == before.words[i]
    &&& forall|d: int|
        0 <= d < before.chains.len() && d != c ==> #[trigger] after.chains[d] == before.chains[d]
}

/// Turn `k` of a walk leads from state `k` to the next: the chains take turns in
/// order, four turns to a round.
pub open spec fn takes_turn(states: Seq<Walk>, k: int) -> bool {
    moves_on(states[k], states[k + 1], k % 4, k / 4)
}

/// The states of a whole walk from `h` over `words`: two to the power of 21
/// turns.
pub open spec fn walks(states: Seq<Walk>, words: Seq<u32>, h: u32) -> bool {
    &&& states.len() == 0x20_0001
    &&& states[0].words == words
    &&& begins_from(states[0].chains, h)
    &&& forall|k: int| 0 <= k < 0x20_0000 ==> #[trigger] takes_turn(states, k)
}

/// The low bits that address the scratch are the remainder by its size.
proof fn lemma_mask_is_remainder(word: u32)
    ensures
        word & MASK == word as int % 0x2_0000,
{
    assert(word & 0x1_ffff == word % 0x2_0000) by (bit_vector);
}

/// A walk from `h` begins with the four chains that are drawn from `h`.
pub proof fn law_walk_begins_from_its_word(words: Seq<u32>, h: u32)
    ensures
        opening(words, h).words == words,
        begins_from(opening(words, h).chains, h),
        ({
            let x1 = mixer::mixed(h ^ 1);
            let x2 = mixer::mixed(x1 ^ 2);
            let x3 = mixer::mixed(x2 ^ 3);
            let x4 = mixer::mixed(x3 ^ 4);
            opening(words, h).chains == seq![
                Chain { acc: mixer::mixed(x1 ^ 0x9e37_79b9), index: x1 & 0x1_ffff },
                Chain { acc: mixer::mixed(x2 ^ 0x9e37_79b9), index: x2 & 0x1_ffff },
                Chain { acc: mixer::mixed(x3 ^ 0x9e37_79b9), index: x3 & 0x1_ffff },
                Chain { acc: mixer::mixed(x4 ^ 0x9e37_79b9), index: x4 & 0x1_ffff },
            ]
        }),
{
    reveal_with_fuel(drawn, 5);
    lemma_mask_is_remainder(drawn(h, 1));
    lemma_mask_is_remainder(drawn(h, 2));
    lemma_mask_is_remainder(drawn(h, 3));
    lemma_mask_is_remainder(drawn(h, 4));
    let x1 = mixer::mixed(h ^ 1);
    let x2 = mixer::mixed(x1 ^ 2);
    let x3 = mixer::mixed(x2 ^ 3);
    let x4 = mixer::mixed(x3 ^ 4);
    assert(opening(words, h).chains =~= seq![
        Chain { acc: mixer::mixed(x1 ^ 0x9e37_79b9), index: x1 & 0x1_ffff },
        Chain { acc: mixer::mixed(x2 ^ 0x9e37_79b9), index: x2 & 0x1_ffff },
        Chain { acc: mixer::mixed(x3 ^ 0x9e37_79b9), index: x3 & 0x1_ffff },
        Chain { acc: mixer::mixed(x4 ^ 0x9e37_79b9), index: x4 & 0x1_ffff },
    ]);
}

/// Words that differ draw words that differ.
proof fn lemma_draws_differ(g: u32, h: u32, n: nat)
    requires
        g != h,
    ensures
        drawn(g, n) != drawn(h, n),
    decreases n,
{
    if n > 0 {
        lemma_draws_differ(g, h, (n - 1) as nat);
        let (a, b) = (drawn(g, (n - 1) as nat), drawn(h, (n - 1) as nat));
        let c = n as u32;
        assert(a != b ==> a ^ c != b ^ c) by (bit_vector);
        mixer::law_mixer_is_one_to_one(a ^ c, b ^ c);
    }
}

/// Walks from two different words begin with different accumulators, in every
/// chain.
pub proof fn law_walks_begin_apart(words: Seq<u32>, g: u32, h: u32)
    requires
        g != h,
    ensures
        forall|c: int|
            0 <= c < 4 ==> (#[trigger] opening(words, g).chains[c]).acc != opening(
                words,
                h,
            ).chains[c].acc,
{
    assert forall|c: int| 0 <= c < 4 implies (#[trigger] opening(words, g).chains[c]).acc
        != opening(words, h).chains[c].acc by {
        lemma_draws_differ(g, h, (c + 1) as nat);
        let (a, b) = (drawn(g, (c + 1) as nat), drawn(h, (c + 1) as nat));
        assert(a != b ==> a ^ 0x9e37_79b9 != b ^ 0x9e37_79b9) by (bit_vector);
        mixer::law_mixer_is_one_to_one(a ^ GOLDEN, b ^ GOLDEN);
    }
}

/// A turn changes one word and one chain: the chain mixes the word it stands on
/// into its accumulator, leaves the accumulator plus the round's number in that
/// word's place, and goes where the accumulator's low bits point.
pub proof fn law_turn_changes_one_word_and_one_chain(walk: Walk, c: int, step: u32)
    requires
        walk_wf(walk),
        0 <= c < 4,
    ensures
        moves_on(walk, turn(walk, c, step), c, step as int),
{
    lemma_mask_is_remainder(turn(walk, c, step).chains[c].acc);
}

/// Whatever states lead from the opening through all the turns, the walk's
/// outcome and the scratch it leaves are those of the last one.
pub proof fn law_walk_takes_all_turns(states: Seq<Walk>, words: Seq<u32>, h: u32)
    requires
        words.len() == 0x2_0000,
        walks(states, words, h),
    ensures
        walked(words, h).words == states[0x20_0000].words,
        outcome(words, h).len() == 5,
        outcome(words, h)[0] == h,
        outcome(words, h)[1] == states[0x20_0000].chains[0].acc,
        outcome(words, h)[2] == states[0x20_0000].chains[1].acc,
        outcome(words, h)[3] == states[0x20_0000].chains[2].acc,
        outcome(words, h)[4] == states[0x20_0000].chains[3].acc,
{
    lemma_states_are_turns(states, words, h, 0x20_0000);
}

/// State `k` of a walk is the one after `k` turns.
proof fn lemma_states_are_turns(states: Seq<Walk>, words: Seq<u32>, h: u32, k: nat)
    requires
        words.len() == 0x2_0000,
        walks(states, words, h),
        k <= 0x20_0000,
    ensures
        states[k as int] == after(opening(words, h), k),
    decreases k,
{
    if k == 0 {
        law_walk_begins_from_its_word(words, h);
        assert(states[0].chains =~= opening(words, h).chains);
    } else {
        let last = k - 1;
        lemma_states_are_turns(states, words, h, last as nat);
        law_walk_stays_in_scratch(words, h, last as nat);
        let before = states[last];
        let (c, step) = (last % 4, (last / 4) as u32);
        assert(takes_turn(states, last));
        law_turn_changes_one_word_and_one_chain(before, c, step);
        let next = turn(before, c, step);
        assert(next.chains[c] == states[k as int].chains[c]);
        assert(next.chains =~= states[k as int].chains);
        assert(next.words =~= states[k as int].words);
    }
}

/// Chains collide where any two of them stand on one word.
pub proof fn law_any_two_collide(i0: u32, i1: u32, i2: u32, i3: u32)
    ensures
        collide(i0, i1, i2, i3) <==> (i0 == i1 || i0 == i2 || i0 == i3 || i1 == i2 || i1 == i3 || i2
            == i3),
{
    let indices = seq![i0, i1, i2, i3];
    assert(indices[0] == i0 && indices[1] == i1 && indices[2] == i2 && indices[3] == i3);
}

/// A turn leaves four chains inside a full scratch.
pub proof fn lemma_turn_wf(walk: Walk, c: int, step: u32)
    requires
        walk_wf(walk),
        0 <= c < 4,
    ensures
        walk_wf(turn(walk, c, step)),
{
    let next = chain_next(walk.words, walk.chains[c]);
    scratch::lemma_masked_in_range(next.acc);
}

/// The four chains of a walk begin inside the scratch.
pub proof fn lemma_first_chains_in_range(h: u32)
    ensures
        forall|c: int| 0 <= c < 4 ==> (#[trigger] first_chain(h, c)).index < WORDS,
{
    assert forall|c: int| 0 <= c < 4 implies (#[trigger] first_chain(h, c)).index < WORDS by {
        scratch::lemma_masked_in_range(drawn(h, (c + 1) as nat));
    }
}

/// Every walk from a full scratch stays inside it, however many turns it takes.
pub proof fn law_walk_stays_in_scratch(words: Seq<u32>, h: u32, turns: nat)
    requires
        words.len() == WORDS,
    ensures
        walk_wf(after(opening(words, h), turns)),
    decreases turns,
{
    if turns == 0 {
        lemma_first_chains_in_range(h);
    } else {
        law_walk_stays_in_scratch(words, h, (turns - 1) as nat);
        lemma_turn_wf(
            after(opening(words, h), (turns - 1) as nat),
            (turns - 1) % 4,
            ((turns - 1) / 4) as u32,
        );
    }
}

/// When the four chains stand on four different words, reading all four before
/// writing any is the same as the four ordered turns.
pub proof fn law_gather_matches_ordered_turns(walk: Walk, step: u32)
    requires
        walk_wf(walk),
        !collide(
            walk.chains[0].index,
            walk.chains[1].index,
            walk.chains[2].index,
            walk.chains[3].index,
        ),
    ensures
        gathered_round(walk, step) == ordered_round(walk, step),
{
    let indices = seq![
        walk.chains[0].index,
        walk.chains[1].index,
        walk.chains[2].index,
        walk.chains[3].index,
    ];
    assert(indices[0] != indices[1] && indices[0] != indices[2] && indices[0] != indices[3]);
    assert(indices[1] != indices[2] && indices[1] != indices[3] && indices[2] != indices[3]);
    assert(gathered_round(walk, step) =~= ordered_round(walk, step));
}

/// Round `step` of a walk is what its turns from number `4 * step` on do.
pub proof fn lemma_round(start: Walk, step: u32)
    ensures
        after(start, 4 * (step + 1) as nat) == ordered_round(after(start, 4 * step as nat), step),
{
    reveal_with_fuel(after, 5);
    assert((4 * step + 3) as nat / 4 == step && (4 * step + 2) as nat / 4 == step);
    assert((4 * step + 1) as nat / 4 == step);
}

/// The scratch after chain `from` has taken its turn of round `step` and has
/// become `to`.
pub open spec fn written(words: Seq<u32>, from: Chain, to: Chain, step: u32) -> Seq<u32> {
    words.update(from.index as int, to.acc.wrapping_add(step))
}

/// Four chains that each take one turn, in order, make a round.
pub proof fn lemma_four_turns(words: Seq<u32>, from: Seq<Chain>, to: Seq<Chain>, step: u32)
    requires
        from.len() == 4,
        to.len() == 4,
        to[0] == chain_next(words, from[0]),
        to[1] == chain_next(written(words, from[0], to[0], step), from[1]),
        to[2] == chain_next(
            written(written(words, from[0], to[0], step), from[1], to[1], step),
            from[2],
        ),
        to[3] == chain_next(
            written(
                written(written(words, from[0], to[0], step), from[1], to[1], step),
                from[2],
                to[2],
                step,
            ),
            from[3],
        ),
    ensures
        ordered_round(Walk { words, chains: from }, step) == (Walk {
            words: written(
                written(
                    written(written(words, from[0], to[0], step), from[1], to[1], step),
                    from[2],
                    to[2],
                    step,
                ),
                from[3],
                to[3],
                step,
            ),
            chains: to,
        }),
{
    assert(ordered_round(Walk { words, chains: from }, step).chains =~= to);
}

/// Whether two of the four indices are the same.
pub fn has_collision(i0: u32, i1: u32, i2: u32, i3: u32) -> (found: bool)
    ensures
        found == collide(i0, i1, i2, i3),
{
    let found: bool = i0 == i1 || i0 == i2 || i0 == i3 || i1 == i2 || i1 == i3 || i2 == i3;
    proof {
        let indices = seq![i0, i1, i2, i3];
        if found {
            assert(indices[0] == indices[1] || indices[0] == indices[2] || indices[0] == indices[3]
                || indices[1] == indices[2] || indices[1] == indices[3] || indices[2]
                == indices[3]);
        }
    }
    found
}

/// The four chains of a walk from `h`, before their first turn.
pub fn init_walk_chains(h: u32) -> (chains: [Chain; 4])
    ensures
        chains@ == opening(Seq::empty(), h).chains,
{
    proof {
        reveal_with_fuel(drawn, 5);
    }
    let x: u32 = mix(h ^ 1);
    let c0 = Chain { acc: mix(x ^ GOLDEN), index: x & MASK };
    let x: u32 = mix(x ^ 2);
    let c1 = Chain { acc: mix(x ^ GOLDEN), index: x & MASK };
    let x: u32 = mix(x ^ 3);
    let c2 = Chain { acc: mix(x ^ GOLDEN), index: x & MASK };
    let x: u32 = mix(x ^ 4);
    let c3 = Chain { acc: mix(x ^ GOLDEN), index: x & MASK };
    let chains: [Chain; 4] = [c0, c1, c2, c3];
    assert(chains@ =~= opening(Seq::empty(), h).chains);
    chains
}

/// Lets `chain` take its turn of round `step` on the scratch.
#[inline]
pub fn take_turn(scratch: &mut Scratch, chain: Chain, step: u32) -> (next: Chain)
    requires
        old(scratch).wf(),
        chain.index < WORDS,
    ensures
        final(scratch).wf(),
        next == chain_next(old(scratch)@, chain),
        next.index < WORDS,
        final(scratch)@ == written(old(scratch)@, chain, next, step),
{
    let index: usize = chain.index as usize;
    let acc: u32 = mix(chain.acc ^ scratch.get(index));
    scratch.put(index, acc.wrapping_add(step));
    proof {
        scratch::lemma_masked_in_range(acc);
    }
    Chain { acc, index: acc & MASK }
}

/// Lets the four chains take their turns of round `step` in order. With
/// `PREFETCH` each chain touches the word of its next turn ahead of time.
#[inline]
pub fn ordered_turns<const PREFETCH: bool>(
    scratch: &mut Scratch,
    chains: [Chain; 4],
    step: u32,
) -> (next: [Chain; 4])
    requires
        walk_wf(Walk { words: old(scratch)@, chains: chains@ }),
    ensures
        walk_wf(Walk { words: final(scratch)@, chains: next@ }),
        (Walk { words: final(scratch)@, chains: next@ }) == ordered_round(
            Walk { words: old(scratch)@, chains: chains@ },
            step,
        ),
{
    let ghost w0 = Walk { words: scratch@, chains: chains@ };
    assert(w0.chains[0].index < WORDS && w0.chains[1].index < WORDS);
    assert(w0.chains[2].index < WORDS && w0.chains[3].index < WORDS);
    let n0 = take_turn(scratch, chains[0], step);
    if PREFETCH {
        scratch.prefetch(n0.index as usize);
    }
    let n1 = take_turn(scratch, chains[1], step);
    if PREFETCH {
        scratch.prefetch(n1.index as usize);
    }
    let n2 = take_turn(scratch, chains[2], step);
    if PREFETCH {
        scratch.prefetch(n2.index as usize);
    }
    let n3 = take_turn(scratch, chains[3], step);
    if PREFETCH {
        scratch.prefetch(n3.index as usize);
    }
    let next: [Chain; 4] = [n0, n1, n2, n3];
    proof {
        lemma_four_turns(w0.words, chains@, next@, step);
    }
    next
}

/// Reads the four chains' words together, mixes the four accumulators together
/// and then writes, for chains that stand on four different words.
#[inline]
pub fn gathered_turns(scratch: &mut Scratch, chains: [Chain; 4], step: u32) -> (next: [Chain; 4])
    requires
        walk_wf(Walk { words: old(scratch)@, chains: chains@ }),
        !collide(chains[0].index, chains[1].index, chains[2].index, chains[3].index),
    ensures
        walk_wf(Walk { words: final(scratch)@, chains: next@ }),
        (Walk { words: final(scratch)@, chains: next@ }) == ordered_round(
            Walk { words: old(scratch)@, chains: chains@ },
            step,
        ),
{
    let ghost w0 = Walk { words: scratch@, chains: chains@ };
    assert(w0.chains[0].index < WORDS && w0.chains[1].index < WORDS);
    assert(w0.chains[2].index < WORDS && w0.chains[3].index < WORDS);
    let i0: usize = chains[0].index as usize;
    let i1: usize = chains[1].index as usize;
    let i2: usize = chains[2].index as usize;
    let i3: usize = chains[3].index as usize;
    let accs: [u32; 4] = mix4(
        [
            chains[0].acc ^ scratch.get(i0),
            chains[1].acc ^ scratch.get(i1),
            chains[2].acc ^ scratch.get(i2),
            chains[3].acc ^ scratch.get(i3),
        ],
    );
    scratch.put(i0, accs[0].wrapping_add(step));
    scratch.put(i1, accs[1].wrapping_add(step));
    scratch.put(i2, accs[2].wrapping_add(step));
    scratch.put(i3, accs[3].wrapping_add(step));
    let next: [Chain; 4] = [
        Chain { acc: accs[0], index: accs[0] & MASK },
        Chain { acc: accs[1], index: accs[1] & MASK },
        Chain { acc: accs[2], index: accs[2] & MASK },
        Chain { acc: accs[3], index: accs[3] & MASK },
    ];
    proof {
        scratch::lemma_masked_in_range(accs[0]);
        scratch::lemma_masked_in_range(accs[1]);
        scratch::lemma_masked_in_range(accs[2]);
        scratch::lemma_masked_in_range(accs[3]);
        let gathered = gathered_round(w0, step);
        assert(gathered.chains =~= next@);
        assert(gathered.words == scratch@);
        law_gather_matches_ordered_turns(w0, step);
    }
    next
}

/// The accumulators of four chains, behind the `h` that their walk began from.
pub fn close_walk(h: u32, chains: [Chain; 4]) -> (state: [u32; 5])
    ensures
        state@ == seq![h, chains[0].acc, chains[1].acc, chains[2].acc, chains[3].acc],
{
    let state: [u32; 5] = [h, chains[0].acc, chains[1].acc, chains[2].acc, chains[3].acc];
    assert(state@ =~= seq![h, chains[0].acc, chains[1].acc, chains[2].acc, chains[3].acc]);
    state
}

/// Walks the scratch from `h`, one chain after the other.
pub fn walk_scalar<const PREFETCH: bool>(scratch: &mut Scratch, h: u32) -> (state: [u32; 5])
    requires
        old(scratch).wf(),
    ensures
        final(scratch).wf(),
        state@ == outcome(old(scratch)@, h),
        final(scratch)@ == walked(old(scratch)@, h).words,
{
    let ghost start = opening(scratch@, h);
    let mut chains: [Chain; 4] = init_walk_chains(h);
    let mut step: u32 = 0;
    proof {
        law_walk_stays_in_scratch(scratch@, h, 0);
    }
    while step < PER_CHAIN
        invariant
            step <= PER_CHAIN,
            walk_wf(Walk { words: scratch@, chains: chains@ }),
            (Walk { words: scratch@, chains: chains@ }) == after(start, 4 * step as nat),
        decreases PER_CHAIN - step,
    {
        chains = ordered_turns::<PREFETCH>(scratch, chains, step);
        proof {
            lemma_round(start, step);
        }
        step = step + 1;
    }
    close_walk(h, chains)
}

/// Walks the scratch from `h`, four chains side by side. A round in which two
/// chains stand on one word keeps to the order of turns.
pub fn walk_gathered(scratch: &mut Scratch, h: u32) -> (state: [u32; 5])
    requires
        old(scratch).wf(),
    ensures
        final(scratch).wf(),
        state@ == outcome(old(scratch)@, h),
        final(scratch)@ == walked(old(scratch)@, h).words,
{
    let ghost start = opening(scratch@, h);
    let mut chains: [Chain; 4] = init_walk_chains(h);
    let mut step: u32 = 0;
    proof {
        law_walk_stays_in_scratch(scratch@, h, 0);
    }
    while step < PER_CHAIN
        invariant
            step <= PER_CHAIN,
            walk_wf(Walk { words: scratch@, chains: chains@ }),
            (Walk { words: scratch@, chains: chains@ }) == after(start, 4 * step as nat),
        decreases PER_CHAIN - step,
    {
        if has_collision(chains[0].index, chains[1].index, chains[2].index, chains[3].index) {
            chains = ordered_turns::<false>(scratch, chains, step);
        } else {
            chains = gathered_turns(scratch, chains, step);
        }
        proof {
            lemma_round(start, step);
        }
        step = step + 1;
    }
    close_walk(h, chains)
}

/// The chains that a walk is given are the four that are drawn from its word.
pub proof fn law_chains_are_drawn_from_the_word(h: u32, chains: [Chain; 4])
    requires
        call_ensures(init_walk_chains, (h,), chains),
    ensures
        begins_from(chains@, h),
{
    law_walk_begins_from_its_word(Seq::empty(), h);
}

} // verus!
