//! The fill: a stream of words, drawn from a seed, that covers the scratch.
use crate::bytes;
use crate::bytes::read_be_word;
use crate::mixer;
use crate::mixer::{mix, GOLDEN};
use crate::scratch::{Scratch, WORDS};
use vstd::prelude::*;

verus! {

/// The fill's running word after `n` words: it starts from the seed's first
/// word and takes in the seed's eight words over and over.
pub open spec fn fill_word(seed: Seq<u8>, n: nat) -> u32
    decreases n,
{
    if n == 0 {
        mixer::mixed(bytes::be_word(seed, 0) ^ GOLDEN)
    } else {
        mixer::mixed(
            fill_word(seed, (n - 1) as nat).wrapping_add(GOLDEN).wrapping_add(
                bytes::be_word(seed, (n - 1) % 8),
            ),
        )
    }
}

/// The scratch that a fill from `seed` leaves.
pub open spec fn filled(seed: Seq<u8>) -> Seq<u32> {
    Seq::new(WORDS as nat, |i: int| fill_word(seed, (i + 1) as nat))
}

/// The last word of a fill from `seed`, which the walk begins from.
pub open spec fn last_word(seed: Seq<u8>) -> u32 {
    fill_word(seed, WORDS as nat)
}

/// The fill ends on the word that its last place holds.
pub proof fn law_fill_ends_on_last_place(seed: Seq<u8>)
    ensures
        filled(seed).len() == WORDS,
        filled(seed).last() == last_word(seed),
{
}

/// Word `n` of a fill is mixed from the one before it, the golden constant and
/// the seed's next word. The one before the first, which no place holds, is
/// mixed from the seed's first word against that constant.
pub open spec fn goes_on(words: Seq<u32>, seed: Seq<u8>, n: int) -> bool {
    let before = if n == 0 {
        mixer::mixed(bytes::be_word(seed, 0) ^ 0x9e37_79b9)
    } else {
        words[n - 1]
    };
    words[n] == mixer::mixed(
        ((before + 0x9e37_79b9 + bytes::be_word(seed, n % 8)) % 0x1_0000_0000) as u32,
    )
}

/// Every word of a filled scratch is mixed from the word before it, the golden
/// constant and the seed's next word; the first of all is mixed from the seed's
/// first word twice over.
pub proof fn law_fill_takes_in_its_seed(seed: Seq<u8>)
    ensures
        filled(seed).len() == 0x2_0000,
        last_word(seed) == filled(seed)[0x1_ffff],
        filled(seed)[0] == mixer::mixed(
            mixer::mixed(bytes::be_word(seed, 0) ^ 0x9e37_79b9).wrapping_add(
                0x9e37_79b9,
            ).wrapping_add(bytes::be_word(seed, 0)),
        ),
        forall|n: int| 0 <= n < 0x2_0000 ==> #[trigger] goes_on(filled(seed), seed, n),
{
    assert forall|n: int| 0 <= n < 0x2_0000 implies #[trigger] goes_on(filled(seed), seed, n) by {
        lemma_fill_word_goes_on(seed, n as nat);
    }
    assert(goes_on(filled(seed), seed, 0));
}

/// A fill's word comes from the one before it.
proof fn lemma_fill_word_goes_on(seed: Seq<u8>, n: nat)
    requires
        n < 0x2_0000,
    ensures
        goes_on(filled(seed), seed, n as int),
{
    reveal_with_fuel(fill_word, 2);
    let before = fill_word(seed, n);
    let taken = bytes::be_word(seed, n as int % 8);
    assert(before.wrapping_add(GOLDEN).wrapping_add(taken) == ((before + 0x9e37_79b9 + taken)
        % 0x1_0000_0000) as u32);
    assert(filled(seed)[n as int] == fill_word(seed, n + 1));
}

/// Words that begin and go on as a fill from `seed` does are the fill from
/// `seed`.
pub proof fn law_fill_is_the_only_one(seed: Seq<u8>, words: Seq<u32>)
    requires
        words.len() == 0x2_0000,
        forall|n: int| 0 <= n < 0x2_0000 ==> #[trigger] goes_on(words, seed, n),
    ensures
        filled(seed) == words,
        last_word(seed) == words[0x1_ffff],
{
    assert forall|n: int| 0 <= n < 0x2_0000 implies #[trigger] filled(seed)[n] == words[n] by {
        lemma_same_up_to(seed, words, n);
    }
    assert(filled(seed) =~= words);
    assert(filled(seed)[0x1_ffff] == last_word(seed));
}

/// A stream that goes on as a fill does agrees with it at every place.
proof fn lemma_same_up_to(seed: Seq<u8>, words: Seq<u32>, n: int)
    requires
        0 <= n < words.len(),
        words.len() == 0x2_0000,
        forall|n: int| 0 <= n < 0x2_0000 ==> #[trigger] goes_on(words, seed, n),
    ensures
        filled(seed)[n] == words[n],
    decreases n,
{
    if n > 0 {
        lemma_same_up_to(seed, words, n - 1);
    }
    lemma_fill_word_goes_on(seed, n as nat);
    assert(goes_on(words, seed, n));
}

/// Two seeds whose fills agree on word `n` and on the one after it agree on the
/// word of the seed that is taken in between.
proof fn lemma_fill_words_give_seed_word(p: Seq<u8>, q: Seq<u8>, n: nat)
    requires
        fill_word(p, n) == fill_word(q, n),
        fill_word(p, n + 1) == fill_word(q, n + 1),
    ensures
        bytes::be_word(p, n as int % 8) == bytes::be_word(q, n as int % 8),
{
    let word = fill_word(p, n).wrapping_add(GOLDEN);
    mixer::law_mixer_is_one_to_one(
        word.wrapping_add(bytes::be_word(p, n as int % 8)),
        word.wrapping_add(bytes::be_word(q, n as int % 8)),
    );
}

/// The first nine words of a filled scratch determine all 32 bytes of its seed:
/// every word of the seed enters the fill.
pub proof fn law_first_nine_words_determine_seed(p: Seq<u8>, q: Seq<u8>)
    requires
        p.len() == 32,
        q.len() == 32,
    ensures
        filled(p).take(9) == filled(q).take(9) <==> p == q,
{
    if filled(p).take(9) == filled(q).take(9) {
        assert forall|n: nat| 1 <= n <= 9 implies #[trigger] fill_word(p, n) == fill_word(q, n) by {
            assert(filled(p).take(9)[n - 1] == filled(q).take(9)[n - 1]);
        }
        assert forall|i: int| 0 <= i < 8 implies #[trigger] bytes::be_word(p, i) == bytes::be_word(
            q,
            i,
        ) by {
            let n: nat = if i == 0 {
                8
            } else {
                i as nat
            };
            lemma_fill_words_give_seed_word(p, q, n);
        }
        bytes::lemma_words_determine_bytes(p, q, 8);
    }
}

/// The eight big-endian words of a seed.
pub fn seed_words(seed: &[u8; 32]) -> (words: [u32; 8])
    ensures
        forall|i: int| 0 <= i < 8 ==> #[trigger] words[i] == bytes::be_word(seed@, i),
{
    let mut words: [u32; 8] = [0u32; 8];
    let mut index: usize = 0;
    while index < 8
        invariant
            index <= 8,
            forall|i: int| 0 <= i < index ==> #[trigger] words[i] == bytes::be_word(seed@, i),
        decreases 8 - index,
    {
        words[index] = read_be_word(seed, index);
        index = index + 1;
    }
    words
}

/// Word `index + 1` of a fill, from word `index` and the seed's words.
#[inline]
pub fn next_fill_word(word: u32, words: &[u32; 8], index: usize) -> (next: u32)
    ensures
        next == mixer::mixed(
            word.wrapping_add(GOLDEN).wrapping_add(words[index as int % 8]),
        ),
{
    mix(word.wrapping_add(GOLDEN).wrapping_add(words[index % 8]))
}

/// Fills the scratch from `seed` and returns the last word written.
pub fn fill(scratch: &mut Scratch, seed: &[u8; 32]) -> (h: u32)
    requires
        old(scratch).wf(),
    ensures
        final(scratch).wf(),
        final(scratch)@ == filled(seed@),
        h == last_word(seed@),
{
    let words = seed_words(seed);
    let mut h: u32 = mix(words[0] ^ GOLDEN);
    let mut index: usize = 0;
    while index < WORDS
        invariant
            index <= WORDS,
            scratch.wf(),
            forall|i: int| 0 <= i < 8 ==> #[trigger] words[i] == bytes::be_word(seed@, i),
            h == fill_word(seed@, index as nat),
            forall|i: int|
                0 <= i < index ==> #[trigger] scratch@[i] == fill_word(seed@, (i + 1) as nat),
        decreases WORDS - index,
    {
        h = next_fill_word(h, &words, index);
        scratch.put(index, h);
        index = index + 1;
    }
    assert(scratch@ =~= filled(seed@));
    h
}

} // verus!
