//! Big-endian integers and their bytes.
use vstd::arithmetic::power::pow;
use vstd::prelude::*;

verus! {

/// The number that `bytes` spell in base 256, most significant byte first.
pub open spec fn be_nat(bytes: Seq<u8>) -> nat
    decreases bytes.len(),
{
    if bytes.len() == 0 {
        0
    } else {
        be_nat(bytes.drop_last()) * 256 + bytes.last() as nat
    }
}

/// The four bytes of `value`, most significant byte first.
pub open spec fn be_bytes(value: u32) -> Seq<u8> {
    seq![
        (value / 0x100_0000) as u8,
        ((value / 0x1_0000) % 0x100) as u8,
        ((value / 0x100) % 0x100) as u8,
        (value % 0x100) as u8,
    ]
}

/// The four-byte big-endian word that starts at byte `4 * index` of `bytes`.
pub open spec fn be_word(bytes: Seq<u8>, index: int) -> u32 {
    be_nat(bytes.subrange(4 * index, 4 * index + 4)) as u32
}

/// The big-endian bytes of each of `words`, one word after the other.
pub open spec fn be_words(words: Seq<u32>) -> Seq<u8> {
    Seq::new(4 * words.len(), |i: int| be_bytes(words[i / 4])[i % 4])
}

/// Four bytes written out as a sum of powers of 256.
pub proof fn lemma_be_nat_of_four(bytes: Seq<u8>)
    requires
        bytes.len() == 4,
    ensures
        be_nat(bytes) == bytes[0] * 0x100_0000 + bytes[1] * 0x1_0000 + bytes[2] * 0x100 + bytes[3],
{
    reveal_with_fuel(be_nat, 5);
}

/// Reading back the big-endian bytes of a word gives the word.
pub proof fn law_be_bytes_read_back(value: u32)
    ensures
        be_bytes(value).len() == 4,
        be_nat(be_bytes(value)) == value,
        be_word(be_bytes(value), 0) == value,
{
    lemma_be_nat_of_four(be_bytes(value));
    assert(be_bytes(value).subrange(0, 4) =~= be_bytes(value));
}

/// A number weighs its bytes by powers of 256: no byte spells nothing, one byte
/// spells itself, and bytes in front of others count for as many times more as
/// those have values.
pub proof fn law_number_weighs_its_bytes(front: Seq<u8>, back: Seq<u8>, byte: u8)
    ensures
        be_nat(Seq::empty()) == 0,
        be_nat(seq![byte]) == byte,
        be_nat(front + back) == be_nat(front) * pow(256, back.len()) + be_nat(back),
        be_nat(back) < pow(256, back.len()),
    decreases back.len(),
{
    reveal(pow);
    assert(seq![byte].drop_last() =~= Seq::<u8>::empty());
    if back.len() == 0 {
        assert(front + back =~= front);
    } else {
        let shorter = back.drop_last();
        law_number_weighs_its_bytes(front, shorter, byte);
        assert((front + back).drop_last() =~= front + shorter);
        assert((front + back).last() == back.last());
        let power = pow(256, shorter.len());
        assert(pow(256, back.len()) == 256 * power);
        assert((be_nat(front) * power) * 256 == be_nat(front) * (256 * power)) by (nonlinear_arith);
        assert(be_nat(back) < 256 * power) by (nonlinear_arith)
            requires
                be_nat(back) == be_nat(shorter) * 256 + back.last() as nat,
                be_nat(shorter) < power,
                back.last() < 256,
        ;
    }
}

/// Word `i` of a byte string is what its bytes `4 * i` to `4 * i + 3` make, the
/// first weighing most.
pub proof fn law_word_is_made_of_its_bytes(bytes: Seq<u8>, i: int)
    requires
        0 <= i,
        4 * i + 4 <= bytes.len(),
    ensures
        be_word(bytes, i) == bytes[4 * i] * 0x100_0000 + bytes[4 * i + 1] * 0x1_0000 + bytes[4 * i
            + 2] * 0x100 + bytes[4 * i + 3],
{
    lemma_be_nat_of_four(bytes.subrange(4 * i, 4 * i + 4));
}

/// Words written out one after the other read back, each in its place.
pub proof fn law_words_read_back(words: Seq<u32>)
    ensures
        be_words(words).len() == 4 * words.len(),
        forall|i: int|
            0 <= i < words.len() ==> be_word(be_words(words), i) == #[trigger] words[i],
{
    assert forall|i: int| 0 <= i < words.len() implies be_word(be_words(words), i)
        == #[trigger] words[i] by {
        let four = be_words(words).subrange(4 * i, 4 * i + 4);
        assert forall|j: int| 0 <= j < 4 implies #[trigger] four[j] == be_bytes(words[i])[j] by {
            assert((4 * i + j) / 4 == i && (4 * i + j) % 4 == j);
        }
        assert(four =~= be_bytes(words[i]));
        law_be_bytes_read_back(words[i]);
    }
}

/// Numbers of as many bytes compare as their bytes do: the first byte in which
/// they differ decides, and numbers that differ in none are the same.
pub proof fn law_first_difference_decides(a: Seq<u8>, b: Seq<u8>)
    requires
        a.len() == b.len(),
    ensures
        be_nat(a) < be_nat(b) <==> exists|at: int|
            0 <= at < a.len() && #[trigger] a[at] < b[at] && a.take(at) == b.take(at),
{
    if exists|at: int| 0 <= at < a.len() && #[trigger] a[at] < b[at] && a.take(at) == b.take(at) {
        let at = choose|at: int|
            0 <= at < a.len() && #[trigger] a[at] < b[at] && a.take(at) == b.take(at);
        lemma_first_difference_orders(a, b, at);
    } else if be_nat(a) < be_nat(b) {
        lemma_alike_or_different(a, b, a.len() as int);
        if a.take(a.len() as int) == b.take(a.len() as int) {
            assert(a =~= a.take(a.len() as int));
            assert(b =~= b.take(a.len() as int));
        } else {
            let at = choose|at: int|
                0 <= at < a.len() && #[trigger] a[at] != b[at] && a.take(at) == b.take(at);
            lemma_first_difference_orders(b, a, at);
        }
    }
}

/// The first `upto` bytes are alike, or there is a first one that is not.
proof fn lemma_alike_or_different(a: Seq<u8>, b: Seq<u8>, upto: int)
    requires
        a.len() == b.len(),
        0 <= upto <= a.len(),
    ensures
        a.take(upto) == b.take(upto) || exists|at: int|
            0 <= at < a.len() && #[trigger] a[at] != b[at] && a.take(at) == b.take(at),
    decreases upto,
{
    if upto > 0 {
        lemma_alike_or_different(a, b, upto - 1);
        if a.take(upto - 1) == b.take(upto - 1) {
            if a[upto - 1] == b[upto - 1] {
                assert(a.take(upto) =~= a.take(upto - 1).push(a[upto - 1]));
                assert(b.take(upto) =~= b.take(upto - 1).push(b[upto - 1]));
            }
        }
    } else {
        assert(a.take(0) =~= b.take(0));
    }
}

/// The number that four bytes spell determines each of them.
proof fn lemma_number_determines_four(a: Seq<u8>, b: Seq<u8>)
    requires
        a.len() == 4,
        b.len() == 4,
        be_nat(a) == be_nat(b),
    ensures
        a == b,
{
    lemma_be_nat_of_four(a);
    lemma_be_nat_of_four(b);
    assert(a[0] == b[0]);
    assert(a[1] == b[1]);
    assert(a[2] == b[2]);
    assert(a =~= b);
}

/// Byte strings of `count` big-endian words are the same where all of their
/// words are.
pub proof fn lemma_words_determine_bytes(a: Seq<u8>, b: Seq<u8>, count: nat)
    requires
        a.len() == 4 * count,
        b.len() == 4 * count,
        forall|i: int| 0 <= i < count ==> #[trigger] be_word(a, i) == be_word(b, i),
    ensures
        a == b,
    decreases count,
{
    if count > 0 {
        let last = count - 1;
        let (a_head, b_head) = (a.take(4 * last), b.take(4 * last));
        let (a_four, b_four) = (a.skip(4 * last), b.skip(4 * last));
        assert forall|i: int| 0 <= i < last implies #[trigger] be_word(a_head, i) == be_word(
            b_head,
            i,
        ) by {
            assert(a_head.subrange(4 * i, 4 * i + 4) =~= a.subrange(4 * i, 4 * i + 4));
            assert(b_head.subrange(4 * i, 4 * i + 4) =~= b.subrange(4 * i, 4 * i + 4));
            assert(be_word(a, i) == be_word(b, i));
        }
        lemma_words_determine_bytes(a_head, b_head, last as nat);
        assert(be_word(a, last) == be_word(b, last));
        assert(a.subrange(4 * last, 4 * last + 4) =~= a_four);
        assert(b.subrange(4 * last, 4 * last + 4) =~= b_four);
        lemma_be_nat_of_four(a_four);
        lemma_be_nat_of_four(b_four);
        lemma_number_determines_four(a_four, b_four);
        assert(a =~= a_head + a_four);
        assert(b =~= b_head + b_four);
    } else {
        assert(a =~= b);
    }
}

/// Comparing two byte strings of one length by their first difference compares
/// the numbers they spell.
pub proof fn lemma_first_difference_orders(a: Seq<u8>, b: Seq<u8>, at: int)
    requires
        a.len() == b.len(),
        0 <= at < a.len(),
        a.take(at) == b.take(at),
        a[at] < b[at],
    ensures
        be_nat(a) < be_nat(b),
    decreases a.len(),
{
    let (a_head, b_head) = (a.drop_last(), b.drop_last());
    if at == a.len() - 1 {
        assert(a_head =~= a.take(at));
        assert(b_head =~= b.take(at));
    } else {
        assert(a_head.take(at) =~= a.take(at));
        assert(b_head.take(at) =~= b.take(at));
        lemma_first_difference_orders(a_head, b_head, at);
    }
}

/// The big-endian bytes of `value`.
pub fn to_be_bytes(value: u32) -> (bytes: [u8; 4])
    ensures
        bytes@ == be_bytes(value),
{
    let bytes: [u8; 4] = [
        (value / 0x100_0000) as u8,
        ((value / 0x1_0000) % 0x100) as u8,
        ((value / 0x100) % 0x100) as u8,
        (value % 0x100) as u8,
    ];
    assert(bytes@ =~= be_bytes(value));
    bytes
}

/// The big-endian word at byte `4 * index` of a 32-byte string.
pub fn read_be_word(bytes: &[u8; 32], index: usize) -> (word: u32)
    requires
        index < 8,
    ensures
        word == be_word(bytes@, index as int),
{
    proof {
        let four = bytes@.subrange(4 * index, 4 * index + 4);
        lemma_be_nat_of_four(four);
    }
    let at: usize = 4 * index;
    bytes[at] as u32 * 0x100_0000 + bytes[at + 1] as u32 * 0x1_0000 + bytes[at + 2] as u32 * 0x100
        + bytes[at + 3] as u32
}

} // verus!
