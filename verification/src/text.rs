//! Comparing text and reading numbers from it.
use vstd::prelude::*;
use vstd::string::*;
use vstd::utf8::*;

verus! {

/// Whether a byte is a decimal digit.
pub open spec fn is_decimal(byte: u8) -> bool {
    0x30 <= byte <= 0x39
}

/// The number that decimal digits spell, most significant digit first.
pub open spec fn decimal_value(digits: Seq<u8>) -> nat
    decreases digits.len(),
{
    if digits.len() == 0 {
        0
    } else {
        decimal_value(digits.drop_last()) * 10 + (digits.last() - 0x30) as nat
    }
}

/// The text behind a leading plus sign, or all of it where there is none.
pub open spec fn unsigned_part(text: Seq<u8>) -> Seq<u8> {
    if text.len() > 0 && text[0] == 0x2b {
        text.skip(1)
    } else {
        text
    }
}

/// The number that `text` spells: one or more decimal digits, behind at most
/// one plus sign.
pub open spec fn spelled_number(text: Seq<u8>) -> Option<nat> {
    let digits = unsigned_part(text);
    if digits.len() > 0 && forall|i: int|
        0 <= i < digits.len() ==> is_decimal(#[trigger] digits[i]) {
        Some(decimal_value(digits))
    } else {
        None
    }
}

/// The number that `text` spells, if there is one and it is at most `max`.
pub open spec fn spelled_up_to(text: Seq<u8>, max: nat) -> Option<nat> {
    match spelled_number(text) {
        Some(number) if number <= max => Some(number),
        _ => None,
    }
}

/// Nothing spells no number, and one character spells the number that it is as
/// a digit.
pub proof fn law_one_digit_spells_itself(byte: u8)
    ensures
        spelled_number(Seq::empty()) is None,
        0x30 <= byte <= 0x39 ==> spelled_number(seq![byte]) == Some((byte - 0x30) as nat),
        !(0x30 <= byte <= 0x39) ==> spelled_number(seq![byte]) is None,
{
    reveal_with_fuel(decimal_value, 2);
    let text = seq![byte];
    assert(text.drop_last() =~= Seq::<u8>::empty());
    if byte == 0x2b {
        assert(unsigned_part(text) =~= Seq::<u8>::empty());
    } else {
        assert(unsigned_part(text) =~= text);
        assert(text[0] == byte);
    }
}

/// One digit more behind a number makes it ten times as large and adds the
/// digit; anything else behind it spells no number, nor does a digit behind text
/// that spells none, but for one behind a lone plus sign or behind nothing.
pub proof fn law_digits_go_on_by_tens(text: Seq<u8>, byte: u8)
    requires
        text.len() > 0,
        text != seq![0x2bu8],
    ensures
        match spelled_number(text) {
            Some(number) => if 0x30 <= byte <= 0x39 {
                spelled_number(text.push(byte)) == Some((10 * number + (byte - 0x30)) as nat)
            } else {
                spelled_number(text.push(byte)) is None
            },
            None => spelled_number(text.push(byte)) is None,
        },
{
    let (short, long) = (unsigned_part(text), unsigned_part(text.push(byte)));
    assert(long =~= short.push(byte));
    assert(long.drop_last() =~= short);
    if short.len() == 0 {
        assert(text =~= seq![0x2bu8]);
    }
    assert(long[short.len() as int] == byte);
    if forall|i: int| 0 <= i < long.len() ==> is_decimal(#[trigger] long[i]) {
        assert forall|i: int| 0 <= i < short.len() implies is_decimal(#[trigger] short[i]) by {
            assert(short[i] == long[i]);
        }
    }
    if spelled_number(text) is Some && is_decimal(byte) {
        assert forall|i: int| 0 <= i < long.len() implies is_decimal(#[trigger] long[i]) by {
            if i < short.len() {
                assert(short[i] == long[i]);
            }
        }
    }
}

/// A plus sign in front changes nothing; a second one does.
pub proof fn law_plus_sign_changes_nothing(text: Seq<u8>)
    ensures
        text.len() > 0 && text[0] != 0x2b ==> spelled_number(seq![0x2bu8] + text)
            == spelled_number(text),
        text.len() == 0 || text[0] == 0x2b ==> spelled_number(seq![0x2bu8] + text) is None,
{
    let signed = seq![0x2bu8] + text;
    assert(unsigned_part(signed) =~= text);
    if text.len() > 0 && text[0] == 0x2b {
        assert(!is_decimal(text[0]));
    }
}

/// A number counts where it is at most the largest that is allowed.
pub proof fn law_number_counts_up_to_the_largest(text: Seq<u8>, max: nat, number: nat)
    ensures
        spelled_up_to(text, max) == Some(number) <==> spelled_number(text) == Some(number) && number
            <= max,
{
}

/// More digits never spell a smaller number.
proof fn lemma_prefix_spells_no_more(digits: Seq<u8>, at: int)
    requires
        0 <= at <= digits.len(),
        forall|i: int| 0 <= i < digits.len() ==> is_decimal(#[trigger] digits[i]),
    ensures
        decimal_value(digits.take(at)) <= decimal_value(digits),
    decreases digits.len() - at,
{
    if at < digits.len() {
        let longer = digits.take(at + 1);
        assert(longer.drop_last() =~= digits.take(at));
        assert(is_decimal(digits[at]));
        lemma_prefix_spells_no_more(digits, at + 1);
    } else {
        assert(digits.take(at) =~= digits);
    }
}

/// The number that `text` spells, or `None` if it spells none or one above
/// `max`.
pub fn parse_number(text: &str, max: u64) -> (number: Option<u64>)
    ensures
        match spelled_up_to(encode_utf8(text@), max as nat) {
            Some(n) => number == Some(n as u64),
            None => number is None,
        },
{
    let bytes = text.as_bytes();
    let len: usize = bytes.len();
    let start: usize = if len > 0 && bytes[0] == 0x2b {
        1
    } else {
        0
    };
    let ghost digits = unsigned_part(bytes@);
    if start == len {
        return None;
    }
    let mut value: u64 = 0;
    let mut at: usize = start;
    assert(digits.take(0) =~= Seq::<u8>::empty());
    while at < len
        invariant
            start <= at <= len,
            len == bytes@.len(),
            start <= 1,
            digits == bytes@.skip(start as int),
            digits == unsigned_part(bytes@),
            bytes@ == encode_utf8(text@),
            forall|i: int| 0 <= i < at - start ==> is_decimal(#[trigger] digits[i]),
            value == decimal_value(digits.take(at - start)),
            value <= max,
        decreases len - at,
    {
        let byte: u8 = bytes[at];
        assert(byte == digits[at - start]);
        if byte < 0x30 || byte > 0x39 {
            assert(!is_decimal(digits[at - start]));
            return None;
        }
        let digit: u64 = (byte - 0x30) as u64;
        proof {
            let longer = digits.take(at - start + 1);
            assert(longer.drop_last() =~= digits.take(at - start));
            assert(decimal_value(longer) == value * 10 + digit);
            if value * 10 + digit > max && spelled_number(bytes@) is Some {
                lemma_prefix_spells_no_more(digits, at - start + 1);
            }
        }
        if value > max / 10 || digit > max - value * 10 {
            return None;
        }
        value = value * 10 + digit;
        at = at + 1;
    }
    assert(digits.take(len - start) =~= digits);
    Some(value)
}

/// Whether two strings hold the same characters.
pub fn same_text(a: &str, b: &str) -> (same: bool)
    ensures
        same == (a@ == b@),
{
    let (left, right) = (a.as_bytes(), b.as_bytes());
    if left.len() != right.len() {
        return false;
    }
    let mut at: usize = 0;
    while at < left.len()
        invariant
            at <= left@.len(),
            left@.len() == right@.len(),
            left@ == encode_utf8(a@),
            right@ == encode_utf8(b@),
            forall|i: int| 0 <= i < at ==> left@[i] == right@[i],
        decreases left@.len() - at,
    {
        if left[at] != right[at] {
            return false;
        }
        at = at + 1;
    }
    proof {
        assert(left@ =~= right@);
        encode_utf8_decode_utf8(a@);
        encode_utf8_decode_utf8(b@);
    }
    true
}

} // verus!
