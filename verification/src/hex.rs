//! Bytes as hexadecimal text.
use vstd::prelude::*;
use vstd::string::*;
use vstd::utf8::*;

verus! {

/// The lower-case digit of a value below sixteen.
pub open spec fn hex_char(value: int) -> char {
    "0123456789abcdef"@[value]
}

/// Two lower-case digits for each byte, the high one first.
pub open spec fn hex_of(bytes: Seq<u8>) -> Seq<char> {
    Seq::new(
        2 * bytes.len(),
        |i: int|
            hex_char(
                if i % 2 == 0 {
                    bytes[i / 2] / 16
                } else {
                    bytes[i / 2] % 16
                } as int,
            ),
    )
}

/// The value of a hexadecimal digit of either case.
pub open spec fn digit_value(digit: u8) -> Option<u8> {
    if 0x30 <= digit <= 0x39 {
        Some((digit - 0x30) as u8)
    } else if 0x41 <= digit <= 0x46 {
        Some((digit - 0x41 + 10) as u8)
    } else if 0x61 <= digit <= 0x66 {
        Some((digit - 0x61 + 10) as u8)
    } else {
        None
    }
}

/// The byte that two characters of hexadecimal text stand for: two digits, or
/// a plus sign and one digit.
pub open spec fn pair_value(first: u8, second: u8) -> Option<u8> {
    match (digit_value(first), digit_value(second)) {
        (Some(high), Some(low)) => Some((16 * high + low) as u8),
        (None, Some(low)) => if first == 0x2b {
            Some(low)
        } else {
            None
        },
        _ => None,
    }
}

/// The byte that pair `i` of `text` stands for.
pub open spec fn pair_at(text: Seq<u8>, i: int) -> Option<u8> {
    pair_value(text[2 * i], text[2 * i + 1])
}

/// The `n` bytes that `text` stands for, if it is `n` pairs that each stand for
/// a byte.
pub open spec fn decoded(text: Seq<u8>, n: nat) -> Option<Seq<u8>> {
    if text.len() == 2 * n && forall|i: int| 0 <= i < n ==> #[trigger] pair_at(text, i) is Some {
        Some(Seq::new(n, |i: int| pair_at(text, i)->0))
    } else {
        None
    }
}

/// Reading `text` as `n` pairs comes to a pair that ends inside a character.
pub open spec fn cuts_a_char(text: Seq<u8>, n: nat) -> bool {
    &&& text.len() == 2 * n
    &&& exists|i: int|
        0 <= i < n && !(#[trigger] is_char_boundary(text, 2 * i + 2)) && forall|j: int|
            0 <= j < i ==> #[trigger] pair_at(text, j) is Some
}

/// No pair of ASCII text ends inside a character.
pub proof fn law_ascii_is_never_cut(chars: Seq<char>, n: nat)
    requires
        is_ascii_chars(chars),
    ensures
        !cuts_a_char(encode_utf8(chars), n),
{
    let text = encode_utf8(chars);
    is_ascii_chars_encode_utf8(chars);
    encode_utf8_valid_utf8(chars);
    if text.len() == 2 * n {
        assert forall|i: int| 0 <= i < n implies #[trigger] is_char_boundary(text, 2 * i + 2) by {
            let at = 2 * i + 2;
            if at == text.len() {
                is_char_boundary_start_end_of_seq(text);
            } else {
                let byte = text[at];
                assert(chars[at] as u8 == byte);
                assert(byte < 0x80);
                is_char_boundary_iff_not_is_continuation_byte(text, at);
                assert(!is_continuation_byte(byte)) by {
                    utf8_byte_ranges_bitwise(byte);
                }
            }
        }
    }
}

/// Hexadecimal text reads back as the bytes it was written from, and no pair of
/// it ends inside a character.
pub proof fn law_hex_reads_back(bytes: Seq<u8>)
    ensures
        decoded(encode_utf8(hex_of(bytes)), bytes.len()) == Some(bytes),
        !cuts_a_char(encode_utf8(hex_of(bytes)), bytes.len()),
{
    reveal_strlit("0123456789abcdef");
    let chars = hex_of(bytes);
    let text = encode_utf8(chars);
    assert(is_ascii_chars(chars));
    is_ascii_chars_encode_utf8(chars);
    assert forall|i: int| 0 <= i < bytes.len() implies #[trigger] pair_at(text, i) == Some(
        bytes[i],
    ) by {
        assert(chars[2 * i] as u8 == text[2 * i] && chars[2 * i + 1] as u8 == text[2 * i + 1]);
        assert((2 * i) / 2 == i && (2 * i + 1) / 2 == i);
        assert(digit_value(text[2 * i]) == Some((bytes[i] / 16) as u8));
        assert(digit_value(text[2 * i + 1]) == Some((bytes[i] % 16) as u8));
    }
    assert(decoded(text, bytes.len())->0 =~= bytes);
    law_ascii_is_never_cut(chars, bytes.len());
}

/// A digit has the value of its place among the sixteen digits, in either case,
/// and nothing else is a digit.
pub proof fn law_digit_has_the_value_of_its_place(digit: u8, value: u8)
    ensures
        digit_value(digit) == Some(value) <==> value < 16 && ("0123456789abcdef"@[value as int]
            == digit as char || "0123456789ABCDEF"@[value as int] == digit as char),
{
    reveal_strlit("0123456789abcdef");
    reveal_strlit("0123456789ABCDEF");
}

/// A pair stands for the byte whose high half its first digit gives and whose
/// low half its second digit gives; or it is a plus sign and the byte's digit.
pub proof fn law_pair_is_high_and_low_digit(first: u8, second: u8, byte: u8)
    ensures
        pair_value(first, second) == Some(byte) <==> {
            ||| digit_value(first) == Some((byte / 16) as u8) && digit_value(second) == Some(
                (byte % 16) as u8,
            )
            ||| first == 0x2b && digit_value(second) == Some(byte)
        },
        pair_value(first, second) is None <==> {
            ||| digit_value(second) is None
            ||| digit_value(first) is None && first != 0x2b
        },
{
}

/// Text stands for bytes where it has two characters to each of them, and pair
/// `i` stands for byte `i`.
pub proof fn law_text_is_its_pairs_in_order(text: Seq<u8>, n: nat, bytes: Seq<u8>)
    ensures
        decoded(text, n) == Some(bytes) <==> {
            &&& text.len() == 2 * n
            &&& bytes.len() == n
            &&& forall|i: int|
                0 <= i < n ==> pair_value(text[2 * i], text[2 * i + 1]) == Some(#[trigger] bytes[i])
        },
        decoded(text, n) is None <==> {
            ||| text.len() != 2 * n
            ||| exists|i: int| 0 <= i < n && #[trigger] pair_at(text, i) is None
        },
{
    if decoded(text, n) == Some(bytes) {
        assert forall|i: int| 0 <= i < n implies pair_value(text[2 * i], text[2 * i + 1]) == Some(
            #[trigger] bytes[i],
        ) by {
            assert(pair_at(text, i) is Some);
        }
    }
    if text.len() == 2 * n && bytes.len() == n && forall|i: int|
        0 <= i < n ==> pair_value(text[2 * i], text[2 * i + 1]) == Some(#[trigger] bytes[i]) {
        assert forall|i: int| 0 <= i < n implies #[trigger] pair_at(text, i) == Some(bytes[i]) by {
            assert(pair_value(text[2 * i], text[2 * i + 1]) == Some(bytes[i]));
        }
        assert(decoded(text, n)->0 =~= bytes);
    }
}

/// Bytes are written in lower case, two digits to a byte, the high one first.
pub proof fn law_hex_is_lower_case(bytes: Seq<u8>, i: int)
    requires
        0 <= i < bytes.len(),
    ensures
        hex_of(bytes).len() == 2 * bytes.len(),
        hex_of(bytes)[2 * i] == "0123456789abcdef"@[bytes[i] as int / 16],
        hex_of(bytes)[2 * i + 1] == "0123456789abcdef"@[bytes[i] as int % 16],
{
    assert((2 * i) / 2 == i && (2 * i + 1) / 2 == i);
}

/// Text that is cut has the right length and stands for no bytes. It is cut
/// wherever a pair ends inside a character and all pairs before it stand for
/// bytes.
pub proof fn law_cut_text_stands_for_no_bytes(chars: Seq<char>, n: nat)
    ensures
        cuts_a_char(encode_utf8(chars), n) ==> encode_utf8(chars).len() == 2 * n && decoded(
            encode_utf8(chars),
            n,
        ) is None,
        forall|i: int|
            encode_utf8(chars).len() == 2 * n && 0 <= i < n && !(#[trigger] is_char_boundary(
                encode_utf8(chars),
                2 * i + 2,
            )) && (forall|j: int|
                0 <= j < i ==> #[trigger] pair_at(encode_utf8(chars), j) is Some) ==> cuts_a_char(
                encode_utf8(chars),
                n,
            ),
{
    let text = encode_utf8(chars);
    encode_utf8_valid_utf8(chars);
    if decoded(text, n) is Some {
        assert forall|i: int| 0 <= i < n implies #[trigger] is_char_boundary(text, 2 * i + 2) by {
            let at = 2 * i + 2;
            if at == text.len() {
                is_char_boundary_start_end_of_seq(text);
            } else {
                assert(pair_at(text, i + 1) is Some);
                let byte = text[at];
                assert(byte < 0x80);
                is_char_boundary_iff_not_is_continuation_byte(text, at);
                assert(!is_continuation_byte(byte)) by {
                    utf8_byte_ranges_bitwise(byte);
                }
            }
        }
    }
}

/// The value of a hexadecimal digit of either case.
fn read_digit(digit: u8) -> (value: Option<u8>)
    ensures
        value == digit_value(digit),
        value matches Some(v) ==> v < 16,
{
    if 0x30 <= digit && digit <= 0x39 {
        Some(digit - 0x30)
    } else if 0x41 <= digit && digit <= 0x46 {
        Some(digit - 0x41 + 10)
    } else if 0x61 <= digit && digit <= 0x66 {
        Some(digit - 0x61 + 10)
    } else {
        None
    }
}

/// The byte that two characters of hexadecimal text stand for.
fn read_pair(first: u8, second: u8) -> (value: Option<u8>)
    ensures
        value == pair_value(first, second),
{
    match (read_digit(first), read_digit(second)) {
        (Some(high), Some(low)) => Some(16 * high + low),
        (None, Some(low)) => if first == 0x2b {
            Some(low)
        } else {
            None
        },
        _ => None,
    }
}

/// Whether reading `input` as `N` pairs comes to a pair that ends inside a
/// character.
pub fn cuts_char<const N: usize>(input: &str) -> (cuts: bool)
    ensures
        cuts == cuts_a_char(input.spec_bytes(), N as nat),
{
    let text = input.as_bytes();
    let len: usize = text.len();
    if len % 2 != 0 || len / 2 != N {
        return false;
    }
    let mut at: usize = 0;
    while at < N
        invariant
            at <= N,
            text@ == input.spec_bytes(),
            text@.len() == len,
            len == 2 * N,
            forall|j: int| 0 <= j < at ==> #[trigger] pair_at(text@, j) is Some,
            forall|j: int| 0 <= j < at ==> #[trigger] is_char_boundary(text@, 2 * j + 2),
        decreases N - at,
    {
        if !input.is_char_boundary(2 * at + 2) {
            return true;
        }
        if read_pair(text[2 * at], text[2 * at + 1]).is_none() {
            assert(pair_at(text@, at as int) is None);
            return false;
        }
        at = at + 1;
    }
    false
}

/// The `N` bytes that `input` stands for, or `None` if it is not `N` pairs that
/// each stand for a byte.
pub fn decode_hex<const N: usize>(input: &str) -> (output: Option<[u8; N]>)
    requires
        !cuts_a_char(input.spec_bytes(), N as nat),
    ensures
        match decoded(input.spec_bytes(), N as nat) {
            Some(bytes) => output matches Some(array) && array@ == bytes,
            None => output is None,
        },
{
    let text = input.as_bytes();
    let len: usize = text.len();
    if len % 2 != 0 || len / 2 != N {
        return None;
    }
    let mut output: [u8; N] = [0u8; N];
    let mut at: usize = 0;
    while at < N
        invariant
            at <= N,
            text@ == input.spec_bytes(),
            text@.len() == len,
            len == 2 * N,
            forall|i: int| 0 <= i < at ==> #[trigger] pair_at(text@, i) == Some(output[i]),
        decreases N - at,
    {
        match read_pair(text[2 * at], text[2 * at + 1]) {
            Some(byte) => {
                output[at] = byte;
            },
            None => {
                assert(pair_at(text@, at as int) is None);
                return None;
            },
        }
        at = at + 1;
    }
    assert(decoded(text@, N as nat)->0 =~= output@);
    Some(output)
}

/// The bytes as lower-case hexadecimal text.
pub fn hex(bytes: &[u8]) -> (text: String)
    ensures
        text@ == hex_of(bytes@),
{
    proof {
        reveal_strlit("0123456789abcdef");
    }
    let digits: &str = "0123456789abcdef";
    let mut text: String = String::new();
    let mut at: usize = 0;
    while at < bytes.len()
        invariant
            at <= bytes@.len(),
            digits@ == "0123456789abcdef"@,
            digits@.len() == 16,
            digits.is_ascii(),
            text@ == hex_of(bytes@).take(2 * at as int),
        decreases bytes@.len() - at,
    {
        let high: usize = (bytes[at] / 16) as usize;
        let low: usize = (bytes[at] % 16) as usize;
        text.append(digits.substring_ascii(high, high + 1));
        text.append(digits.substring_ascii(low, low + 1));
        proof {
            let whole = hex_of(bytes@);
            assert((2 * at as int) / 2 == at && (2 * at as int + 1) / 2 == at);
            assert(whole[2 * at as int] == digits@[high as int]);
            assert(whole[2 * at as int + 1] == digits@[low as int]);
            assert(text@ =~= whole.take(2 * (at + 1) as int));
        }
        at = at + 1;
    }
    assert(hex_of(bytes@).take(2 * bytes@.len() as int) =~= hex_of(bytes@));
    text
}

} // verus!
