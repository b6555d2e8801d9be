//! Timing the two phases of a batch of two lanes.
use crate::nonce;
use crate::nonce::header_with_nonce;
use crate::sandglass::HEADER_LEN;
use crate::text;
use crate::text::parse_number;
use vstd::arithmetic::div_mod::{lemma_fundamental_div_mod, lemma_mod_bound};
use vstd::arithmetic::mul::lemma_mul_is_commutative;
use vstd::prelude::*;
use vstd::utf8::*;

verus! {

/// How many rounds a measurement takes where nothing else is asked for.
pub const DEFAULT_ITERATIONS: u32 = 30;

/// The round count that an argument spells: a positive number that fits in
/// `u32`, and the default where there is none.
pub open spec fn iterations_of(arg: Option<&str>) -> int {
    match arg {
        Some(spelled) => match text::spelled_up_to(encode_utf8(spelled@), u32::MAX as nat) {
            Some(count) if count > 0 => count as int,
            _ => DEFAULT_ITERATIONS as int,
        },
        None => DEFAULT_ITERATIONS as int,
    }
}

/// A measurement takes as many rounds as the argument's number says, where that
/// is one at least and fits; and thirty in every other case.
pub proof fn law_rounds_are_a_positive_number_or_thirty(arg: &str)
    ensures
        iterations_of(None) == 30,
        match text::spelled_number(encode_utf8(arg@)) {
            Some(count) => iterations_of(Some(arg)) == if 0 < count <= 0xffff_ffff {
                count as int
            } else {
                30
            },
            None => iterations_of(Some(arg)) == 30,
        },
{
}

/// Reads the round count.
pub fn parse_iterations(arg: Option<&str>) -> (iterations: u32)
    ensures
        iterations == iterations_of(arg),
        iterations > 0,
{
    match arg {
        Some(spelled) => match parse_number(spelled, u32::MAX as u64) {
            Some(count) => if count > 0 {
                count as u32
            } else {
                DEFAULT_ITERATIONS
            },
            None => DEFAULT_ITERATIONS,
        },
        None => DEFAULT_ITERATIONS,
    }
}

/// Makes both headers the base header, the first with `nonce` and the second
/// with the one after it.
pub fn set_nonces(headers: &mut [[u8; HEADER_LEN]; 2], base: &[u8; HEADER_LEN], nonce: u32)
    ensures
        final(headers)[0]@ == nonce::with_nonce(base@, nonce),
        final(headers)[1]@ == nonce::with_nonce(base@, nonce.wrapping_add(1)),
{
    headers[0] = header_with_nonce(base, nonce);
    headers[1] = header_with_nonce(base, nonce.wrapping_add(1));
}

/// A measurement, in nanoseconds.
#[derive(Clone, Copy, PartialEq, Eq, Structural, Debug)]
pub struct PhaseReport {
    pub fill_per_batch: u128,
    pub walk_per_batch: u128,
    pub full_per_batch: u128,
    pub per_hash: u128,
    pub hashes_per_second: u128,
}

/// Averages the totals of a measurement over its rounds. A batch is two hashes;
/// a hash that takes no measurable time counts as no hashes per second.
pub fn summarize(fill_ns: u128, walk_ns: u128, full_ns: u128, iterations: u32) -> (report:
    PhaseReport)
    requires
        iterations > 0,
    ensures
        report.fill_per_batch == fill_ns as int / iterations as int,
        report.walk_per_batch == walk_ns as int / iterations as int,
        report.full_per_batch == full_ns as int / iterations as int,
        report.per_hash == report.full_per_batch as int / 2,
        report.per_hash == 0 ==> report.hashes_per_second == 0,
        report.per_hash > 0 ==> report.hashes_per_second == 1_000_000_000int
            / report.per_hash as int,
{
    let rounds: u128 = iterations as u128;
    let full_per_batch: u128 = full_ns / rounds;
    let per_hash: u128 = full_per_batch / 2;
    let hashes_per_second: u128 = if per_hash == 0 {
        0
    } else {
        1_000_000_000 / per_hash
    };
    PhaseReport {
        fill_per_batch: fill_ns / rounds,
        walk_per_batch: walk_ns / rounds,
        full_per_batch,
        per_hash,
        hashes_per_second,
    }
}

/// What a division leaves over.
proof fn lemma_average_is_rounded_down(total: int, count: int)
    requires
        count > 0,
    ensures
        0 <= total - total / count * count < count,
{
    lemma_fundamental_div_mod(total, count);
    lemma_mod_bound(total, count);
    lemma_mul_is_commutative(total / count, count);
}

/// A measurement's averages are rounded down: what is left over is less than one
/// for every round, or for each of a batch's two hashes.
pub proof fn law_averages_are_rounded_down(
    fill_ns: u128,
    walk_ns: u128,
    full_ns: u128,
    iterations: u32,
    report: PhaseReport,
)
    requires
        iterations > 0,
        call_ensures(summarize, (fill_ns, walk_ns, full_ns, iterations), report),
    ensures
        0 <= fill_ns - report.fill_per_batch * iterations < iterations,
        0 <= walk_ns - report.walk_per_batch * iterations < iterations,
        0 <= full_ns - report.full_per_batch * iterations < iterations,
        0 <= report.full_per_batch - 2 * report.per_hash < 2,
        report.per_hash == 0 ==> report.hashes_per_second == 0,
        report.per_hash > 0 ==> 0 <= 1_000_000_000 - report.hashes_per_second * report.per_hash
            < report.per_hash,
{
    lemma_average_is_rounded_down(fill_ns as int, iterations as int);
    lemma_average_is_rounded_down(walk_ns as int, iterations as int);
    lemma_average_is_rounded_down(full_ns as int, iterations as int);
    if report.per_hash > 0 {
        lemma_average_is_rounded_down(1_000_000_000, report.per_hash as int);
    }
}

} // verus!
