use browsercoin_sandglass::batch::{fill_and_walk_batch_l2, fill_batch_l2, walk_batch_l2};
use browsercoin_sandglass::bytes::{read_be_word, to_be_bytes};
use browsercoin_sandglass::fill::{fill, next_fill_word, seed_words};
use browsercoin_sandglass::mixer::{mix, mix4};
use browsercoin_sandglass::sandglass::{final_input, seed_of};
use browsercoin_sandglass::scratch::{Scratch, WORDS};
use browsercoin_sandglass::tuning::Tuning;
use browsercoin_sandglass::walk::{has_collision, init_walk_chains, walk_gathered, walk_scalar};
use browsercoin_sandglass::{hash_meets_target, Sandglass, SandglassBatch, HEADER_LEN};
use sha2::{Digest, Sha256};

fn decode<const N: usize>(hex: &str) -> [u8; N] {
    let mut bytes = [0_u8; N];
    for (index, output) in bytes.iter_mut().enumerate() {
        *output = u8::from_str_radix(&hex[index * 2..index * 2 + 2], 16).unwrap();
    }
    bytes
}

fn header_with_nonce(base: &[u8; HEADER_LEN], nonce: u32) -> [u8; HEADER_LEN] {
    let mut header = *base;
    header[112..116].copy_from_slice(&nonce.to_be_bytes());
    header
}

fn counting_header() -> [u8; HEADER_LEN] {
    let mut header = [0_u8; HEADER_LEN];
    for (index, byte) in header.iter_mut().enumerate() {
        *byte = index as u8;
    }
    header
}

fn tunings() -> Vec<Tuning> {
    let mut all = Vec::new();
    for bits in 0..8_u8 {
        all.push(Tuning {
            gather: bits & 1 != 0,
            prefetch: bits & 2 != 0,
            pair_kernel: bits & 4 != 0,
        });
    }
    all
}

fn vectors() -> Vec<([u8; HEADER_LEN], [u8; 32])> {
    vec![
        (
            [0; HEADER_LEN],
            decode("4126cf8599af760178829989bed037f0a72e289b9ca1646151cee4ddae35a30f"),
        ),
        (
            [0xff; HEADER_LEN],
            decode("b2ee59a346c56cbad17d055e28f22f057398db36daf7a28b4cb9c9098837f494"),
        ),
        (
            counting_header(),
            decode("7ae794038711c044de49b6d51ecb2a7e7f397547f719570fb37fed55fe433e7a"),
        ),
    ]
}

#[test]
fn digests_match_reference_vectors() {
    let mut hasher = Sandglass::new();
    for (header, digest) in vectors() {
        assert_eq!(hasher.hash(&header), digest);
    }
}

#[test]
fn tuning_never_changes_a_digest() {
    for tuning in tunings() {
        let mut hasher = Sandglass::with_scratch(Scratch::new(), tuning);
        let scratches = vec![Scratch::new(), Scratch::new()];
        let mut batch = SandglassBatch::<2>::with_scratches(scratches, tuning);
        for (header, digest) in vectors() {
            assert_eq!(hasher.hash(&header), digest);
            assert_eq!(batch.hash_batch(&[header, [0; HEADER_LEN]])[0], digest);
        }
    }
}

#[test]
fn a_digest_does_not_depend_on_what_was_hashed_before() {
    let all = vectors();
    let words: Vec<u32> = (0..WORDS as u32).collect();
    let scratch = Scratch::from_words(words).unwrap();
    let mut hasher = Sandglass::with_scratch(scratch, Tuning::plain());
    assert_eq!(hasher.hash(&all[2].0), all[2].1);
    assert_eq!(hasher.hash(&all[0].0), all[0].1);
    assert_eq!(hasher.hash(&all[2].0), all[2].1);
    assert_eq!(Sandglass::default().hash(&all[2].0), all[2].1);
}

#[test]
fn every_lane_count_gives_the_same_digests() {
    let all = vectors();
    assert_eq!(SandglassBatch::<1>::new().hash_batch(&[all[1].0]), [all[1].1]);
    assert_eq!(
        SandglassBatch::<2>::default().hash_batch(&[all[1].0, all[2].0]),
        [all[1].1, all[2].1]
    );
    assert_eq!(
        SandglassBatch::<3>::default().hash_batch(&[all[2].0, all[0].0, all[1].0]),
        [all[2].1, all[0].1, all[1].1]
    );
    assert_eq!(
        SandglassBatch::<4>::default().hash_batch(&[all[0].0, all[1].0, all[0].0, all[2].0]),
        [all[0].1, all[1].1, all[0].1, all[2].1]
    );
}

#[test]
fn batch_lanes_match_scalar() {
    let base = counting_header();
    let mut scalar = Sandglass::new();
    let mut batch2 = SandglassBatch::<2>::new();
    let mut batch4 = SandglassBatch::<4>::new();

    let headers2 = [header_with_nonce(&base, 0), header_with_nonce(&base, 1)];
    let out2 = batch2.hash_batch(&headers2);
    assert_eq!(out2[0], scalar.hash(&headers2[0]));
    assert_eq!(out2[1], scalar.hash(&headers2[1]));

    let headers4 = [
        header_with_nonce(&base, 10),
        header_with_nonce(&base, 11),
        header_with_nonce(&base, 12),
        header_with_nonce(&base, 13),
    ];
    let out4 = batch4.hash_batch(&headers4);
    for lane in 0..4 {
        assert_eq!(out4[lane], scalar.hash(&headers4[lane]));
    }

    // Many nonces, so that walk index collisions are likely somewhere.
    for nonce in (0_u32..256).step_by(4) {
        let headers = [
            header_with_nonce(&base, nonce),
            header_with_nonce(&base, nonce.wrapping_add(1)),
            header_with_nonce(&base, nonce.wrapping_add(2)),
            header_with_nonce(&base, nonce.wrapping_add(3)),
        ];
        let batched = batch4.hash_batch(&headers);
        for lane in 0..4 {
            assert_eq!(batched[lane], scalar.hash(&headers[lane]));
        }
    }
}

#[test]
fn lanes2_fill_walk_split_matches_hash_batch() {
    let base = counting_header();
    let mut batch = SandglassBatch::<2>::new();
    let mut scalar = Sandglass::new();

    for nonce in 0_u32..64 {
        let headers = [
            header_with_nonce(&base, nonce),
            header_with_nonce(&base, nonce.wrapping_add(1)),
        ];
        let seeds: [[u8; 32]; 2] = [
            Sha256::digest(headers[0]).into(),
            Sha256::digest(headers[1]).into(),
        ];
        let h = batch.fill_only(&seeds);
        let states = batch.walk_only(h);
        let digests = batch.hash_batch(&headers);
        for lane in 0..2 {
            let [hh, a0, a1, a2, a3] = states[lane];
            let mut final_input = [0_u8; 52];
            final_input[..32].copy_from_slice(&seeds[lane]);
            final_input[32..36].copy_from_slice(&hh.to_be_bytes());
            final_input[36..40].copy_from_slice(&a0.to_be_bytes());
            final_input[40..44].copy_from_slice(&a1.to_be_bytes());
            final_input[44..48].copy_from_slice(&a2.to_be_bytes());
            final_input[48..52].copy_from_slice(&a3.to_be_bytes());
            let from_split: [u8; 32] = Sha256::digest(final_input).into();
            assert_eq!(from_split, digests[lane]);
            assert_eq!(digests[lane], scalar.hash(&headers[lane]));
        }
    }
}

#[test]
fn compares_targets_as_big_endian_uint256() {
    assert!(hash_meets_target(&[0; 32], &[1; 32]));
    assert!(!hash_meets_target(&[1; 32], &[1; 32]));
    assert!(!hash_meets_target(&[2; 32], &[1; 32]));
}

#[test]
fn the_first_different_byte_decides_a_target() {
    let mut low = [0_u8; 32];
    let mut high = [0_u8; 32];
    low[31] = 0xff;
    high[30] = 1;
    assert!(hash_meets_target(&low, &high));
    assert!(!hash_meets_target(&high, &low));
    low[0] = 1;
    assert!(hash_meets_target(&high, &low));
    assert!(!hash_meets_target(&[0; 32], &[0; 32]));
    assert!(hash_meets_target(&[0xfe; 32], &[0xff; 32]));
}

#[test]
fn the_mixer_has_fixed_values() {
    assert_eq!(mix(0), 0);
    assert_eq!(mix(1), 0x6889_90c0);
    assert_eq!(mix(2), 0xd113_2181);
    assert_eq!(mix(0xffff_ffff), 0x6768_824a);
    assert_eq!(mix(0x9e37_79b9), 0x01fc_e552);
    assert_eq!(mix4([0, 1, 2, 0xffff_ffff]), [0, 0x6889_90c0, 0xd113_2181, 0x6768_824a]);
}

#[test]
fn a_walk_begins_from_fixed_chains() {
    let chains = init_walk_chains(0x45f1_daf7);
    let accs: Vec<u32> = chains.iter().map(|chain| chain.acc).collect();
    let indices: Vec<u32> = chains.iter().map(|chain| chain.index).collect();
    assert_eq!(accs, [0x38a4_a44e, 0x4019_22ce, 0x3840_8e73, 0xb9d6_97da]);
    assert_eq!(indices, [12481, 68124, 25392, 1370]);
}

#[test]
fn fill_and_walk_have_fixed_states() {
    let seed: [u8; 32] = decode("3b18c58c739716e76429634a61375c45b3b5cd470c22ab6d3e14cee23dd992e1");
    let state = [0x45f1_daf7, 0x1259_7810, 0x935f_4a0d, 0xfefb_57f9, 0x258c_aa0d];
    assert_eq!(Sandglass::new().fill_and_walk(&seed), state);
    let mut batch = SandglassBatch::<2>::new();
    assert_eq!(batch.fill_and_walk_batch(&[seed, seed]), [state, state]);
    let digest: [u8; 32] = Sha256::digest(final_input(&seed, &state)).into();
    assert_eq!(digest, vectors()[0].1);
}

#[test]
fn a_filled_scratch_holds_the_seed_s_stream() {
    let seed: [u8; 32] = decode("3b18c58c739716e76429634a61375c45b3b5cd470c22ab6d3e14cee23dd992e1");
    let words = seed_words(&seed);
    assert_eq!(words[0], 0x3b18_c58c);
    assert_eq!(words[7], 0x3dd9_92e1);
    let mut scratch = Scratch::new();
    let h = fill(&mut scratch, &seed);
    assert_eq!(h, 0x45f1_daf7);
    assert_eq!(scratch.get(WORDS - 1), h);
    let mut word = mix(words[0] ^ 0x9e37_79b9);
    for index in 0..100 {
        word = next_fill_word(word, &words, index);
        assert_eq!(scratch.get(index), word);
    }
}

/// The first nine words of a scratch filled from `seed`.
fn first_nine(seed: &[u8; 32]) -> Vec<u32> {
    let mut scratch = Scratch::new();
    fill(&mut scratch, seed);
    (0..9).map(|index| scratch.get(index)).collect()
}

#[test]
fn nine_words_of_a_fill_tell_seeds_apart() {
    let seed: [u8; 32] = decode("3b18c58c739716e76429634a61375c45b3b5cd470c22ab6d3e14cee23dd992e1");
    let words = first_nine(&seed);
    assert_eq!(first_nine(&seed.clone()), words);
    for at in 0..32 {
        let mut other = seed;
        other[at] ^= 1;
        assert_ne!(first_nine(&other), words);
    }
}

#[test]
fn the_mixer_keeps_words_apart() {
    let mut mixed: Vec<u32> = (0..4096).map(|word| mix(word * 0x0010_0001)).collect();
    mixed.sort();
    mixed.dedup();
    assert_eq!(mixed.len(), 4096);
}

#[test]
fn a_seed_is_the_sha256_of_its_header() {
    let zeros: [u8; 32] = decode("3b18c58c739716e76429634a61375c45b3b5cd470c22ab6d3e14cee23dd992e1");
    assert_eq!(seed_of(&[0; HEADER_LEN]), zeros);
    let expected: [u8; 32] = Sha256::digest(counting_header()).into();
    assert_eq!(seed_of(&counting_header()), expected);
}

#[test]
fn a_lane_depends_on_its_own_seed_alone() {
    let seeds: Vec<[u8; 32]> = (0..4).map(|byte| [byte; 32]).collect();
    let mut three = SandglassBatch::<3>::new();
    let states = three.fill_and_walk_batch_generic(&[seeds[3], seeds[0], seeds[3]]);
    assert_eq!(states[0], states[2]);
    let mut single = Sandglass::new();
    assert_eq!(states[0], single.fill_and_walk(&seeds[3]));
    assert_eq!(states[1], single.fill_and_walk(&seeds[0]));
    let again = three.fill_and_walk_batch_generic(&[seeds[1], seeds[2], seeds[0]]);
    assert_eq!(again[2], states[1]);
}

#[test]
fn the_pair_kernel_matches_single_fills_and_walks() {
    let seeds = [[0x11; 32], [0x22; 32]];
    for prefetch in [false, true] {
        let mut pair = vec![Scratch::new(), Scratch::new()];
        let h = fill_batch_l2(&mut pair, &seeds);
        let states = walk_batch_l2(&mut pair, h, prefetch);
        for lane in 0..2 {
            let mut scratch = Scratch::new();
            assert_eq!(fill(&mut scratch, &seeds[lane]), h[lane]);
            assert_eq!(walk_scalar::<false>(&mut scratch, h[lane]), states[lane]);
            for index in 0..WORDS {
                assert_eq!(pair[lane].get(index), scratch.get(index));
            }
        }
        assert_eq!(fill_and_walk_batch_l2(&mut pair, &seeds, prefetch), states);
    }
}

#[test]
fn side_by_side_chains_walk_like_ordered_ones() {
    let seed: [u8; 32] = decode("3b18c58c739716e76429634a61375c45b3b5cd470c22ab6d3e14cee23dd992e1");
    let mut ordered = Scratch::new();
    let mut gathered = Scratch::new();
    let h = fill(&mut ordered, &seed);
    fill(&mut gathered, &seed);
    assert_eq!(walk_scalar::<true>(&mut ordered, h), walk_gathered(&mut gathered, h));
    assert_eq!(ordered.get(0), 0x50e6_0ee3);
    assert_eq!(ordered.get(WORDS - 1), 0x1313_1142);
    for index in 0..WORDS {
        assert_eq!(ordered.get(index), gathered.get(index));
    }
}

#[test]
fn walking_an_empty_scratch_side_by_side_keeps_collisions_in_order() {
    // From h = 0 every chain of an all-zero scratch soon meets another.
    let mut ordered = Scratch::new();
    let mut gathered = Scratch::new();
    assert_eq!(walk_scalar::<false>(&mut ordered, 0), walk_gathered(&mut gathered, 0));
    for index in 0..WORDS {
        assert_eq!(ordered.get(index), gathered.get(index));
    }
}

#[test]
fn collisions_are_any_two_equal_indices() {
    assert!(!has_collision(1, 2, 3, 4));
    assert!(has_collision(1, 1, 3, 4));
    assert!(has_collision(1, 2, 1, 4));
    assert!(has_collision(1, 2, 3, 1));
    assert!(has_collision(1, 2, 2, 4));
    assert!(has_collision(1, 2, 3, 2));
    assert!(has_collision(1, 2, 3, 3));
}

#[test]
fn words_are_big_endian() {
    assert_eq!(to_be_bytes(0x0102_0304), [1, 2, 3, 4]);
    assert_eq!(to_be_bytes(u32::MAX), [0xff; 4]);
    let mut bytes = [0_u8; 32];
    bytes[28..].copy_from_slice(&[0xde, 0xad, 0xbe, 0xef]);
    assert_eq!(read_be_word(&bytes, 7), 0xdead_beef);
    assert_eq!(read_be_word(&bytes, 0), 0);
}

#[test]
fn the_closing_message_is_the_seed_and_five_words() {
    let message = final_input(&[7; 32], &[1, 2, 0x0102_0304, 4, u32::MAX]);
    assert_eq!(message[..32], [7; 32]);
    assert_eq!(message[32..40], [0, 0, 0, 1, 0, 0, 0, 2]);
    assert_eq!(message[40..], [1, 2, 3, 4, 0, 0, 0, 4, 0xff, 0xff, 0xff, 0xff]);
}

#[test]
fn a_scratch_takes_memory_of_its_own_size_only() {
    assert!(Scratch::from_words(vec![0; WORDS - 1]).is_none());
    assert!(Scratch::from_words(Vec::new()).is_none());
    let mut scratch = Scratch::from_words(vec![5; WORDS]).unwrap();
    assert_eq!(scratch.get(17), 5);
    scratch.put(17, 6);
    assert_eq!(scratch.get(17), 6);
    assert_eq!(scratch.get(18), 5);
}
