use browsercoin_sandglass::grind::{first_below, grind_batch, grind_lanes, LaneHasher};
use browsercoin_sandglass::hex::{cuts_char, decode_hex, hex};
use browsercoin_sandglass::job::{
    generation_changed, is_readable, parse_job, Command, Job, JobState, Reply, Task,
};
use browsercoin_sandglass::nonce::{header_with_nonce, lane_nonce};
use browsercoin_sandglass::scratch::Scratch;
use browsercoin_sandglass::tuning::Tuning;
use browsercoin_sandglass::worker::{Event, Run, Step};
use browsercoin_sandglass::{Sandglass, SandglassBatch, HEADER_LEN};

fn job(target: [u8; 32], nonce_offset: u32, nonce_stride: u32) -> Job {
    let mut header = [0_u8; HEADER_LEN];
    header[2] = 0x8a;
    header[3] = 0xdf;
    Job { id: 9, header, target, nonce_offset, nonce_stride }
}

fn digest(job: &Job, nonce: u32) -> [u8; 32] {
    Sandglass::new().hash(&header_with_nonce(&job.header, nonce))
}

/// The least target that `hash` meets.
fn just_above(hash: [u8; 32]) -> [u8; 32] {
    let mut target = hash;
    for byte in target.iter_mut().rev() {
        *byte = byte.wrapping_add(1);
        if *byte != 0 {
            break;
        }
    }
    target
}

/// Runs a worker to its end; the event, and the steps it took.
fn run_to_end(worker: usize, job: Job, lanes: usize) -> (Event, usize) {
    let mut hasher = LaneHasher::new(lanes);
    let mut run = Run::new(worker, job, lanes);
    let mut steps = 0;
    loop {
        steps += 1;
        match run.step(false, &mut hasher) {
            Step::Finished(event) => return (event, steps),
            Step::Abandoned => panic!("nobody changed the job"),
            Step::Continue | Step::CheckClock => {}
        }
    }
}

fn header_text() -> String {
    "0a".repeat(HEADER_LEN)
}

fn target_text() -> String {
    "fF".repeat(32)
}

fn start(header_hex: &str, target_hex: &str, nonce_stride: u32) -> Command {
    Command::Start {
        job_id: 3,
        header_hex: header_hex.to_string(),
        target_hex: target_hex.to_string(),
        nonce_offset: 5,
        nonce_stride,
    }
}

#[test]
fn hex_text_has_two_lower_case_digits_to_a_byte() {
    assert_eq!(hex(&[]), "");
    assert_eq!(hex(&[0x00, 0x0f, 0xf0, 0xbe, 0xef, 0x9a]), "000ff0beef9a");
}

#[test]
fn hex_text_reads_back() {
    let mut bytes = [0_u8; 256];
    for (index, byte) in bytes.iter_mut().enumerate() {
        *byte = index as u8;
    }
    let text = hex(&bytes);
    assert!(!cuts_char::<256>(&text));
    assert_eq!(decode_hex::<256>(&text), Some(bytes));
    assert_eq!(decode_hex::<256>(&text.to_uppercase()), Some(bytes));
}

#[test]
fn hex_pairs_are_read_as_numbers_of_radix_sixteen() {
    for first in 0..0x80_u8 {
        for second in 0..0x80_u8 {
            let text = String::from_utf8(vec![first, second]).unwrap();
            let expected = u8::from_str_radix(&text, 16).ok().map(|byte| [byte]);
            assert_eq!(decode_hex::<1>(&text), expected);
        }
    }
    assert_eq!(decode_hex::<2>("+a0B"), Some([0x0a, 0x0b]));
}

#[test]
fn hex_text_of_another_length_is_refused() {
    assert_eq!(decode_hex::<2>("abc"), None);
    assert_eq!(decode_hex::<2>("ab"), None);
    assert_eq!(decode_hex::<2>("abcdef"), None);
    assert_eq!(decode_hex::<2>("abxd"), None);
    assert_eq!(decode_hex::<0>(""), Some([]));
    assert_eq!(decode_hex::<0>("0"), None);
}

#[test]
fn pairs_that_end_inside_a_character_are_recognized() {
    // An umlaut takes two bytes, the euro sign three.
    assert!(cuts_char::<2>("a\u{e4}b"));
    assert!(cuts_char::<2>("\u{20ac}b"));
    assert!(!cuts_char::<2>("\u{e4}ab"));
    assert!(!cuts_char::<2>("zza\u{e4}b"));
    assert!(!cuts_char::<2>("xx\u{e4}"));
    assert!(!cuts_char::<2>("aab\u{e4}aa"));
    assert_eq!(decode_hex::<2>("\u{e4}ab"), None);
    assert_eq!(decode_hex::<2>("zza\u{e4}b"), None);
}

#[test]
fn a_job_is_made_of_its_parts() {
    let job = parse_job(7, &header_text(), &target_text(), 11, 13).unwrap();
    assert_eq!(job.id, 7);
    assert_eq!(job.header, [0x0a; HEADER_LEN]);
    assert_eq!(job.target, [0xff; 32]);
    assert_eq!(job.nonce_offset, 11);
    assert_eq!(job.nonce_stride, 13);
}

#[test]
fn a_job_with_a_wrong_part_is_refused() {
    let (header, target) = (header_text(), target_text());
    let refused = |header: &str, target: &str, stride| {
        assert!(is_readable(header, target, stride));
        parse_job(7, header, target, 0, stride).err().unwrap()
    };
    assert_eq!(refused(&header, &target, 0), "nonceStride must be positive");
    assert_eq!(refused("0a", "", 0), "nonceStride must be positive");
    assert_eq!(refused(&target, &target, 1), "headerHex must contain exactly 148 bytes");
    assert_eq!(refused("", "", 1), "headerHex must contain exactly 148 bytes");
    assert_eq!(refused(&header, &header, 1), "targetHex must contain exactly 32 bytes");
    assert_eq!(refused(&header, &"0g".repeat(32), 1), "targetHex must contain exactly 32 bytes");
}

#[test]
fn job_text_that_cuts_a_character_is_unreadable() {
    let header = header_text();
    let cut_header = format!("a\u{e4}{}", "a".repeat(HEADER_LEN * 2 - 3));
    let cut_target = format!("a\u{e4}{}", "a".repeat(61));
    assert!(!is_readable(&cut_header, &target_text(), 1));
    assert!(!is_readable(&header, &cut_target, 1));
    assert!(is_readable(&cut_header, &cut_target, 0));
    assert!(is_readable("short", &cut_target, 1));
}

#[test]
fn commands_change_the_shared_state() {
    let mut state = JobState::new();
    assert!(matches!(state.next_task(0), Task::Wait));
    let reply = state.handle_command(start(&header_text(), &target_text(), 2));
    assert!(matches!(reply, Reply::Done));
    assert_eq!(state.generation, 1);
    assert_eq!(state.job.unwrap().id, 3);
    assert!(matches!(state.next_task(0), Task::Grind { generation: 1, .. }));
    assert!(matches!(state.next_task(1), Task::Wait));
    let reply = state.handle_command(start(&header_text(), &target_text(), 0));
    assert!(matches!(reply, Reply::Rejected(message) if message == "nonceStride must be positive"));
    assert_eq!(state.generation, 1);
    assert!(matches!(state.handle_command(Command::Stop), Reply::Done));
    assert_eq!(state.generation, 2);
    assert!(state.job.is_none());
    assert!(matches!(state.handle_command(Command::Shutdown), Reply::Leave));
    assert_eq!(state.generation, 2);
    assert!(!state.shutdown);
    state.shut_down();
    assert_eq!(state.generation, 3);
    assert!(matches!(state.next_task(0), Task::Leave));
}

#[test]
fn a_stale_finish_leaves_the_new_job() {
    let mut state = JobState::new();
    state.replace_job(Some(job([0; 32], 0, 1)));
    let old = state.generation;
    state.replace_job(Some(job([1; 32], 0, 1)));
    assert!(generation_changed(state.generation, old));
    assert!(!state.clear_current_job(old));
    assert_eq!(state.job.unwrap().target, [1; 32]);
    let current = state.generation;
    assert!(!generation_changed(current, state.generation));
    assert!(state.clear_current_job(current));
    assert!(!state.clear_current_job(current));
    assert!(state.job.is_none());
    assert_eq!(state.generation, current + 1);
    assert!(matches!(state.next_task(old), Task::Wait));
}

#[test]
fn the_generation_wraps() {
    let mut state = JobState { job: None, shutdown: false, generation: u64::MAX };
    state.replace_job(None);
    assert_eq!(state.generation, 0);
}

#[test]
fn a_nonce_stands_big_endian_in_its_header() {
    let base = [0x55_u8; HEADER_LEN];
    let header = header_with_nonce(&base, 0x0102_0304);
    assert_eq!(header[112..116], [1, 2, 3, 4]);
    assert_eq!(header[..112], base[..112]);
    assert_eq!(header[116..], base[116..]);
    assert_eq!(header_with_nonce(&header, 9), header_with_nonce(&base, 9));
}

#[test]
fn lane_nonces_wrap() {
    assert_eq!(lane_nonce(10, 3, 0), 10);
    assert_eq!(lane_nonce(10, 3, 2), 16);
    assert_eq!(lane_nonce(u32::MAX, 1, 1), 0);
    assert_eq!(lane_nonce(5, 0x8000_0000, 2), 5);
    assert_eq!(lane_nonce(5, 0xffff_ffff, 3), 2);
}

#[test]
fn the_first_digest_below_the_target_is_found() {
    let digests = [[9; 32], [3; 32], [2; 32]];
    assert_eq!(first_below(&digests, &[4; 32]), Some(1));
    assert_eq!(first_below(&digests, &[3; 32]), Some(2));
    assert_eq!(first_below(&digests, &[2; 32]), None);
    assert_eq!(first_below(&digests, &[0xff; 32]), Some(0));
}

#[test]
fn a_full_batch_is_hashed_whole() {
    let easy = job([0xff; 32], 0, 1);
    let mut batch = SandglassBatch::<4>::new();
    let mut hashes = 100;
    let found = grind_lanes(&mut batch, &easy, 40, 40, &mut hashes);
    assert_eq!(found, Some((40, Some(digest(&easy, 40)))));
    assert_eq!(hashes, 104);
    let hard = job([0; 32], 0, 1);
    assert_eq!(grind_lanes(&mut batch, &hard, 40, 40, &mut hashes), None);
    assert_eq!(hashes, 108);
}

#[test]
fn a_batch_finds_its_first_hit() {
    let any = job([0; 32], 0, 5);
    let digests: Vec<[u8; 32]> = (0..4).map(|lane| digest(&any, 70 + 5 * lane)).collect();
    let least = (0..4).min_by_key(|lane| digests[*lane]).unwrap();
    let target = just_above(digests[least]);
    let mut hashes = 0;
    let mut batch = SandglassBatch::<4>::new();
    let found = grind_lanes(&mut batch, &job(target, 0, 5), 70, 1, &mut hashes);
    assert_eq!(found, Some((70 + 5 * least as u32, Some(digests[least]))));
    assert_eq!(hashes, 4);
}

#[test]
fn a_batch_that_comes_back_is_cut_short() {
    let half = 0x8000_0000;
    let hard = job([0; 32], 0, half);
    let mut batch = SandglassBatch::<4>::new();
    let mut hashes = 0;
    assert_eq!(grind_lanes(&mut batch, &hard, 3, 3, &mut hashes), Some((3, None)));
    assert_eq!(hashes, 2);
    let easy = job([0xff; 32], 0, half);
    let found = grind_lanes(&mut batch, &easy, 3, 3, &mut hashes);
    assert_eq!(found, Some((3, Some(digest(&easy, 3)))));
    assert_eq!(hashes, 3);
}

#[test]
fn one_lane_hashes_one_nonce() {
    let easy = job([0xff; 32], 0, 1);
    let mut hasher = LaneHasher::new(1);
    let mut hashes = 0;
    let found = grind_batch(&mut hasher, &easy, 8, 8, &mut hashes);
    assert_eq!(found, Some((8, Some(digest(&easy, 8)))));
    assert_eq!(grind_batch(&mut hasher, &job([0; 32], 0, 1), 8, 8, &mut hashes), None);
    assert_eq!(hashes, 2);
}

#[test]
fn a_hasher_has_the_lanes_it_was_asked_for() {
    for lanes in [1, 2, 4] {
        assert_eq!(LaneHasher::new(lanes).lanes(), lanes);
        let scratches = (0..lanes).map(|_| Scratch::new()).collect();
        assert_eq!(LaneHasher::with_scratches(scratches, Tuning::plain()).lanes(), lanes);
    }
}

#[test]
fn every_lane_count_solves_with_the_same_nonce() {
    let any = job([0; 32], 20, 3);
    // Worker 1 tries 21, 24, 27, ...; the least of its first six digests solves.
    let digests: Vec<[u8; 32]> = (0..6).map(|k| digest(&any, 21 + 3 * k)).collect();
    let least = (0..6).min_by_key(|k| digests[*k]).unwrap();
    let solvable = job(just_above(digests[least]), 20, 3);
    for lanes in [1, 2, 4] {
        let (event, steps) = run_to_end(1, solvable, lanes);
        match event {
            Event::Solved { worker, job_id, nonce, hash } => {
                assert_eq!(worker, 1);
                assert_eq!(job_id, 9);
                assert_eq!(nonce, 21 + 3 * least as u32);
                assert_eq!(hash, digests[least]);
            }
            _ => panic!("the job has a solution"),
        }
        assert_eq!(steps, least / lanes + 1);
    }
}

#[test]
fn a_worker_gives_up_when_its_nonces_come_round() {
    for (stride, nonces) in [(0x8000_0000_u32, 2), (0x4000_0000, 4), (0x2000_0000, 8)] {
        for lanes in [1, 2, 4] {
            let (event, steps) = run_to_end(2, job([0; 32], 7, stride), lanes);
            assert!(matches!(event, Event::Exhausted { worker: 2, job_id: 9 }));
            assert_eq!(steps, (nonces + lanes - 1) / lanes);
        }
    }
}

#[test]
fn a_changed_job_is_abandoned() {
    let mut hasher = LaneHasher::new(1);
    let mut run = Run::new(0, job([0xff; 32], 0, 1), 1);
    assert!(matches!(run.step(true, &mut hasher), Step::Abandoned));
    assert!(matches!(run.step(false, &mut hasher), Step::Finished(Event::Solved { nonce: 0, .. })));
}

#[test]
fn the_clock_is_checked_every_sixty_fourth_step() {
    let mut hasher = LaneHasher::new(1);
    let mut run = Run::new(0, job([0; 32], 0, 1), 1);
    for step in 1..=128 {
        match run.step(false, &mut hasher) {
            Step::Continue => assert!(step % 64 != 0),
            Step::CheckClock => assert!(step % 64 == 0),
            _ => panic!("nothing meets a target of zero"),
        }
    }
    assert!(run.report(1_999).is_none());
    match run.report(2_000) {
        Some(Event::Hashrate { worker, job_id, hashes, elapsed_ms }) => {
            assert_eq!((worker, job_id, hashes, elapsed_ms), (0, 9, 128, 2_000));
        }
        _ => panic!("a report was due"),
    }
    assert!(matches!(run.report(5_000), Some(Event::Hashrate { hashes: 0, .. })));
}

#[test]
fn a_report_counts_full_rounds_of_every_lane() {
    for lanes in [1, 2, 4] {
        let mut hasher = LaneHasher::new(lanes);
        let mut run = Run::new(3, job([0; 32], 0, 1), lanes);
        for rounds in 1..=2_u64 {
            let mut steps = 1;
            while !matches!(run.step(false, &mut hasher), Step::CheckClock) {
                steps += 1;
            }
            assert_eq!(steps, 64);
            if rounds == 1 {
                assert!(run.report(1_999).is_none());
            }
        }
        match run.report(2_500) {
            Some(Event::Hashrate { worker, hashes, elapsed_ms, .. }) => {
                assert_eq!((worker, hashes, elapsed_ms), (3, 2 * 64 * lanes as u64, 2_500));
            }
            _ => panic!("a report was due"),
        }
    }
}
