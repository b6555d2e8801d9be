use browsercoin_sandglass::phase::{parse_iterations, set_nonces, summarize, PhaseReport};
use browsercoin_sandglass::settings::{parse_lanes, parse_workers, worker_total, LaneSetting};
use browsercoin_sandglass::text::{parse_number, same_text};
use browsercoin_sandglass::tuning::{wants_huge_pages, Tuning};
use browsercoin_sandglass::HEADER_LEN;

fn args(list: &[&str]) -> Vec<String> {
    list.iter().map(|arg| arg.to_string()).collect()
}

#[test]
fn texts_are_compared_by_character() {
    assert!(same_text("", ""));
    assert!(same_text("avx2", "avx2"));
    assert!(!same_text("avx2", "avx"));
    assert!(!same_text("avx2", "AVX2"));
    assert!(same_text("\u{e4}", "\u{e4}"));
}

#[test]
fn numbers_are_read_as_the_standard_library_reads_them() {
    let texts = [
        "", "+", "-", "0", "-0", "7", "+7", "++7", "007", "12a", " 1", "1 ", "255", "256", "+255",
        "4294967295", "4294967296", "18446744073709551615", "18446744073709551616",
        "99999999999999999999999999", "1\u{e4}", "0x10", "1_000",
    ];
    for text in texts {
        assert_eq!(parse_number(text, u8::MAX as u64), text.parse::<u8>().ok().map(u64::from));
        assert_eq!(parse_number(text, u32::MAX as u64), text.parse::<u32>().ok().map(u64::from));
        assert_eq!(parse_number(text, u64::MAX), text.parse::<u64>().ok());
    }
}

#[test]
fn workers_come_from_the_first_flag() {
    assert_eq!(parse_workers(&args(&[])), None);
    assert_eq!(parse_workers(&args(&["miner"])), None);
    assert_eq!(parse_workers(&args(&["miner", "--workers"])), None);
    assert_eq!(parse_workers(&args(&["miner", "--workers", "32"])), Some(32));
    assert_eq!(parse_workers(&args(&["miner", "x", "--workers", "3", "--workers", "4"])), Some(3));
    assert_eq!(parse_workers(&args(&["miner", "--workers", "0", "--workers", "4"])), None);
    assert_eq!(parse_workers(&args(&["miner", "--workers", "many", "--workers", "4"])), None);
    assert_eq!(parse_workers(&args(&["miner", "--workers", "--workers", "4"])), None);
    assert_eq!(parse_workers(&args(&["miner", "--workers", "+5"])), Some(5));
    assert_eq!(parse_workers(&args(&["miner", "--workers", "-5"])), None);
}

#[test]
fn there_is_always_a_worker() {
    let unasked = [
        args(&[]),
        args(&["miner", "--workers"]),
        args(&["miner", "--workers", "0"]),
        args(&["miner", "--workers", "many", "--workers", "4"]),
    ];
    for args in &unasked {
        assert_eq!(worker_total(args, Some(12)), 12);
        assert_eq!(worker_total(args, None), 1);
    }
    assert_eq!(worker_total(&args(&["miner", "--workers", "32"]), Some(12)), 32);
    assert_eq!(worker_total(&args(&["miner", "--workers", "32"]), None), 32);
}

#[test]
fn lanes_are_one_two_or_four() {
    assert_eq!(parse_lanes(None), LaneSetting { lanes: 2, understood: true });
    assert_eq!(parse_lanes(Some("1")), LaneSetting { lanes: 1, understood: true });
    assert_eq!(parse_lanes(Some("2")), LaneSetting { lanes: 2, understood: true });
    assert_eq!(parse_lanes(Some("4")), LaneSetting { lanes: 4, understood: true });
    for other in ["", "3", "8", "02", "+2", "two"] {
        assert_eq!(parse_lanes(Some(other)), LaneSetting { lanes: 2, understood: false });
    }
}

#[test]
fn tuning_is_switched_on_by_exact_settings() {
    let plain = Tuning::from_settings(None, true, None, None);
    assert!(!plain.gather && !plain.prefetch && !plain.pair_kernel);
    let all = Tuning::from_settings(Some("avx2"), true, Some("1"), Some("1"));
    assert!(all.gather && all.prefetch && all.pair_kernel);
    let old = Tuning::from_settings(Some("avx2"), false, Some("true"), Some("0"));
    assert!(!old.gather && !old.prefetch && !old.pair_kernel);
    assert!(!Tuning::from_settings(Some("AVX2"), true, None, None).gather);
    assert!(wants_huge_pages(Some("1")));
    assert!(!wants_huge_pages(Some("yes")));
    assert!(!wants_huge_pages(None));
}

#[test]
fn iterations_have_a_default() {
    assert_eq!(parse_iterations(None), 30);
    assert_eq!(parse_iterations(Some("0")), 30);
    assert_eq!(parse_iterations(Some("fifty")), 30);
    assert_eq!(parse_iterations(Some("4294967296")), 30);
    assert_eq!(parse_iterations(Some("50")), 50);
}

#[test]
fn both_headers_get_successive_nonces() {
    let mut headers = [[1_u8; HEADER_LEN]; 2];
    let base = [2_u8; HEADER_LEN];
    set_nonces(&mut headers, &base, u32::MAX);
    assert_eq!(headers[0][112..116], [0xff; 4]);
    assert_eq!(headers[1][112..116], [0; 4]);
    assert_eq!(headers[0][..112], base[..112]);
    assert_eq!(headers[1][116..], base[116..]);
}

#[test]
fn a_measurement_is_averaged() {
    assert_eq!(
        summarize(100, 1_001, 2_000, 10),
        PhaseReport {
            fill_per_batch: 10,
            walk_per_batch: 100,
            full_per_batch: 200,
            per_hash: 100,
            hashes_per_second: 10_000_000,
        }
    );
    assert_eq!(summarize(0, 0, 1, 1).hashes_per_second, 0);
    assert_eq!(summarize(0, 0, 6, 1).hashes_per_second, 333_333_333);
}
