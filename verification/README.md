# Sandglass

A verified implementation of the Sandglass proof-of-work hash, with the
decisions of a native miner for it.

A hash takes the SHA-256 of a 148-byte header as its seed, fills a 512 KiB
scratch from the seed, walks the scratch with four chains and closes with the
SHA-256 of the seed and of what the walk left. `src/sandglass.rs` states that
digest once, and every way of computing it is proved to give it: one header at a
time, side-by-side chains, interleaved lanes, the unrolled kernel for two lanes,
with and without prefetching.

## Layout

- `src/bytes.rs`, `src/mixer.rs`, `src/scratch.rs`: words, the mixer and the
  memory.
- `src/fill.rs`, `src/walk.rs`: the two phases of a hash.
- `src/sandglass.rs`, `src/batch.rs`: hashing one header, and several at once.
- `src/sha.rs`: SHA-256, from the `sha2` crate.
- `src/target.rs`, `src/nonce.rs`, `src/grind.rs`, `src/worker.rs`: a worker's
  search for a nonce. A run reports the first nonce that meets the target, tries
  no nonce twice, and gives up only when none of its nonces meets it.
- `src/job.rs`: jobs, commands and the state that the workers share.
- `src/hex.rs`, `src/text.rs`, `src/settings.rs`, `src/tuning.rs`,
  `src/phase.rs`: text, settings and measurements.
- `app/`: the miner process around the library: threads, JSON lines, the clock,
  huge pages.

## Settings

`SANDGLASS_LANES` is `1`, `2` (the default) or `4`: how many hashes a worker
interleaves. `SANDGLASS_HUGEPAGE=1`, `SANDGLASS_PREFETCH=1`,
`SANDGLASS_L2_KERNEL=1` and `SANDGLASS_MODE=avx2` change the speed of a hash and
never its digest; measure before enabling them.
