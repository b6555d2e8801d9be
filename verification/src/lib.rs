//! The Sandglass proof-of-work hash, and the parts of a miner that grinds it.
//!
//! A hash takes the SHA-256 of a header as its seed, fills a 512 KiB scratch
//! from the seed, walks the scratch with four chains and closes with the
//! SHA-256 of the seed and of what the walk left. [`sandglass`] states that
//! digest; every way of computing it here, one header at a time or several
//! interleaved, is proved to give exactly that.
pub mod batch;
pub mod bytes;
pub mod fill;
pub mod grind;
pub mod hex;
pub mod job;
pub mod mixer;
pub mod nonce;
pub mod phase;
pub mod sandglass;
pub mod scratch;
pub mod settings;
pub mod sha;
pub mod target;
pub mod text;
pub mod tuning;
pub mod walk;
pub mod worker;

pub use batch::SandglassBatch;
pub use sandglass::{Sandglass, HEADER_LEN};
pub use target::hash_meets_target;
