pub mod bitset;
pub mod check;
pub mod engine;
pub mod offsets;
pub mod primes;
pub mod sieve;
pub mod uint;

pub use engine::{Job, JobError, JobWarning, Output, Params, Stats, Stella, Task, TaskType};
pub use offsets::default_primorial_offset;
pub use primes::{compute_modular_inverses, generate_primes, is_prime_fermat, primorial};
pub use sieve::{sieve_segment, Sieve};
pub use check::check_candidate;
pub use uint::Uint;

use vstd::prelude::*;

verus! {

/// The number of bits in one word of a bit-packed sieve segment.
pub const WORD_SIZE: usize = 64;

} // verus!
