//! A segmented, odd-only Sieve of Eratosthenes whose chunks are sieved in
//! parallel, with every result proved equal to the primes found by trial
//! division.

pub mod base;
pub mod bitset;
pub mod chunks;
pub mod emit;
pub mod laws;
pub mod merge;
pub mod modular;
pub mod multiples;
pub mod odd;
pub mod parallel;
pub mod primes;
pub mod roots;
pub mod segment;
pub mod sieve;
pub mod sieving;

pub use crate::base::base_primes;
pub use crate::bitset::OddBitset;
pub use crate::chunks::{plan_chunks, ChunkDescriptor};
pub use crate::modular::{add_mod, sub_mod};
pub use crate::segment::sieve_chunk;
pub use crate::sieve::{get_primes, get_primes_with, DEFAULT_CHUNK_SIZE};
