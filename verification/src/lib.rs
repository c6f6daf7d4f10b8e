//! An incrementally growing segmented sieve of Eratosthenes.
//!
//! The number line `[0, N)` is partitioned into contiguous batches of
//! doubling size.  The first batch bootstraps primality by classical trial
//! sieving; every later batch is sieved purely from the primes discovered in
//! earlier, smaller batches, using the fact that a composite below a bound
//! has a prime factor no larger than its square root.

pub mod batch;
pub mod layout;
pub mod model;
pub mod primes;
pub mod space;

pub use batch::Batch;
pub use layout::batch_count;
pub use space::Space;
