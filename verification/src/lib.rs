//! Rank and count queries over the primes, answered from a table of
//! per-block prime counts and an on-demand segmented sieve.

pub mod base_sieve;
pub mod error;
pub mod index;
pub mod primality;
pub mod request;
pub mod segmented;
pub mod table;

pub use base_sieve::prime_list;
pub use error::PrimeError;
pub use index::{PrimeIndex, N, SQRTN};
pub use request::{answer_nth_prime, Answer};
pub use segmented::prime_list_range;
pub use table::{build_prefix_sum, load_table, parse_decimal, parse_table};
