//! Verified greatest-common-divisor algorithms and benchmark statistics.
//!
//! The crate holds two parts: four GCD algorithms (two brute-force scans and
//! two variants of Euclid's algorithm), each proved against a mathematical
//! definition of the greatest common divisor, and a statistics engine that
//! reduces a run's timing samples to maximum, minimum, mean and median and
//! compares two aligned runs pairwise.

pub mod gcd;
pub mod stats;

pub use gcd::bruteforce_v1_gcd;
pub use gcd::bruteforce_v2_gcd;
pub use gcd::euclid_gcd;
pub use gcd::euclid_v2_gcd;
pub use gcd::compute_gcd;
pub use gcd::AlgorithmKind;
pub use stats::summarize;
pub use stats::RunResult;

