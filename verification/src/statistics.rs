//! Rank statistics on weighted observations, and the plain statistics of a
//! sequence of samples.
pub mod inversion;
pub mod kendall_tau;
pub mod min_max;
pub mod rank;
pub mod root;
pub mod sort;
pub mod stable;
pub mod sum;
pub mod sums;
