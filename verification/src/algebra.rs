//! Number-theoretic utilities.

pub mod gcd;
pub mod lcm;
pub mod prime;
