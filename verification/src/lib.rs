//! Algorithms for the pallet loading problem: placing a maximum number of
//! identical rectangular boxes onto a single rectangular pallet.

/// Pallet Loading Problem
///
/// The purpose of the Pallet Loading Problem is to place a maximum number of
/// identical rectangular boxes onto a single rectangular pallet. The plp
/// module provides various algorithms to solve it.
pub mod plp;
