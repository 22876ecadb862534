//! Password-strength analysis and wordlist generation.
//!
//! Two independent paths live here. The entropy path loads a ranked
//! vocabulary of subwords and finds the cheapest way to cut a password into
//! known subwords. The generation path parses a mask into slots and walks
//! every expansion of the mask in odometer order.

pub mod charsets;
pub mod counting;
pub mod generator;
pub mod lines;
pub mod mask;
pub mod password_entropy;
pub mod runner;
pub mod smartlist;
pub mod wordlists;
