//! Exhaustive enumeration of minimum-size circuits over the basis
//! {AND, OR, literal, negated literal}, one worker's state and rules.

pub mod truth_table;
pub mod circuit;
pub mod table;
pub mod worker;
pub mod driver;
pub mod minimal;
