use vstd::prelude::*;

pub mod bigram;
pub mod distance;
pub mod index;
pub mod keyed;
pub mod keyed_format;
pub mod ranking;
pub mod search;
pub mod serialization;
pub mod sorted;
pub mod text;
pub mod tokens;

verus! {

} // verus!
