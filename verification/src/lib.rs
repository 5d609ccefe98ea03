pub mod bst;
pub mod bst_generic;
pub mod chat;
pub mod game;
pub mod hanoi;
pub mod message;
pub mod primes;
pub mod rpn;
pub mod vecutil;

use vstd::prelude::*;

verus! {

} // verus!
