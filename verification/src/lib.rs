//! Random password generation with arbitrary-precision length and
//! category counts.
//!
//! A password is described by three non-negative integers: its total
//! `length`, the number of symbol characters and the number of digit
//! characters it must contain; the remaining positions are filled with
//! letters. The counts are arbitrary-precision values, so the library
//! carries them in its own verified big-number type and only converts
//! them to machine integers after they have been decomposed into small
//! bounded chunks.

use vstd::prelude::*;

pub mod bignat;
pub mod charset;
mod rng;
pub mod password;
pub mod seqext;
pub mod shuffle;

verus! {

pub use crate::password::PasswordError;
pub use crate::password::RandomPassword;

} // verus!
