//! Canonical wire objects of a cross-chain messaging handshake: connection
//! ends, channel ends, packets and their acknowledgements, with an exact
//! byte encoding and its decoder.
use vstd::prelude::*;

pub mod object;
pub mod wire;

verus! {

} // verus!
