//! The decision logic of a node's networking layer: address forms, bringing up
//! listeners all or nothing, the bookkeeping behind the incoming-connection
//! stream, and the reliability layers of a transport (sequencing, integrity
//! checks, acknowledgment with a retry budget, and their composition).
use vstd::prelude::*;

pub mod address;
pub mod checking;
pub mod handshakes;
pub mod listeners;
pub mod reliable;
pub mod retry;
pub mod sequencing;

verus! {

} // verus!
