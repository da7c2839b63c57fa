//! A small git client: object encoding, pkt-line framing, packfiles.
use vstd::prelude::*;

pub mod checkout;
pub mod codec;
pub mod delta;
pub mod discovery;
pub mod encode;
pub mod error;
pub mod kind;
pub mod objects;
pub mod pack;
pub mod negotiate;
pub mod pktline;
pub mod roundtrip;
pub mod text;
pub mod transport;

verus! {

} // verus!
