//! Client-side mechanics for fetching one piece of file data from a
//! peer in a peer-to-peer file-sharing network, given a metadata file:
//! the canonical value codec, the typed metadata model with its content
//! identifier, the coordination-server query and peer-list decoding,
//! and the peer wire-protocol state machine with block-level transfer
//! and integrity verification.  All I/O stays outside the library: the
//! functions here turn received bytes into decisions and bytes to send.
use vstd::prelude::*;

pub mod bencode;
pub mod decimal;
pub mod decode;
pub mod digest;
pub mod encode;
pub mod metadata;
pub mod peer;
pub mod render;
pub mod roundtrip;
pub mod text;
pub mod tracker;

verus! {

} // verus!
