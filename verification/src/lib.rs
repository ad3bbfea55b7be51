//! Wire-protocol transport layer for a length-prefixed, optionally
//! compressed and optionally encrypted packet stream.
//!
//! Packets are framed with a variable-length integer prefix, optionally
//! compressed above a configurable threshold, and optionally enciphered
//! with a byte-stream feedback cipher at extraction time.

pub mod cipher;
pub mod compress;
pub mod decode;
pub mod encode;
pub mod packet;
pub mod packets;
pub mod var_int;
pub mod var_long;

use vstd::prelude::*;

verus! {

/// Protocol-defined bound on the framed length of a single packet.
pub const MAX_PACKET_SIZE: i32 = 2097152;

} // verus!
