//! A one-field record with a byte-exact codec: the smallest instance of
//! the encode/decode discipline the command log is built on.

use vstd::prelude::*;
use crate::error::MyError;

verus! {

/// A single move of some distance.
#[derive(Debug, Clone, Copy, PartialEq, Eq, Structural)]
pub struct Move {
    pub distance: u8,
}

/// A move's one-byte encoding.
pub open spec fn spec_encode_move(m: Move) -> Seq<u8> {
    seq![m.distance]
}

/// Encode a move as exactly one byte.
pub fn encode_move(m: &Move) -> (r: Vec<u8>)
    ensures
        r@ == spec_encode_move(*m),
{
    let mut out: Vec<u8> = Vec::new();
    out.push(m.distance);
    proof {
        assert(out@ =~= seq![m.distance]);
    }
    out
}

/// Decode the move record at `start`, consuming exactly one byte;
/// running out of bytes is a malformed record.
pub fn decode_move(bytes: &Vec<u8>, start: usize) -> (r: Result<(Move, usize), MyError>)
    requires
        start <= bytes@.len(),
    ensures
        start < bytes@.len() ==> r == Ok::<(Move, usize), MyError>(
            (Move { distance: bytes@[start as int] }, 1usize),
        ),
        start == bytes@.len() ==> r == Err::<(Move, usize), MyError>(MyError::MalformedRecord),
{
    if start < bytes.len() {
        Ok((Move { distance: bytes[start] }, 1))
    } else {
        Err(MyError::MalformedRecord)
    }
}

} // verus!
