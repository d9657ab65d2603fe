//! The command log codec: the two mutation records and their byte-exact,
//! self-delimiting encoding.
//!
//! A record is a tag byte (`0` for `Put`, `1` for `Remove`) followed by
//! each string as an 8-byte little-endian length and then its UTF-8
//! bytes.  The decoder can therefore find the end of a record from the
//! record alone, and a log file is a plain concatenation of records.

use vstd::prelude::*;
use vstd::bytes::{
    lemma_auto_spec_u64_to_from_le_bytes, spec_u64_from_le_bytes, spec_u64_to_le_bytes,
    u64_from_le_bytes, u64_to_le_bytes,
};
use vstd::slice::{slice_index_get, slice_subrange, slice_to_vec};
use vstd::utf8::{decode_utf8, decode_utf8_encode_utf8, encode_utf8, encode_utf8_decode_utf8,
    encode_utf8_valid_utf8,
    valid_utf8};
use crate::error::MyError;

verus! {

/// A mutation record, the only thing ever written to the log.
#[derive(Debug, Clone, PartialEq, Eq)]
pub enum Command {
    Put { key: String, value: String },
    Remove { key: String },
}

/// The mathematical shape of a [`Command`]: its strings as character
/// sequences.
pub enum CommandView {
    Put { key: Seq<char>, value: Seq<char> },
    Remove { key: Seq<char> },
}

impl View for Command {
    type V = CommandView;

    open spec fn view(&self) -> CommandView {
        match self {
            Command::Put { key, value } => CommandView::Put { key: key@, value: value@ },
            Command::Remove { key } => CommandView::Remove { key: key@ },
        }
    }
}

/// The byte encoding of a command.  The `as u64` casts are exact for
/// every command an execution can hold, since a string's byte length
/// fits in `usize`.
pub open spec fn spec_encode(c: CommandView) -> Seq<u8> {
    match c {
        CommandView::Put { key, value } => seq![0u8] + spec_u64_to_le_bytes(
            encode_utf8(key).len() as u64,
        ) + encode_utf8(key) + spec_u64_to_le_bytes(encode_utf8(value).len() as u64) + encode_utf8(
            value,
        ),
        CommandView::Remove { key } => seq![1u8] + spec_u64_to_le_bytes(
            encode_utf8(key).len() as u64,
        ) + encode_utf8(key),
    }
}

/// True when the command's strings are short enough for the length
/// prefixes of [`spec_encode`] to be exact.  Every string held by a
/// running program satisfies this.
pub open spec fn spec_command_encodable(c: CommandView) -> bool {
    match c {
        CommandView::Put { key, value } => encode_utf8(key).len() <= u64::MAX && encode_utf8(
            value,
        ).len() <= u64::MAX,
        CommandView::Remove { key } => encode_utf8(key).len() <= u64::MAX,
    }
}

/// What the decoder finds at the front of a byte sequence.
pub enum SpecDecodeOutcome {
    /// A complete record of `len` bytes.
    Record { cmd: CommandView, len: int },
    /// A proper prefix of some record: more bytes could complete it.
    Incomplete,
    /// Bytes that no extension can turn into a record.
    Malformed,
}

/// Decode one record from the front of `bytes`.
pub open spec fn spec_decode(bytes: Seq<u8>) -> SpecDecodeOutcome {
    if bytes.len() == 0 {
        SpecDecodeOutcome::Incomplete
    } else if bytes[0] == 0u8 {
        if bytes.len() < 9 {
            SpecDecodeOutcome::Incomplete
        } else {
            let klen = spec_u64_from_le_bytes(bytes.subrange(1, 9)) as int;
            if bytes.len() < 17 + klen {
                SpecDecodeOutcome::Incomplete
            } else {
                let vlen = spec_u64_from_le_bytes(bytes.subrange(9 + klen, 17 + klen)) as int;
                if bytes.len() < 17 + klen + vlen {
                    SpecDecodeOutcome::Incomplete
                } else {
                    let kb = bytes.subrange(9, 9 + klen);
                    let vb = bytes.subrange(17 + klen, 17 + klen + vlen);
                    if valid_utf8(kb) && valid_utf8(vb) {
                        SpecDecodeOutcome::Record {
                            cmd: CommandView::Put {
                                key: decode_utf8(kb),
                                value: decode_utf8(vb),
                            },
                            len: 17 + klen + vlen,
                        }
                    } else {
                        SpecDecodeOutcome::Malformed
                    }
                }
            }
        }
    } else if bytes[0] == 1u8 {
        if bytes.len() < 9 {
            SpecDecodeOutcome::Incomplete
        } else {
            let klen = spec_u64_from_le_bytes(bytes.subrange(1, 9)) as int;
            if bytes.len() < 9 + klen {
                SpecDecodeOutcome::Incomplete
            } else {
                let kb = bytes.subrange(9, 9 + klen);
                if valid_utf8(kb) {
                    SpecDecodeOutcome::Record {
                        cmd: CommandView::Remove { key: decode_utf8(kb) },
                        len: 9 + klen,
                    }
                } else {
                    SpecDecodeOutcome::Malformed
                }
            }
        }
    } else {
        SpecDecodeOutcome::Malformed
    }
}

/// A decoded record is never empty and never claims more bytes than
/// were offered.
pub proof fn lemma_record_len(bytes: Seq<u8>)
    ensures
        spec_decode(bytes) matches SpecDecodeOutcome::Record { len, .. } ==> 9 <= len
            <= bytes.len(),
{
}

/// Appending bytes after a complete record does not change how the
/// record decodes.
pub proof fn lemma_decode_prefix_stable(bytes: Seq<u8>, ext: Seq<u8>)
    requires
        spec_decode(bytes) is Record,
    ensures
        spec_decode(bytes + ext) == spec_decode(bytes),
{
    let c = bytes + ext;
    assert(c[0] == bytes[0]);
    if bytes[0] == 0u8 {
        assert(c.subrange(1, 9) =~= bytes.subrange(1, 9));
        let klen = spec_u64_from_le_bytes(bytes.subrange(1, 9)) as int;
        assert(c.subrange(9 + klen, 17 + klen) =~= bytes.subrange(9 + klen, 17 + klen));
        let vlen = spec_u64_from_le_bytes(bytes.subrange(9 + klen, 17 + klen)) as int;
        assert(c.subrange(9, 9 + klen) =~= bytes.subrange(9, 9 + klen));
        assert(c.subrange(17 + klen, 17 + klen + vlen) =~= bytes.subrange(
            17 + klen,
            17 + klen + vlen,
        ));
    } else {
        assert(c.subrange(1, 9) =~= bytes.subrange(1, 9));
        let klen = spec_u64_from_le_bytes(bytes.subrange(1, 9)) as int;
        assert(c.subrange(9, 9 + klen) =~= bytes.subrange(9, 9 + klen));
    }
}

/// A record reads the same from any cut of the bytes that keeps the
/// whole record: dropping bytes after a complete record does not change
/// how it decodes.
pub proof fn lemma_decode_take(bytes: Seq<u8>, c: CommandView, l: int, n: int)
    requires
        spec_decode(bytes) == (SpecDecodeOutcome::Record { cmd: c, len: l }),
        l <= n <= bytes.len(),
    ensures
        spec_decode(bytes.take(n)) == spec_decode(bytes),
{
    let t = bytes.take(n);
    assert(t[0] == bytes[0]);
    if bytes[0] == 0u8 {
        assert(t.subrange(1, 9) =~= bytes.subrange(1, 9));
        let klen = spec_u64_from_le_bytes(bytes.subrange(1, 9)) as int;
        assert(t.subrange(9 + klen, 17 + klen) =~= bytes.subrange(9 + klen, 17 + klen));
        let vlen = spec_u64_from_le_bytes(bytes.subrange(9 + klen, 17 + klen)) as int;
        assert(t.subrange(9, 9 + klen) =~= bytes.subrange(9, 9 + klen));
        assert(t.subrange(17 + klen, 17 + klen + vlen) =~= bytes.subrange(
            17 + klen,
            17 + klen + vlen,
        ));
    } else {
        assert(t.subrange(1, 9) =~= bytes.subrange(1, 9));
        let klen = spec_u64_from_le_bytes(bytes.subrange(1, 9)) as int;
        assert(t.subrange(9, 9 + klen) =~= bytes.subrange(9, 9 + klen));
    }
}

/// A decoded record re-encodes to exactly its own length: how many
/// bytes a record takes can be read off the command it holds.
pub proof fn lemma_decode_encode_len(bytes: Seq<u8>, c: CommandView, l: int)
    requires
        spec_decode(bytes) == (SpecDecodeOutcome::Record { cmd: c, len: l }),
    ensures
        spec_encode(c).len() == l,
{
    lemma_auto_spec_u64_to_from_le_bytes();
    if bytes[0] == 0u8 {
        let klen = spec_u64_from_le_bytes(bytes.subrange(1, 9)) as int;
        let vlen = spec_u64_from_le_bytes(bytes.subrange(9 + klen, 17 + klen)) as int;
        decode_utf8_encode_utf8(bytes.subrange(9, 9 + klen));
        decode_utf8_encode_utf8(bytes.subrange(17 + klen, 17 + klen + vlen));
    } else {
        let klen = spec_u64_from_le_bytes(bytes.subrange(1, 9)) as int;
        decode_utf8_encode_utf8(bytes.subrange(9, 9 + klen));
    }
}

/// Round trip: decoding the encoding of any command yields exactly that
/// command back and consumes exactly the encoding's length, whatever
/// bytes follow the record.
pub proof fn lemma_encode_decode(c: CommandView, rest: Seq<u8>)
    requires
        spec_command_encodable(c),
    ensures
        spec_decode(spec_encode(c) + rest) == (SpecDecodeOutcome::Record {
            cmd: c,
            len: spec_encode(c).len() as int,
        }),
{
    lemma_auto_spec_u64_to_from_le_bytes();
    let b = spec_encode(c) + rest;
    match c {
        CommandView::Put { key, value } => {
            let kb = encode_utf8(key);
            let vb = encode_utf8(value);
            let klen = kb.len() as int;
            let vlen = vb.len() as int;
            encode_utf8_valid_utf8(key);
            encode_utf8_valid_utf8(value);
            encode_utf8_decode_utf8(key);
            encode_utf8_decode_utf8(value);
            assert(spec_u64_to_le_bytes(kb.len() as u64).len() == 8);
            assert(spec_u64_to_le_bytes(vb.len() as u64).len() == 8);
            assert(spec_encode(c).len() == 17 + klen + vlen);
            assert(b[0] == 0u8);
            assert(b.subrange(1, 9) =~= spec_u64_to_le_bytes(kb.len() as u64));
            assert(spec_u64_from_le_bytes(b.subrange(1, 9)) == kb.len() as u64);
            assert(b.subrange(9, 9 + klen) =~= kb);
            assert(b.subrange(9 + klen, 17 + klen) =~= spec_u64_to_le_bytes(vb.len() as u64));
            assert(spec_u64_from_le_bytes(b.subrange(9 + klen, 17 + klen)) == vb.len() as u64);
            assert(b.subrange(17 + klen, 17 + klen + vlen) =~= vb);
        },
        CommandView::Remove { key } => {
            let kb = encode_utf8(key);
            let klen = kb.len() as int;
            encode_utf8_valid_utf8(key);
            encode_utf8_decode_utf8(key);
            assert(spec_u64_to_le_bytes(kb.len() as u64).len() == 8);
            assert(spec_encode(c).len() == 9 + klen);
            assert(b[0] == 1u8);
            assert(b.subrange(1, 9) =~= spec_u64_to_le_bytes(kb.len() as u64));
            assert(spec_u64_from_le_bytes(b.subrange(1, 9)) == kb.len() as u64);
            assert(b.subrange(9, 9 + klen) =~= kb);
        },
    }
}

/// Append a byte slice to a growing buffer.
pub(crate) fn push_bytes(out: &mut Vec<u8>, bytes: &[u8])
    ensures
        final(out)@ == old(out)@ + bytes@,
{
    let n = bytes.len();
    let mut i: usize = 0;
    while i < n
        invariant
            i <= n,
            n == bytes@.len(),
            out@ == old(out)@ + bytes@.subrange(0, i as int),
        decreases n - i,
    {
        out.push(*slice_index_get(bytes, i));
        proof {
            assert(old(out)@ + bytes@.subrange(0, i as int) + seq![bytes@[i as int]] =~= old(out)@
                + bytes@.subrange(0, i + 1));
        }
        i = i + 1;
    }
    proof {
        assert(bytes@.subrange(0, n as int) =~= bytes@);
    }
}

/// Append one string's wire form: an 8-byte little-endian byte length,
/// then the string's UTF-8 bytes.
fn push_string(out: &mut Vec<u8>, s: &String)
    ensures
        final(out)@ == old(out)@ + spec_u64_to_le_bytes(encode_utf8(s@).len() as u64) + encode_utf8(
            s@,
        ),
        encode_utf8(s@).len() <= u64::MAX,
{
    let bytes: &[u8] = s.as_str().as_bytes();
    let len_bytes = u64_to_le_bytes(bytes.len() as u64);
    push_bytes(out, len_bytes.as_slice());
    push_bytes(out, bytes);
}

/// Encode a command as one self-delimiting record.
pub fn encode(c: &Command) -> (r: Vec<u8>)
    ensures
        r@ == spec_encode(c@),
        spec_command_encodable(c@),
{
    let mut out: Vec<u8> = Vec::new();
    match c {
        Command::Put { key, value } => {
            out.push(0u8);
            push_string(&mut out, key);
            push_string(&mut out, value);
        },
        Command::Remove { key } => {
            out.push(1u8);
            push_string(&mut out, key);
        },
    }
    proof {
        assert(out@ =~= spec_encode(c@));
    }
    out
}

/// What an attempt to decode at some position found, as runnable data.
pub enum DecodeOutcome {
    Record { cmd: Command, len: usize },
    Incomplete,
    Malformed,
}

impl View for DecodeOutcome {
    type V = SpecDecodeOutcome;

    open spec fn view(&self) -> SpecDecodeOutcome {
        match self {
            DecodeOutcome::Record { cmd, len } => SpecDecodeOutcome::Record {
                cmd: cmd@,
                len: *len as int,
            },
            DecodeOutcome::Incomplete => SpecDecodeOutcome::Incomplete,
            DecodeOutcome::Malformed => SpecDecodeOutcome::Malformed,
        }
    }
}

/// Relies on `String::from_utf8`: it succeeds exactly on valid UTF-8
/// input, and the returned string is the one those bytes encode.
#[verifier::external_body]
fn string_from_utf8(bytes: Vec<u8>) -> (r: Option<String>)
    ensures
        r is Some <==> valid_utf8(bytes@),
        r matches Some(s) ==> s@ == decode_utf8(bytes@),
{
    String::from_utf8(bytes).ok()
}

/// Decode the record that starts at `start`, reporting a truncated tail
/// (`Incomplete`) apart from unusable bytes (`Malformed`).
pub fn decode_at(data: &Vec<u8>, start: usize) -> (r: DecodeOutcome)
    requires
        start <= data@.len(),
    ensures
        r@ == spec_decode(data@.skip(start as int)),
{
    let ghost t = data@.skip(start as int);
    let n = data.len();
    if start == n {
        return DecodeOutcome::Incomplete;
    }
    let tag = data[start];
    assert(t[0] == data@[start as int]);
    if tag != 0u8 && tag != 1u8 {
        return DecodeOutcome::Malformed;
    }
    let rem = n - start;
    if rem < 9 {
        return DecodeOutcome::Incomplete;
    }
    let klen_u64 = u64_from_le_bytes(slice_subrange(data.as_slice(), start + 1, start + 9));
    proof {
        assert(data@.subrange(start + 1, start + 9) =~= t.subrange(1, 9));
    }
    let after_header = rem - 9;
    if klen_u64 > after_header as u64 {
        // the key bytes are not all present yet
        return DecodeOutcome::Incomplete;
    }
    let klen = klen_u64 as usize;
    if tag == 1u8 {
        let kb = slice_to_vec(slice_subrange(data.as_slice(), start + 9, start + 9 + klen));
        proof {
            assert(data@.subrange(start + 9, start + 9 + klen) =~= t.subrange(9, 9 + klen as int));
        }
        match string_from_utf8(kb) {
            Some(key) => DecodeOutcome::Record { cmd: Command::Remove { key }, len: 9 + klen },
            None => DecodeOutcome::Malformed,
        }
    } else {
        if after_header - klen < 8 {
            return DecodeOutcome::Incomplete;
        }
        let vlen_u64 = u64_from_le_bytes(
            slice_subrange(data.as_slice(), start + 9 + klen, start + 17 + klen),
        );
        proof {
            assert(data@.subrange(start + 9 + klen, start + 17 + klen) =~= t.subrange(
                9 + klen as int,
                17 + klen as int,
            ));
        }
        let after_key = after_header - klen - 8;
        if vlen_u64 > after_key as u64 {
            return DecodeOutcome::Incomplete;
        }
        let vlen = vlen_u64 as usize;
        let kb = slice_to_vec(slice_subrange(data.as_slice(), start + 9, start + 9 + klen));
        let vb = slice_to_vec(
            slice_subrange(data.as_slice(), start + 17 + klen, start + 17 + klen + vlen),
        );
        proof {
            assert(data@.subrange(start + 9, start + 9 + klen) =~= t.subrange(9, 9 + klen as int));
            assert(data@.subrange(start + 17 + klen, start + 17 + klen + vlen) =~= t.subrange(
                17 + klen as int,
                17 + klen as int + vlen as int,
            ));
        }
        match (string_from_utf8(kb), string_from_utf8(vb)) {
            (Some(key), Some(value)) => DecodeOutcome::Record {
                cmd: Command::Put { key, value },
                len: 17 + klen + vlen,
            },
            _ => DecodeOutcome::Malformed,
        }
    }
}

/// Decode exactly one record at `start`, as a result: anything short of
/// a complete, well-formed record is a malformed-record error.
pub fn decode_one(data: &Vec<u8>, start: usize) -> (r: Result<(Command, usize), MyError>)
    requires
        start <= data@.len(),
    ensures
        r matches Ok((cmd, n)) ==> spec_decode(data@.skip(start as int))
            == (SpecDecodeOutcome::Record { cmd: cmd@, len: n as int }),
        r matches Err(e) ==> e == MyError::MalformedRecord && !(spec_decode(
            data@.skip(start as int),
        ) is Record),
{
    match decode_at(data, start) {
        DecodeOutcome::Record { cmd, len } => Ok((cmd, len)),
        DecodeOutcome::Incomplete => Err(MyError::MalformedRecord),
        DecodeOutcome::Malformed => Err(MyError::MalformedRecord),
    }
}

} // verus!
