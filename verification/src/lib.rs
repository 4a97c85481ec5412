//! Write-ahead logging for a key-value store.
//!
//! The log is a stream of 32 KiB blocks holding CRC-protected records. Log
//! entries are serialized, split into records and appended block by block;
//! a bidirectional iterator reads them back. Two engines, an undo log and a
//! redo log, stage entries, decide what must reach the log file before the
//! store may be flushed, and recover after a crash.
//!
//! The library performs no input or output. Functions that write hand back
//! the bytes to append to the log file; functions that read take the bytes
//! of the log file.

use vstd::prelude::*;

pub mod wal;

verus! {

/// Why a value could not be read from bytes.
#[derive(Clone, Copy, Debug, PartialEq, Eq, Structural)]
pub enum DecodeError {
    /// The bytes end before the value does.
    ShortRead,
    /// The bytes do not encode a value of the type.
    InvalidData,
}

/// A type with a byte encoding.
///
/// The encoding is stated over the type's view. `decode` reads one value
/// from the front of a byte sequence and says how many bytes it takes up.
pub trait Serializable: Sized + View {
    /// The bytes that `serialize` writes for a value.
    spec fn encode(value: Self::V) -> Seq<u8>;

    /// The value at the front of `bytes` and the length of its encoding.
    spec fn decode(bytes: Seq<u8>) -> Result<(Self::V, nat), DecodeError>;

    /// The values that `decode` reads back from their encoding.
    spec fn encodable(value: Self::V) -> bool;

    /// Decoding the encoding of an encodable value, whatever follows it,
    /// gives the value back and takes up exactly the encoding.
    proof fn lemma_decode_encode(value: Self::V, rest: Seq<u8>)
        requires
            Self::encodable(value),
        ensures
            Self::decode(Self::encode(value) + rest) == Ok::<(Self::V, nat), DecodeError>(
                (value, Self::encode(value).len()),
            ),
    ;

    /// A decoded value takes up no more bytes than there are.
    proof fn lemma_decode_length(bytes: Seq<u8>)
        ensures
            Self::decode(bytes) matches Ok((_, n)) ==> n <= bytes.len(),
    ;

    /// Appends the encoding of `self` to `bytes`.
    fn serialize(&self, bytes: &mut Vec<u8>)
        ensures
            final(bytes)@ == old(bytes)@ + Self::encode(self@),
    ;

    /// Reads one value from the front of `bytes` and advances `bytes` past
    /// it. On failure `bytes` stays where it was.
    fn deserialize(bytes: &mut &[u8]) -> (r: Result<Self, DecodeError>)
        ensures
            match Self::decode(old(bytes)@) {
                Ok((value, n)) => r matches Ok(v) && v@ == value && final(bytes)@ == old(
                    bytes,
                )@.skip(n as int),
                Err(e) => r matches Err(e2) && e2 == e && final(bytes)@ == old(bytes)@,
            },
    ;
}

} // verus!
