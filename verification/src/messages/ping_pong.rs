use vstd::prelude::*;
use crate::encoding::{
    le_bytes, le_value, lemma_le_bytes_len, lemma_le_value_of_bytes, lemma_pow256_values, pow256,
    write_le,
};
use crate::error::CustomError;
use crate::parser::BufferParser;

verus! {

/// The number of bytes of a nonce.
pub const NONCE_BYTES: usize = 8;

/// The nonce that `s` spells, if `s` has exactly eight bytes.
pub open spec fn parse_nonce(s: Seq<u8>) -> Option<u64> {
    if s.len() == 8 {
        Some(le_value(s) as u64)
    } else {
        None
    }
}

/// Reading the eight bytes of a nonce gives the nonce back.
pub proof fn lemma_nonce_roundtrip(nonce: u64)
    ensures
        le_bytes(nonce as nat, 8).len() == 8,
        parse_nonce(le_bytes(nonce as nat, 8)) == Some(nonce),
{
    lemma_le_bytes_len(nonce as nat, 8);
    lemma_le_value_of_bytes(nonce as nat, 8);
    lemma_pow256_values();
    vstd::arithmetic::div_mod::lemma_small_mod(nonce as nat, pow256(8));
}

/// Reads a nonce from a payload of exactly eight bytes.
fn read_nonce(buffer: Vec<u8>) -> (r: Result<u64, CustomError>)
    ensures
        match parse_nonce(buffer@) {
            Some(nonce) => r == Ok::<u64, CustomError>(nonce),
            None => r == Err::<u64, CustomError>(CustomError::SerializedBufferIsInvalid),
        },
{
    if buffer.len() != NONCE_BYTES {
        return Err(CustomError::SerializedBufferIsInvalid);
    }
    proof {
        assert(buffer@.take(8) =~= buffer@);
        crate::encoding::lemma_le_value_bound(buffer@);
        lemma_pow256_values();
    }
    let mut parser = BufferParser::new(buffer);
    parser.extract_u64()
}

/// A ping: a nonce that the peer is to send back.
#[derive(Debug, Clone, Copy, PartialEq, Eq, Structural)]
pub struct Ping {
    pub nonce: u64,
}

impl Ping {
    /// The command under which a ping travels.
    pub fn get_command(&self) -> (command: String)
        ensures
            command@ == "ping"@,
    {
        String::from_str("ping")
    }

    /// The nonce on eight bytes, least significant first.
    pub fn serialize(&self) -> (buffer: Vec<u8>)
        ensures
            buffer@ == le_bytes(self.nonce as nat, 8),
    {
        write_le(self.nonce, 8)
    }

    /// Reads a ping from a payload of exactly eight bytes.
    pub fn parse(buffer: Vec<u8>) -> (r: Result<Self, CustomError>)
        ensures
            match parse_nonce(buffer@) {
                Some(nonce) => r == Ok::<Ping, CustomError>(Ping { nonce }),
                None => r == Err::<Ping, CustomError>(CustomError::SerializedBufferIsInvalid),
            },
    {
        match read_nonce(buffer) {
            Ok(nonce) => Ok(Ping { nonce }),
            Err(e) => Err(e),
        }
    }
}

/// A pong: the nonce of the ping it answers.
#[derive(Debug, Clone, Copy, PartialEq, Eq, Structural)]
pub struct Pong {
    pub nonce: u64,
}

impl Pong {
    /// The command under which a pong travels.
    pub fn get_command(&self) -> (command: String)
        ensures
            command@ == "pong"@,
    {
        String::from_str("pong")
    }

    /// The nonce on eight bytes, least significant first.
    pub fn serialize(&self) -> (buffer: Vec<u8>)
        ensures
            buffer@ == le_bytes(self.nonce as nat, 8),
    {
        write_le(self.nonce, 8)
    }

    /// Reads a pong from a payload of exactly eight bytes.
    pub fn parse(buffer: Vec<u8>) -> (r: Result<Self, CustomError>)
        ensures
            match parse_nonce(buffer@) {
                Some(nonce) => r == Ok::<Pong, CustomError>(Pong { nonce }),
                None => r == Err::<Pong, CustomError>(CustomError::SerializedBufferIsInvalid),
            },
    {
        match read_nonce(buffer) {
            Ok(nonce) => Ok(Pong { nonce }),
            Err(e) => Err(e),
        }
    }
}

} // verus!
