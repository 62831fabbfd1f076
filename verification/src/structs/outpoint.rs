use vstd::prelude::*;
use vstd::slice::slice_to_vec;
use crate::encoding::{
    le_bytes, le_value, lemma_le_bytes_len, lemma_le_value_of_bytes, lemma_pow256_values, pow256,
    write_le,
};
use crate::error::CustomError;
use crate::hashing::{bytes_equal, copy_bytes};
use crate::parser::BufferParser;

verus! {

/// The place of a transaction output: the hash of the transaction that
/// made it and its index among that transaction's outputs.
#[derive(Debug, Eq, PartialEq, Hash, Clone)]
pub struct OutPoint {
    pub hash: Vec<u8>,
    pub index: u32,
}

/// An outpoint as plain values.
pub struct OutPointView {
    pub hash: Seq<u8>,
    pub index: u32,
}

impl View for OutPoint {
    type V = OutPointView;

    open spec fn view(&self) -> OutPointView {
        OutPointView { hash: self.hash@, index: self.index }
    }
}

impl OutPointView {
    /// The hash has the 32 bytes of a transaction hash.
    pub open spec fn wf(self) -> bool {
        self.hash.len() == 32
    }

    /// The bytes of the outpoint on the wire: the hash, then the index on
    /// four bytes, least significant first.
    pub open spec fn serialize(self) -> Seq<u8> {
        self.hash + le_bytes(self.index as nat, 4)
    }

    /// The outpoint that the first 36 bytes of `s` spell, if `s` has them.
    pub open spec fn parse(s: Seq<u8>) -> Option<OutPointView> {
        if s.len() < 36 {
            None
        } else {
            Some(
                OutPointView {
                    hash: s.subrange(0, 32),
                    index: le_value(s.subrange(32, 36)) as u32,
                },
            )
        }
    }

    /// Parsing what was serialized, whatever follows it, gives the
    /// outpoint back.
    pub proof fn lemma_roundtrip(self, rest: Seq<u8>)
        requires
            self.wf(),
        ensures
            self.serialize().len() == 36,
            OutPointView::parse(self.serialize() + rest) == Some(self),
    {
        let s = self.serialize() + rest;
        lemma_le_bytes_len(self.index as nat, 4);
        lemma_le_value_of_bytes(self.index as nat, 4);
        lemma_pow256_values();
        assert(s.subrange(0, 32) =~= self.hash);
        assert(s.subrange(32, 36) =~= le_bytes(self.index as nat, 4));
        vstd::arithmetic::div_mod::lemma_small_mod(self.index as nat, pow256(4));
    }
}

impl OutPoint {
    /// The bytes of the outpoint on the wire.
    pub fn serialize(&self) -> (buffer: Vec<u8>)
        ensures
            buffer@ == self@.serialize(),
    {
        let mut buffer = copy_bytes(&self.hash);
        let mut index = write_le(self.index as u64, 4);
        buffer.append(&mut index);
        buffer
    }

    /// Reads an outpoint from the first 36 bytes of `buffer`; fails when
    /// there are fewer.
    pub fn parse(buffer: Vec<u8>) -> (r: Result<Self, CustomError>)
        ensures
            match OutPointView::parse(buffer@) {
                Some(outpoint) => r is Ok && r->Ok_0@ == outpoint,
                None => r is Err && r->Err_0 == CustomError::SerializedBufferIsInvalid,
            },
    {
        let mut parser = BufferParser::new(buffer);
        if parser.len() < 36 {
            return Err(CustomError::SerializedBufferIsInvalid);
        }
        let hash = match parser.extract_buffer(32) {
            Ok(bytes) => slice_to_vec(bytes),
            Err(e) => { return Err(e); },
        };
        let index = match parser.extract_u32() {
            Ok(index) => index,
            Err(e) => { return Err(e); },
        };
        proof {
            assert(buffer@.take(32) =~= buffer@.subrange(0, 32));
            assert(buffer@.skip(32).take(4) =~= buffer@.subrange(32, 36));
            crate::encoding::lemma_le_value_bound(buffer@.subrange(32, 36));
            lemma_pow256_values();
        }
        Ok(Self { hash, index })
    }

    /// Whether two outpoints name the same output.
    pub fn same(&self, other: &OutPoint) -> (same: bool)
        ensures
            same == (self@ == other@),
    {
        self.index == other.index && bytes_equal(self.hash.as_slice(), other.hash.as_slice())
    }

    /// A copy of the outpoint.
    pub fn duplicate(&self) -> (copy: OutPoint)
        ensures
            copy@ == self@,
    {
        OutPoint { hash: copy_bytes(&self.hash), index: self.index }
    }
}

} // verus!
