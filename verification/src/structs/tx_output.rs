use vstd::prelude::*;
use vstd::slice::slice_to_vec;
use crate::encoding::{
    le_bytes, le_value, lemma_le_bytes_len, lemma_le_value_bound, lemma_le_value_of_bytes,
    lemma_pow256_values, pow256, write_le,
};
use crate::error::CustomError;
use crate::hashing::{bytes_equal, copy_bytes};
use crate::parser::{
    lemma_varint_roundtrip, parse_varint, rejected_with, varint_bytes, varint_encoding, BufferParser, Parsed,
};

verus! {

/// An output of a transaction: an amount in base units and the script that
/// says who may spend it.
#[derive(Debug, Clone, PartialEq, Eq)]
pub struct TransactionOutput {
    pub value: u64,
    pub script_pubkey: Vec<u8>,
}

/// An output as plain values.
pub struct TransactionOutputView {
    pub value: u64,
    pub script_pubkey: Seq<u8>,
}

impl View for TransactionOutput {
    type V = TransactionOutputView;

    open spec fn view(&self) -> TransactionOutputView {
        TransactionOutputView { value: self.value, script_pubkey: self.script_pubkey@ }
    }
}

/// The script that pays to the key with hash `key_hash`: `OP_DUP
/// OP_HASH160`, a push of twenty bytes, the hash, `OP_EQUALVERIFY
/// OP_CHECKSIG`.
pub open spec fn p2pkh_script(key_hash: Seq<u8>) -> Seq<u8> {
    seq![0x76u8, 0xa9u8, 0x14u8] + key_hash + seq![0x88u8, 0xacu8]
}

/// Whether `script` pays to the key with hash `key_hash` and does nothing
/// else.
pub open spec fn pays_to_key(script: Seq<u8>, key_hash: Seq<u8>) -> bool {
    key_hash.len() == 20 && script == p2pkh_script(key_hash)
}

impl TransactionOutputView {
    /// The script's length fits the eight bytes of a compact size.
    pub open spec fn wf(self) -> bool {
        self.script_pubkey.len() <= u64::MAX
    }

    /// The bytes of the output on the wire: the value on eight bytes, least
    /// significant first, the script's length as a compact size, the
    /// script.
    pub open spec fn serialize(self) -> Seq<u8> {
        le_bytes(self.value as nat, 8) + varint_encoding(self.script_pubkey.len())
            + self.script_pubkey
    }

    /// Reads an output from the front of `s`.
    pub open spec fn parse(s: Seq<u8>) -> Parsed<TransactionOutputView> {
        if s.len() < 8 {
            Parsed::Failed { used: 0 }
        } else {
            match parse_varint(s.skip(8)) {
                Parsed::Failed { used } => Parsed::Failed { used: 8 + used },
                Parsed::Rejected { used, message } => Parsed::Rejected {
                    used: 8 + used,
                    message,
                },
                Parsed::Done { value: len, used } => if s.len() < 8 + used + len {
                    Parsed::Failed { used: 8 + used }
                } else {
                    Parsed::Done {
                        value: TransactionOutputView {
                            value: le_value(s.take(8)) as u64,
                            script_pubkey: s.subrange(8 + used as int, 8 + used + len as int),
                        },
                        used: 8 + used + len,
                    }
                },
            }
        }
    }

    /// Parsing what was serialized, whatever follows it, gives the output
    /// back and passes exactly its bytes.
    pub proof fn lemma_roundtrip(self, rest: Seq<u8>)
        requires
            self.wf(),
        ensures
            TransactionOutputView::parse(self.serialize() + rest) == (Parsed::Done {
                value: self,
                used: self.serialize().len(),
            }),
    {
        let s = self.serialize() + rest;
        let len = self.script_pubkey.len();
        let enc = varint_encoding(len);
        lemma_le_bytes_len(self.value as nat, 8);
        lemma_le_value_of_bytes(self.value as nat, 8);
        lemma_pow256_values();
        vstd::arithmetic::div_mod::lemma_small_mod(self.value as nat, pow256(8));
        assert(s.take(8) =~= le_bytes(self.value as nat, 8));
        assert(s.skip(8) =~= enc + (self.script_pubkey + rest));
        lemma_varint_roundtrip(len as u64, self.script_pubkey + rest);
        assert(s.subrange(8 + enc.len() as int, 8 + enc.len() + len as int)
            =~= self.script_pubkey);
    }
}

impl TransactionOutput {
    /// The bytes of the output on the wire.
    pub fn serialize(&self) -> (buffer: Vec<u8>)
        ensures
            buffer@ == self@.serialize(),
    {
        let mut buffer = write_le(self.value, 8);
        let mut length = varint_bytes(self.script_pubkey.len() as u64);
        let mut script = copy_bytes(&self.script_pubkey);
        buffer.append(&mut length);
        buffer.append(&mut script);
        buffer
    }

    /// Reads an output at the cursor. When it fails, the cursor stays where
    /// the read that failed left it.
    pub fn parse(parser: &mut BufferParser) -> (r: Result<Self, CustomError>)
        ensures
            match TransactionOutputView::parse(old(parser).remaining()) {
                Parsed::Done { value, used } => r is Ok && r->Ok_0@ == value,
                Parsed::Failed { used } => r is Err && r->Err_0
                    == CustomError::SerializedBufferIsInvalid,
                Parsed::Rejected { used, message } => r is Err && rejected_with(r->Err_0, message),
            },
            TransactionOutputView::parse(old(parser).remaining()).used() <= old(parser).remaining().len(),
            final(parser).remaining() == old(parser).remaining().skip(
                TransactionOutputView::parse(old(parser).remaining()).used() as int,
            ),
    {
        let ghost before = parser.remaining();
        assert(before.skip(0) =~= before);
        let value = match parser.extract_u64() {
            Ok(value) => value,
            Err(e) => { return Err(e); },
        };
        proof {
            lemma_le_value_bound(before.take(8));
            lemma_pow256_values();
        }
        let ghost after_value = parser.remaining();
        let ghost used = parse_varint(after_value).used() as int;
        let length = parser.extract_varint();
        assert(before.skip(8).skip(used) =~= before.skip(8 + used));
        let length = match length {
            Ok(length) => length,
            Err(e) => { return Err(e); },
        };
        let left = parser.len();
        if length > left as u64 {
            return Err(CustomError::SerializedBufferIsInvalid);
        }
        let script_pubkey = match parser.extract_buffer(length as usize) {
            Ok(bytes) => slice_to_vec(bytes),
            Err(e) => { return Err(e); },
        };
        proof {
            assert(before.skip(8 + used).take(length as int) =~= before.subrange(
                8 + used,
                8 + used + length,
            ));
            assert(before.skip(8 + used).skip(length as int) =~= before.skip(
                8 + used + length,
            ));
        }
        Ok(Self { value, script_pubkey })
    }

    /// Whether the output pays to the key with hash `public_key_hash` and
    /// does nothing else. Every script is either such a payment or not:
    /// the answer is always `Ok`.
    pub fn is_sent_to_key(&self, public_key_hash: &Vec<u8>) -> (r: Result<bool, CustomError>)
        ensures
            r is Ok,
            r->Ok_0 == pays_to_key(self.script_pubkey@, public_key_hash@),
    {
        Ok(compare_p2pkh(&self.script_pubkey, public_key_hash))
    }

    /// A copy of the output.
    pub fn duplicate(&self) -> (copy: TransactionOutput)
        ensures
            copy@ == self@,
    {
        TransactionOutput { value: self.value, script_pubkey: copy_bytes(&self.script_pubkey) }
    }
}

/// Whether `script` is the pay-to-public-key-hash script for
/// `public_key_hash`.
pub fn compare_p2pkh(script: &Vec<u8>, public_key_hash: &Vec<u8>) -> (same: bool)
    ensures
        same == pays_to_key(script@, public_key_hash@),
{
    if public_key_hash.len() != 20 || script.len() != 25 {
        return false;
    }
    if script[0] != 0x76 || script[1] != 0xa9 || script[2] != 0x14 || script[23] != 0x88
        || script[24] != 0xac {
        return false;
    }
    let hash = vstd::slice::slice_subrange(script.as_slice(), 3, 23);
    let same = bytes_equal(hash, public_key_hash.as_slice());
    proof {
        let expected = p2pkh_script(public_key_hash@);
        if same {
            assert(script@ =~= expected);
        } else {
            assert(expected.subrange(3, 23) =~= public_key_hash@);
        }
    }
    same
}

/// The pay-to-public-key-hash script for a key hash of twenty bytes.
pub fn make_p2pkh_script(key_hash: &Vec<u8>) -> (script: Vec<u8>)
    ensures
        script@ == p2pkh_script(key_hash@),
{
    let mut script: Vec<u8> = Vec::new();
    script.push(0x76);
    script.push(0xa9);
    script.push(0x14);
    let mut hash = copy_bytes(key_hash);
    script.append(&mut hash);
    script.push(0x88);
    script.push(0xac);
    assert(script@ =~= p2pkh_script(key_hash@));
    script
}

} // verus!
