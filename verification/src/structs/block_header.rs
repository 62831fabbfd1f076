use vstd::prelude::*;
use vstd::slice::{slice_subrange, slice_to_vec};
use crate::encoding::{
    from_twos_complement, le_bytes, le_less, le_value, lemma_le_bytes_len, lemma_le_value_bound,
    lemma_le_value_concat, lemma_le_value_of_bytes, lemma_le_value_zeros, lemma_pow256_values,
    pow256, push_zeros, read_le, twos_complement, write_le, zeros,
};
use crate::error::CustomError;
use crate::hashing::{copy_bytes, sha256d, sha256d_digest};

verus! {

/// The header of a block. `hash` is the double SHA-256 of the 80 bytes of
/// the header; `broadcasted` and `block_downloaded` are the node's notes on
/// it.
#[derive(Debug, Clone)]
pub struct BlockHeader {
    pub version: i32,
    pub prev_block_hash: Vec<u8>,
    pub merkle_root: Vec<u8>,
    pub timestamp: u32,
    pub bits: u32,
    pub nonce: u32,
    pub hash: Vec<u8>,
    pub broadcasted: bool,
    pub block_downloaded: bool,
}

/// A header as plain values.
pub struct BlockHeaderView {
    pub version: i32,
    pub prev_block_hash: Seq<u8>,
    pub merkle_root: Seq<u8>,
    pub timestamp: u32,
    pub bits: u32,
    pub nonce: u32,
    pub hash: Seq<u8>,
    pub broadcasted: bool,
    pub block_downloaded: bool,
}

impl View for BlockHeader {
    type V = BlockHeaderView;

    open spec fn view(&self) -> BlockHeaderView {
        BlockHeaderView {
            version: self.version,
            prev_block_hash: self.prev_block_hash@,
            merkle_root: self.merkle_root@,
            timestamp: self.timestamp,
            bits: self.bits,
            nonce: self.nonce,
            hash: self.hash@,
            broadcasted: self.broadcasted,
            block_downloaded: self.block_downloaded,
        }
    }
}

/// The exponent of a compact target: the high byte of `bits`.
pub open spec fn target_exponent(bits: u32) -> nat {
    (bits / 0x100_0000) as nat
}

/// The significand of a compact target: the three low bytes of `bits`.
pub open spec fn target_significand(bits: u32) -> nat {
    (bits % 0x100_0000) as nat
}

/// Whether `hash`, read as a number of 256 bits with the least significant
/// byte first, is strictly below the target `significand * 256^(exponent -
/// 3)` that `bits` encodes. Both sides are taken times `256^3`, so that no
/// fraction appears when the exponent is below three.
pub open spec fn meets_target(hash: Seq<u8>, bits: u32) -> bool {
    hash.len() == 32 && le_value(hash) * pow256(3) < target_significand(bits) * pow256(
        target_exponent(bits),
    )
}

/// A hash that equals the target is not below it.
pub proof fn lemma_target_is_strict(hash: Seq<u8>, bits: u32)
    requires
        le_value(hash) * pow256(3) == target_significand(bits) * pow256(target_exponent(bits)),
    ensures
        !meets_target(hash, bits),
{
}

impl BlockHeaderView {
    /// The two hashes the header carries in its bytes have 32 bytes each.
    pub open spec fn wf(self) -> bool {
        self.prev_block_hash.len() == 32 && self.merkle_root.len() == 32
    }

    /// The bytes of the header on the wire: version, hash of the block
    /// before, merkle root, timestamp, bits, nonce; the numbers on four
    /// bytes, least significant first.
    pub open spec fn serialize(self) -> Seq<u8> {
        le_bytes(twos_complement(self.version as int, 4), 4) + self.prev_block_hash
            + self.merkle_root + le_bytes(self.timestamp as nat, 4) + le_bytes(self.bits as nat, 4)
            + le_bytes(self.nonce as nat, 4)
    }

    /// The bytes of the header in the node's own store: the wire bytes,
    /// then the hash.
    pub open spec fn serialize_for_backup(self) -> Seq<u8> {
        self.serialize() + self.hash
    }

    /// The header that the first 80 bytes of `s` spell, with `hash` as its
    /// hash and both notes set to `stored`.
    pub open spec fn from_bytes(s: Seq<u8>, hash: Seq<u8>, stored: bool) -> BlockHeaderView {
        BlockHeaderView {
            version: from_twos_complement(le_value(s.subrange(0, 4)), 4) as i32,
            prev_block_hash: s.subrange(4, 36),
            merkle_root: s.subrange(36, 68),
            timestamp: le_value(s.subrange(68, 72)) as u32,
            bits: le_value(s.subrange(72, 76)) as u32,
            nonce: le_value(s.subrange(76, 80)) as u32,
            hash,
            broadcasted: stored,
            block_downloaded: stored,
        }
    }

    /// What reading a header from `s` gives, when `hash` is taken as its
    /// hash: an error when `s` has fewer than 80 bytes, another when the
    /// hash is not below the target, else the header.
    pub open spec fn parse_with_hash(s: Seq<u8>, hash: Seq<u8>, stored: bool) -> Result<
        BlockHeaderView,
        CustomError,
    > {
        if s.len() < 80 {
            Err(CustomError::SerializedBufferIsInvalid)
        } else if !meets_target(hash, BlockHeaderView::from_bytes(s, hash, stored).bits) {
            Err(CustomError::HeaderInvalidPoW)
        } else {
            Ok(BlockHeaderView::from_bytes(s, hash, stored))
        }
    }

    /// What reading a header from the wire gives: its hash is the double
    /// SHA-256 of all of `s`.
    pub open spec fn parse(s: Seq<u8>) -> Result<BlockHeaderView, CustomError> {
        BlockHeaderView::parse_with_hash(s, sha256d_digest(s), false)
    }

    /// What reading a header from the node's own store gives: its hash is
    /// the 32 bytes after the 80 of the header.
    pub open spec fn parse_from_backup(s: Seq<u8>) -> Result<BlockHeaderView, CustomError> {
        if s.len() < 112 {
            Err(CustomError::SerializedBufferIsInvalid)
        } else {
            BlockHeaderView::parse_with_hash(s, s.subrange(80, 112), true)
        }
    }

    /// The fields that the wire bytes of a header spell are the header's
    /// own.
    pub proof fn lemma_fields_roundtrip(self, rest: Seq<u8>, hash: Seq<u8>, stored: bool)
        requires
            self.wf(),
        ensures
            self.serialize().len() == 80,
            BlockHeaderView::from_bytes(self.serialize() + rest, hash, stored) == (BlockHeaderView {
                hash,
                broadcasted: stored,
                block_downloaded: stored,
                ..self
            }),
    {
        let s = self.serialize() + rest;
        let version = twos_complement(self.version as int, 4);
        lemma_pow256_values();
        lemma_le_bytes_len(version, 4);
        lemma_le_bytes_len(self.timestamp as nat, 4);
        lemma_le_bytes_len(self.bits as nat, 4);
        lemma_le_bytes_len(self.nonce as nat, 4);
        lemma_le_value_of_bytes(version, 4);
        lemma_le_value_of_bytes(self.timestamp as nat, 4);
        lemma_le_value_of_bytes(self.bits as nat, 4);
        lemma_le_value_of_bytes(self.nonce as nat, 4);
        vstd::arithmetic::div_mod::lemma_small_mod(version, pow256(4));
        vstd::arithmetic::div_mod::lemma_small_mod(self.timestamp as nat, pow256(4));
        vstd::arithmetic::div_mod::lemma_small_mod(self.bits as nat, pow256(4));
        vstd::arithmetic::div_mod::lemma_small_mod(self.nonce as nat, pow256(4));
        assert(s.subrange(0, 4) =~= le_bytes(version, 4));
        assert(s.subrange(4, 36) =~= self.prev_block_hash);
        assert(s.subrange(36, 68) =~= self.merkle_root);
        assert(s.subrange(68, 72) =~= le_bytes(self.timestamp as nat, 4));
        assert(s.subrange(72, 76) =~= le_bytes(self.bits as nat, 4));
        assert(s.subrange(76, 80) =~= le_bytes(self.nonce as nat, 4));
    }

    /// A header whose hash is the double SHA-256 of its bytes and is below
    /// its target is read back from its wire bytes as it was, both notes
    /// cleared.
    pub proof fn lemma_roundtrip(self)
        requires
            self.wf(),
            self.hash == sha256d_digest(self.serialize()),
            meets_target(self.hash, self.bits),
        ensures
            BlockHeaderView::parse(self.serialize()) == Ok::<BlockHeaderView, CustomError>(
                BlockHeaderView { broadcasted: false, block_downloaded: false, ..self },
            ),
    {
        self.lemma_fields_roundtrip(Seq::empty(), self.hash, false);
        assert(self.serialize() + Seq::<u8>::empty() =~= self.serialize());
    }

    /// A header whose hash is below its target is read back from its store
    /// bytes as it was, both notes set.
    pub proof fn lemma_backup_roundtrip(self)
        requires
            self.wf(),
            self.hash.len() == 32,
            meets_target(self.hash, self.bits),
        ensures
            BlockHeaderView::parse_from_backup(self.serialize_for_backup()) == Ok::<
                BlockHeaderView,
                CustomError,
            >(BlockHeaderView { broadcasted: true, block_downloaded: true, ..self }),
    {
        let s = self.serialize_for_backup();
        self.lemma_fields_roundtrip(self.hash, self.hash, true);
        assert(s.subrange(80, 112) =~= self.hash);
    }

    /// Headers that are written alike are alike in every field that is
    /// written: a change in any byte of the 80 is a change of the header.
    pub proof fn lemma_serialize_injective(self, other: BlockHeaderView)
        requires
            self.wf(),
            other.wf(),
            self.serialize() == other.serialize(),
        ensures
            self.version == other.version,
            self.prev_block_hash == other.prev_block_hash,
            self.merkle_root == other.merkle_root,
            self.timestamp == other.timestamp,
            self.bits == other.bits,
            self.nonce == other.nonce,
    {
        self.lemma_fields_roundtrip(Seq::empty(), Seq::empty(), false);
        other.lemma_fields_roundtrip(Seq::empty(), Seq::empty(), false);
    }
}

impl BlockHeader {
    /// The 80 bytes of the header on the wire.
    pub fn serialize(&self) -> (buffer: Vec<u8>)
        ensures
            buffer@ == self@.serialize(),
    {
        proof {
            lemma_pow256_values();
        }
        let version: u64 = if self.version >= 0 {
            self.version as u64
        } else {
            (self.version as i64 + 0x1_0000_0000) as u64
        };
        let mut buffer = write_le(version, 4);
        let mut prev_block_hash = copy_bytes(&self.prev_block_hash);
        let mut merkle_root = copy_bytes(&self.merkle_root);
        let mut timestamp = write_le(self.timestamp as u64, 4);
        let mut bits = write_le(self.bits as u64, 4);
        let mut nonce = write_le(self.nonce as u64, 4);
        buffer.append(&mut prev_block_hash);
        buffer.append(&mut merkle_root);
        buffer.append(&mut timestamp);
        buffer.append(&mut bits);
        buffer.append(&mut nonce);
        buffer
    }

    /// The bytes of the header in the node's own store.
    pub fn serialize_for_backup(&self) -> (buffer: Vec<u8>)
        ensures
            buffer@ == self@.serialize_for_backup(),
    {
        let mut buffer = self.serialize();
        let mut hash = copy_bytes(&self.hash);
        buffer.append(&mut hash);
        buffer
    }

    /// Reads a header from the wire and checks its proof of work. The hash
    /// is taken over all of `buffer`.
    pub fn parse(buffer: Vec<u8>) -> (r: Result<Self, CustomError>)
        ensures
            match BlockHeaderView::parse(buffer@) {
                Ok(header) => r is Ok && r->Ok_0@ == header,
                Err(e) => r is Err && r->Err_0 == e,
            },
    {
        let hash = sha256d(buffer.as_slice());
        Self::parse_with_hash(buffer.as_slice(), hash, false)
    }

    /// Reads a header from the node's own store, where its hash follows
    /// it, and checks its proof of work.
    pub fn parse_from_backup(buffer: Vec<u8>) -> (r: Result<Self, CustomError>)
        ensures
            match BlockHeaderView::parse_from_backup(buffer@) {
                Ok(header) => r is Ok && r->Ok_0@ == header,
                Err(e) => r is Err && r->Err_0 == e,
            },
    {
        if buffer.len() < 112 {
            return Err(CustomError::SerializedBufferIsInvalid);
        }
        let hash = slice_to_vec(slice_subrange(buffer.as_slice(), 80, 112));
        Self::parse_with_hash(buffer.as_slice(), hash, true)
    }

    /// Reads the fields of a header from the first 80 bytes of `buffer`,
    /// takes `hash` as its hash, and checks the proof of work.
    pub fn parse_with_hash(buffer: &[u8], hash: Vec<u8>, stored: bool) -> (r: Result<
        Self,
        CustomError,
    >)
        ensures
            match BlockHeaderView::parse_with_hash(buffer@, hash@, stored) {
                Ok(header) => r is Ok && r->Ok_0@ == header,
                Err(e) => r is Err && r->Err_0 == e,
            },
    {
        if buffer.len() < 80 {
            return Err(CustomError::SerializedBufferIsInvalid);
        }
        proof {
            lemma_pow256_values();
            lemma_le_value_bound(buffer@.subrange(0, 4));
            lemma_le_value_bound(buffer@.subrange(68, 72));
            lemma_le_value_bound(buffer@.subrange(72, 76));
            lemma_le_value_bound(buffer@.subrange(76, 80));
        }
        let raw_version = read_le(slice_subrange(buffer, 0, 4));
        let version: i32 = if raw_version < 0x8000_0000 {
            raw_version as i32
        } else {
            (raw_version as i64 - 0x1_0000_0000) as i32
        };
        let block_header = BlockHeader {
            version,
            prev_block_hash: slice_to_vec(slice_subrange(buffer, 4, 36)),
            merkle_root: slice_to_vec(slice_subrange(buffer, 36, 68)),
            timestamp: read_le(slice_subrange(buffer, 68, 72)) as u32,
            bits: read_le(slice_subrange(buffer, 72, 76)) as u32,
            nonce: read_le(slice_subrange(buffer, 76, 80)) as u32,
            hash,
            broadcasted: stored,
            block_downloaded: stored,
        };
        if !block_header.validate() {
            return Err(CustomError::HeaderInvalidPoW);
        }
        Ok(block_header)
    }

    /// Whether the header's hash is strictly below the target that its
    /// `bits` encode.
    pub fn validate(&self) -> (valid: bool)
        ensures
            valid == meets_target(self.hash@, self.bits),
    {
        if self.hash.len() != 32 {
            return false;
        }
        let exponent: usize = (self.bits / 0x100_0000) as usize;
        let significand: u64 = (self.bits % 0x100_0000) as u64;
        let mut left: Vec<u8> = Vec::new();
        push_zeros(&mut left, 3);
        let mut hash = copy_bytes(&self.hash);
        left.append(&mut hash);
        push_zeros(&mut left, 224);
        let mut right: Vec<u8> = Vec::new();
        push_zeros(&mut right, exponent);
        let mut digits = write_le(significand, 3);
        right.append(&mut digits);
        push_zeros(&mut right, 256 - exponent);
        proof {
            let h = self.hash@;
            let d = le_bytes(significand as nat, 3);
            lemma_pow256_values();
            lemma_le_bytes_len(significand as nat, 3);
            lemma_le_value_of_bytes(significand as nat, 3);
            vstd::arithmetic::div_mod::lemma_small_mod(significand as nat, pow256(3));
            lemma_le_value_zeros(3);
            lemma_le_value_zeros(224);
            lemma_le_value_zeros(exponent as nat);
            lemma_le_value_zeros((256 - exponent) as nat);
            lemma_le_value_concat(zeros(3), h);
            lemma_le_value_concat(zeros(3) + h, zeros(224));
            lemma_le_value_concat(zeros(exponent as nat), d);
            lemma_le_value_concat(zeros(exponent as nat) + d, zeros((256 - exponent) as nat));
            assert(left@ == zeros(3) + h + zeros(224));
            assert(right@ == zeros(exponent as nat) + d + zeros((256 - exponent) as nat));
            assert(0 * pow256(35) == 0) by (nonlinear_arith);
            assert(0 * pow256((exponent + 3) as nat) == 0) by (nonlinear_arith);
        }
        le_less(left.as_slice(), right.as_slice())
    }

    /// The hash of the header.
    pub fn hash(&self) -> (hash: &Vec<u8>)
        ensures
            hash@ == self.hash@,
    {
        &self.hash
    }

    /// The hash of the header in upper-case hexadecimal.
    pub fn hash_as_string(&self) -> (text: String)
        ensures
            text@ == hex_upper(self.hash@),
    {
        hash_as_string(copy_bytes(self.hash()))
    }

    /// A copy of the header.
    pub fn duplicate(&self) -> (copy: BlockHeader)
        ensures
            copy@ == self@,
    {
        BlockHeader {
            version: self.version,
            prev_block_hash: copy_bytes(&self.prev_block_hash),
            merkle_root: copy_bytes(&self.merkle_root),
            timestamp: self.timestamp,
            bits: self.bits,
            nonce: self.nonce,
            hash: copy_bytes(&self.hash),
            broadcasted: self.broadcasted,
            block_downloaded: self.block_downloaded,
        }
    }
}

/// The upper-case hexadecimal digit for a number below sixteen.
pub open spec fn hex_digit(nibble: nat) -> char {
    if nibble == 0 {
        '0'
    } else if nibble == 1 {
        '1'
    } else if nibble == 2 {
        '2'
    } else if nibble == 3 {
        '3'
    } else if nibble == 4 {
        '4'
    } else if nibble == 5 {
        '5'
    } else if nibble == 6 {
        '6'
    } else if nibble == 7 {
        '7'
    } else if nibble == 8 {
        '8'
    } else if nibble == 9 {
        '9'
    } else if nibble == 10 {
        'A'
    } else if nibble == 11 {
        'B'
    } else if nibble == 12 {
        'C'
    } else if nibble == 13 {
        'D'
    } else if nibble == 14 {
        'E'
    } else {
        'F'
    }
}

/// Two upper-case hexadecimal digits for each byte, in the order of the
/// bytes.
pub open spec fn hex_upper(bytes: Seq<u8>) -> Seq<char>
    decreases bytes.len(),
{
    if bytes.len() == 0 {
        Seq::empty()
    } else {
        hex_upper(bytes.drop_last()).push(hex_digit((bytes.last() / 16) as nat)).push(
            hex_digit((bytes.last() % 16) as nat),
        )
    }
}

/// Appends the upper-case hexadecimal digit for `nibble`.
fn push_hex_digit(text: &mut String, nibble: u8)
    requires
        nibble < 16,
    ensures
        final(text)@ == old(text)@.push(hex_digit(nibble as nat)),
{
    proof {
        reveal_strlit("0");
        reveal_strlit("1");
        reveal_strlit("2");
        reveal_strlit("3");
        reveal_strlit("4");
        reveal_strlit("5");
        reveal_strlit("6");
        reveal_strlit("7");
        reveal_strlit("8");
        reveal_strlit("9");
        reveal_strlit("A");
        reveal_strlit("B");
        reveal_strlit("C");
        reveal_strlit("D");
        reveal_strlit("E");
        reveal_strlit("F");
    }
    let digit: &str = if nibble == 0 {
        "0"
    } else if nibble == 1 {
        "1"
    } else if nibble == 2 {
        "2"
    } else if nibble == 3 {
        "3"
    } else if nibble == 4 {
        "4"
    } else if nibble == 5 {
        "5"
    } else if nibble == 6 {
        "6"
    } else if nibble == 7 {
        "7"
    } else if nibble == 8 {
        "8"
    } else if nibble == 9 {
        "9"
    } else if nibble == 10 {
        "A"
    } else if nibble == 11 {
        "B"
    } else if nibble == 12 {
        "C"
    } else if nibble == 13 {
        "D"
    } else if nibble == 14 {
        "E"
    } else {
        "F"
    };
    assert(digit@ =~= seq![hex_digit(nibble as nat)]);
    text.append(digit);
    assert(text@ =~= old(text)@.push(hex_digit(nibble as nat)));
}

/// A hash in upper-case hexadecimal, two digits for each byte: the name
/// under which a block is stored.
pub fn hash_as_string(hash: Vec<u8>) -> (text: String)
    ensures
        text@ == hex_upper(hash@),
{
    let mut text = String::new();
    let mut i: usize = 0;
    while i < hash.len()
        invariant
            i <= hash@.len(),
            text@ == hex_upper(hash@.take(i as int)),
        decreases hash@.len() - i,
    {
        let byte = hash[i];
        proof {
            let next = hash@.take(i + 1);
            assert(next.drop_last() =~= hash@.take(i as int));
            assert(next.last() == byte);
        }
        push_hex_digit(&mut text, byte / 16);
        push_hex_digit(&mut text, byte % 16);
        i = i + 1;
    }
    assert(hash@.take(i as int) =~= hash@);
    text
}

} // verus!
