use vstd::prelude::*;
use vstd::slice::slice_to_vec;
use crate::encoding::{
    le_bytes, le_value, lemma_le_bytes_len, lemma_le_value_of_bytes, lemma_pow256_values, pow256,
    write_le,
};
use crate::error::CustomError;
use crate::hashing::copy_bytes;
use crate::parser::BufferParser;

verus! {

/// The kinds of object an inventory can name.
#[derive(Debug, Clone, Copy, PartialEq, Eq, Structural)]
pub enum InventoryType {
    Tx,
    Block,
    FilteredBlock,
    CompactBlock,
    WitnessTx,
    WitnessBlock,
    FilteredWitnessBlock,
}

/// The number that stands for a kind on the wire.
pub open spec fn inventory_code(kind: InventoryType) -> u32 {
    match kind {
        InventoryType::Tx => 1,
        InventoryType::Block => 2,
        InventoryType::FilteredBlock => 3,
        InventoryType::CompactBlock => 4,
        InventoryType::WitnessTx => 0x4000_0001,
        InventoryType::WitnessBlock => 0x4000_0002,
        InventoryType::FilteredWitnessBlock => 0x4000_0003,
    }
}

/// The kind that a number stands for, if any.
pub open spec fn inventory_kind(code: nat) -> Option<InventoryType> {
    if code == 1 {
        Some(InventoryType::Tx)
    } else if code == 2 {
        Some(InventoryType::Block)
    } else if code == 3 {
        Some(InventoryType::FilteredBlock)
    } else if code == 4 {
        Some(InventoryType::CompactBlock)
    } else if code == 0x4000_0001 {
        Some(InventoryType::WitnessTx)
    } else if code == 0x4000_0002 {
        Some(InventoryType::WitnessBlock)
    } else if code == 0x4000_0003 {
        Some(InventoryType::FilteredWitnessBlock)
    } else {
        None
    }
}

/// The name of an object: its kind and its hash.
#[derive(Debug, Clone, PartialEq)]
pub struct Inventory {
    pub inventory_type: InventoryType,
    pub hash: Vec<u8>,
}

/// An inventory as plain values.
pub struct InventoryView {
    pub inventory_type: InventoryType,
    pub hash: Seq<u8>,
}

impl View for Inventory {
    type V = InventoryView;

    open spec fn view(&self) -> InventoryView {
        InventoryView { inventory_type: self.inventory_type, hash: self.hash@ }
    }
}

impl InventoryView {
    /// The hash has 32 bytes.
    pub open spec fn wf(self) -> bool {
        self.hash.len() == 32
    }

    /// The bytes of the inventory on the wire: the kind's number on four
    /// bytes, least significant first, then the hash.
    pub open spec fn serialize(self) -> Seq<u8> {
        le_bytes(inventory_code(self.inventory_type) as nat, 4) + self.hash
    }

    /// The inventory that `s` spells: `s` must have exactly 36 bytes and
    /// start with the number of a kind.
    pub open spec fn parse(s: Seq<u8>) -> Option<InventoryView> {
        if s.len() != 36 {
            None
        } else {
            match inventory_kind(le_value(s.subrange(0, 4))) {
                None => None,
                Some(kind) => Some(InventoryView { inventory_type: kind, hash: s.subrange(4, 36) }),
            }
        }
    }

    /// Parsing what was serialized gives the inventory back.
    pub proof fn lemma_roundtrip(self)
        requires
            self.wf(),
        ensures
            self.serialize().len() == 36,
            InventoryView::parse(self.serialize()) == Some(self),
    {
        let s = self.serialize();
        let code = inventory_code(self.inventory_type) as nat;
        lemma_le_bytes_len(code, 4);
        lemma_le_value_of_bytes(code, 4);
        lemma_pow256_values();
        vstd::arithmetic::div_mod::lemma_small_mod(code, pow256(4));
        assert(s.subrange(0, 4) =~= le_bytes(code, 4));
        assert(s.subrange(4, 36) =~= self.hash);
    }
}

impl Inventory {
    /// An inventory of this kind and hash.
    pub fn new(inventory_type: InventoryType, hash: Vec<u8>) -> (inventory: Self)
        ensures
            inventory@ == (InventoryView { inventory_type, hash: hash@ }),
    {
        Self { inventory_type, hash }
    }

    /// The bytes of the inventory on the wire.
    pub fn serialize(&self) -> (buffer: Vec<u8>)
        ensures
            buffer@ == self@.serialize(),
    {
        let inventory_type: u32 = match self.inventory_type {
            InventoryType::Tx => 1,
            InventoryType::Block => 2,
            InventoryType::FilteredBlock => 3,
            InventoryType::CompactBlock => 4,
            InventoryType::WitnessTx => 0x4000_0001,
            InventoryType::WitnessBlock => 0x4000_0002,
            InventoryType::FilteredWitnessBlock => 0x4000_0003,
        };
        let mut buffer = write_le(inventory_type as u64, 4);
        let mut hash = copy_bytes(&self.hash);
        buffer.append(&mut hash);
        buffer
    }

    /// Reads an inventory from `buffer`. Fails when `buffer` does not have
    /// exactly 36 bytes or does not start with the number of a kind.
    pub fn parse(buffer: Vec<u8>) -> (r: Result<Self, CustomError>)
        ensures
            match InventoryView::parse(buffer@) {
                Some(inventory) => r is Ok && r->Ok_0@ == inventory,
                None => r is Err && r->Err_0 == CustomError::SerializedBufferIsInvalid,
            },
    {
        let mut parser = BufferParser::new(buffer);
        if parser.len() != 36 {
            return Err(CustomError::SerializedBufferIsInvalid);
        }
        let code = match parser.extract_u32() {
            Ok(code) => code,
            Err(e) => { return Err(e); },
        };
        proof {
            assert(buffer@.take(4) =~= buffer@.subrange(0, 4));
            assert(buffer@.skip(4).take(32) =~= buffer@.subrange(4, 36));
        }
        let inventory_type = if code == 1 {
            InventoryType::Tx
        } else if code == 2 {
            InventoryType::Block
        } else if code == 3 {
            InventoryType::FilteredBlock
        } else if code == 4 {
            InventoryType::CompactBlock
        } else if code == 0x4000_0001 {
            InventoryType::WitnessTx
        } else if code == 0x4000_0002 {
            InventoryType::WitnessBlock
        } else if code == 0x4000_0003 {
            InventoryType::FilteredWitnessBlock
        } else {
            return Err(CustomError::SerializedBufferIsInvalid);
        };
        let hash = match parser.extract_buffer(32) {
            Ok(bytes) => slice_to_vec(bytes),
            Err(e) => { return Err(e); },
        };
        Ok(Self { inventory_type, hash })
    }

    /// A copy of the inventory.
    pub fn duplicate(&self) -> (copy: Inventory)
        ensures
            copy@ == self@,
    {
        Inventory { inventory_type: self.inventory_type, hash: copy_bytes(&self.hash) }
    }
}

} // verus!
