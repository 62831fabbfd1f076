use vstd::prelude::*;
use vstd::slice::slice_to_vec;
use crate::error::CustomError;
use crate::parser::{parse_varint, varint_bytes, varint_encoding, BufferParser, Parsed};
use crate::structs::inventory::{Inventory, InventoryView};

verus! {

/// The inventories as plain values, in their order.
pub open spec fn inventories_view(inventories: Seq<Inventory>) -> Seq<InventoryView> {
    inventories.map_values(|inventory: Inventory| inventory@)
}

/// The bytes of the inventories, one after the other.
pub open spec fn serialize_inventories(inventories: Seq<InventoryView>) -> Seq<u8>
    decreases inventories.len(),
{
    if inventories.len() == 0 {
        Seq::empty()
    } else {
        serialize_inventories(inventories.drop_last()) + inventories.last().serialize()
    }
}

/// The payload that lists inventories: their number as a compact size,
/// then the inventories.
pub open spec fn inventory_payload(inventories: Seq<InventoryView>) -> Seq<u8> {
    varint_encoding(inventories.len()) + serialize_inventories(inventories)
}

/// `count` inventories of 36 bytes from the front of `s`, if each of them
/// names a kind.
pub open spec fn split_inventories(s: Seq<u8>, count: nat) -> Option<Seq<InventoryView>>
    decreases count,
{
    if count == 0 {
        Some(Seq::empty())
    } else {
        match split_inventories(s, (count - 1) as nat) {
            None => None,
            Some(front) => match InventoryView::parse(
                s.subrange(36 * (count - 1), 36 * count as int),
            ) {
                None => None,
                Some(inventory) => Some(front.push(inventory)),
            },
        }
    }
}

/// The inventories that a payload lists, if it has the bytes for them and
/// each of them names a kind. Bytes after them are not looked at.
pub open spec fn parse_inventory_payload(s: Seq<u8>) -> Option<Seq<InventoryView>> {
    match parse_varint(s) {
        Parsed::Done { value: count, used } => if s.len() < used + 36 * count {
            None
        } else {
            split_inventories(s.skip(used as int), count)
        },
        _ => None,
    }
}

/// Once an inventory names no kind, no longer list of inventories can be
/// read.
pub proof fn lemma_split_fails(s: Seq<u8>, failed: nat, count: nat)
    requires
        failed <= count,
        split_inventories(s, failed) is None,
    ensures
        split_inventories(s, count) is None,
    decreases count,
{
    if failed < count {
        lemma_split_fails(s, failed, (count - 1) as nat);
    }
}

/// The payload that lists `inventories`.
pub fn serialize_inventory_list(inventories: &Vec<Inventory>) -> (buffer: Vec<u8>)
    ensures
        buffer@ == inventory_payload(inventories_view(inventories@)),
{
    let mut buffer = varint_bytes(inventories.len() as u64);
    let ghost head = buffer@;
    let ghost items = inventories_view(inventories@);
    let mut i: usize = 0;
    assert(buffer@ =~= head + serialize_inventories(items.take(0)));
    while i < inventories.len()
        invariant
            i <= inventories@.len(),
            items == inventories_view(inventories@),
            buffer@ == head + serialize_inventories(items.take(i as int)),
        decreases inventories@.len() - i,
    {
        let mut bytes = inventories[i].serialize();
        buffer.append(&mut bytes);
        proof {
            let next = items.take(i + 1);
            assert(next.drop_last() =~= items.take(i as int));
            assert(next.last() == inventories@[i as int]@);
        }
        i = i + 1;
    }
    assert(items.take(i as int) =~= items);
    buffer
}

/// The inventories that a payload lists.
#[verifier::loop_isolation(false)]
pub fn parse_inventory_list(buffer: Vec<u8>) -> (r: Result<Vec<Inventory>, CustomError>)
    ensures
        match parse_inventory_payload(buffer@) {
            Some(inventories) => r is Ok && inventories_view(r->Ok_0@) == inventories,
            None => r is Err && r->Err_0 == CustomError::SerializedBufferIsInvalid,
        },
{
    let ghost s = buffer@;
    let mut parser = BufferParser::new(buffer);
    let count = match parser.extract_varint() {
        Ok(count) => count,
        Err(e) => { return Err(e); },
    };
    let left = parser.len();
    if count > (left / 36) as u64 {
        return Err(CustomError::SerializedBufferIsInvalid);
    }
    let ghost body = parser.remaining();
    let mut inventories: Vec<Inventory> = Vec::new();
    let mut i: u64 = 0;
    assert(body.skip(0) =~= body);
    assert(inventories_view(inventories@) =~= Seq::empty());
    while i < count
        invariant
            i <= count,
            36 * count <= body.len(),
            parser.remaining() == body.skip(36 * i),
            split_inventories(body, i as nat) == Some(inventories_view(inventories@)),
        decreases count - i,
    {
        let bytes = match parser.extract_buffer(36) {
            Ok(bytes) => slice_to_vec(bytes),
            Err(e) => { return Err(e); },
        };
        proof {
            assert(body.skip(36 * i).take(36) =~= body.subrange(36 * i, 36 * (i + 1)));
            assert(body.skip(36 * i).skip(36) =~= body.skip(36 * (i + 1)));
        }
        match Inventory::parse(bytes) {
            Ok(inventory) => {
                proof {
                    assert(inventories_view(inventories@.push(inventory)) =~= inventories_view(
                        inventories@,
                    ).push(inventory@));
                }
                inventories.push(inventory);
            },
            Err(e) => {
                proof {
                    lemma_split_fails(body, (i + 1) as nat, count as nat);
                }
                return Err(e);
            },
        }
        i = i + 1;
    }
    Ok(inventories)
}

/// Copies of the inventories, in their order.
pub fn duplicate_inventories(inventories: &Vec<Inventory>) -> (copy: Vec<Inventory>)
    ensures
        inventories_view(copy@) == inventories_view(inventories@),
{
    let mut copy: Vec<Inventory> = Vec::new();
    let mut i: usize = 0;
    while i < inventories.len()
        invariant
            i <= inventories@.len(),
            copy@.len() == i,
            forall|j: int| 0 <= j < i ==> (#[trigger] copy@[j])@ == inventories@[j]@,
        decreases inventories@.len() - i,
    {
        copy.push(inventories[i].duplicate());
        i = i + 1;
    }
    assert(inventories_view(copy@) =~= inventories_view(inventories@));
    copy
}

/// An announcement of objects that the sender has.
#[derive(Debug, Clone)]
pub struct Inv {
    pub inventories: Vec<Inventory>,
}

impl Inv {
    /// An announcement of these inventories.
    pub fn new(inventories: Vec<Inventory>) -> (message: Self)
        ensures
            message.inventories == inventories,
    {
        Self { inventories }
    }

    /// The command under which the announcement travels.
    pub fn get_command(&self) -> (command: String)
        ensures
            command@ == "inv"@,
    {
        String::from_str("inv")
    }

    /// The payload of the announcement.
    pub fn serialize(&self) -> (buffer: Vec<u8>)
        ensures
            buffer@ == inventory_payload(inventories_view(self.inventories@)),
    {
        serialize_inventory_list(&self.inventories)
    }

    /// Reads an announcement from its payload.
    pub fn parse(buffer: Vec<u8>) -> (r: Result<Self, CustomError>)
        ensures
            match parse_inventory_payload(buffer@) {
                Some(inventories) => r is Ok && inventories_view(r->Ok_0.inventories@)
                    == inventories,
                None => r is Err && r->Err_0 == CustomError::SerializedBufferIsInvalid,
            },
    {
        match parse_inventory_list(buffer) {
            Ok(inventories) => Ok(Self { inventories }),
            Err(e) => Err(e),
        }
    }
}

/// A request for the objects that the inventories name.
#[derive(Debug, Clone)]
pub struct GetData {
    pub inventories: Vec<Inventory>,
}

impl GetData {
    /// A request for these inventories.
    pub fn new(inventories: Vec<Inventory>) -> (message: Self)
        ensures
            message.inventories == inventories,
    {
        Self { inventories }
    }

    /// The command under which the request travels.
    pub fn get_command(&self) -> (command: String)
        ensures
            command@ == "getdata"@,
    {
        String::from_str("getdata")
    }

    /// The payload of the request.
    pub fn serialize(&self) -> (buffer: Vec<u8>)
        ensures
            buffer@ == inventory_payload(inventories_view(self.inventories@)),
    {
        serialize_inventory_list(&self.inventories)
    }

    /// Reads a request from its payload.
    pub fn parse(buffer: Vec<u8>) -> (r: Result<Self, CustomError>)
        ensures
            match parse_inventory_payload(buffer@) {
                Some(inventories) => r is Ok && inventories_view(r->Ok_0.inventories@)
                    == inventories,
                None => r is Err && r->Err_0 == CustomError::SerializedBufferIsInvalid,
            },
    {
        match parse_inventory_list(buffer) {
            Ok(inventories) => Ok(Self { inventories }),
            Err(e) => Err(e),
        }
    }
}

} // verus!
