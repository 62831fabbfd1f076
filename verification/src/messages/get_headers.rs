use vstd::prelude::*;
use vstd::slice::slice_to_vec;
use crate::encoding::{
    from_twos_complement, le_bytes, le_value, lemma_le_value_bound, lemma_pow256_values,
    twos_complement, write_le,
};
use crate::error::CustomError;
use crate::hashing::copy_bytes;
use crate::parser::{parse_varint, varint_bytes, varint_encoding, BufferParser, Parsed};
use crate::states::pending_blocks_state::hashes_view;

verus! {

/// A request for headers: the protocol version, a locator of hashes that
/// the asker knows, newest first, and the hash at which the answer is to
/// stop.
#[derive(Debug, Clone)]
pub struct GetHeaders {
    pub version: i32,
    pub block_locator_hashes: Vec<Vec<u8>>,
    pub hash_stop: Vec<u8>,
}

/// A request for headers as plain values.
pub struct GetHeadersView {
    pub version: i32,
    pub block_locator_hashes: Seq<Seq<u8>>,
    pub hash_stop: Seq<u8>,
}

impl View for GetHeaders {
    type V = GetHeadersView;

    open spec fn view(&self) -> GetHeadersView {
        GetHeadersView {
            version: self.version,
            block_locator_hashes: hashes_view(self.block_locator_hashes@),
            hash_stop: self.hash_stop@,
        }
    }
}

/// The hashes, one after the other.
pub open spec fn concat_hashes(hashes: Seq<Seq<u8>>) -> Seq<u8>
    decreases hashes.len(),
{
    if hashes.len() == 0 {
        Seq::empty()
    } else {
        concat_hashes(hashes.drop_last()) + hashes.last()
    }
}

/// `count` hashes of 32 bytes from the front of `s`.
pub open spec fn split_hashes(s: Seq<u8>, count: nat) -> Seq<Seq<u8>> {
    Seq::new(count, |i: int| s.subrange(32 * i, 32 * i + 32))
}

impl GetHeadersView {
    /// The payload of the request: the version on four bytes, the number
    /// of locator hashes as a compact size, the hashes, the stop hash.
    pub open spec fn serialize(self) -> Seq<u8> {
        le_bytes(twos_complement(self.version as int, 4), 4) + varint_encoding(
            self.block_locator_hashes.len(),
        ) + concat_hashes(self.block_locator_hashes) + self.hash_stop
    }

    /// The request that a payload spells, if it has the bytes for it:
    /// every hash is taken as 32 bytes; bytes after the stop hash are not
    /// looked at.
    pub open spec fn parse(s: Seq<u8>) -> Option<GetHeadersView> {
        if s.len() < 4 {
            None
        } else {
            match parse_varint(s.skip(4)) {
                Parsed::Done { value: count, used } => if s.len() < 4 + used + 32 * count + 32 {
                    None
                } else {
                    Some(
                        GetHeadersView {
                            version: from_twos_complement(le_value(s.take(4)), 4) as i32,
                            block_locator_hashes: split_hashes(s.skip(4 + used as int), count),
                            hash_stop: s.subrange(
                                4 + used + 32 * count as int,
                                4 + used + 32 * count + 32 as int,
                            ),
                        },
                    )
                },
                _ => None,
            }
        }
    }
}

impl GetHeaders {
    /// A request with this version, locator and stop hash.
    pub fn new(version: i32, block_locator_hashes: Vec<Vec<u8>>, hash_stop: Vec<u8>) -> (request:
        Self)
        ensures
            request@ == (GetHeadersView {
                version,
                block_locator_hashes: hashes_view(block_locator_hashes@),
                hash_stop: hash_stop@,
            }),
    {
        Self { version, block_locator_hashes, hash_stop }
    }

    /// The command under which the request travels.
    pub fn get_command(&self) -> (command: String)
        ensures
            command@ == "getheaders"@,
    {
        String::from_str("getheaders")
    }

    /// The payload of the request.
    pub fn serialize(&self) -> (buffer: Vec<u8>)
        ensures
            buffer@ == self@.serialize(),
    {
        proof {
            lemma_pow256_values();
        }
        let version: u64 = if self.version >= 0 {
            self.version as u64
        } else {
            (self.version as i64 + 0x1_0000_0000) as u64
        };
        let mut buffer = write_le(version, 4);
        let mut count = varint_bytes(self.block_locator_hashes.len() as u64);
        buffer.append(&mut count);
        let ghost head = buffer@;
        let ghost hashes = hashes_view(self.block_locator_hashes@);
        let mut i: usize = 0;
        assert(buffer@ =~= head + concat_hashes(hashes.take(0)));
        while i < self.block_locator_hashes.len()
            invariant
                i <= self.block_locator_hashes@.len(),
                hashes == hashes_view(self.block_locator_hashes@),
                buffer@ == head + concat_hashes(hashes.take(i as int)),
            decreases self.block_locator_hashes@.len() - i,
        {
            let mut hash = copy_bytes(&self.block_locator_hashes[i]);
            buffer.append(&mut hash);
            proof {
                let next = hashes.take(i + 1);
                assert(next.drop_last() =~= hashes.take(i as int));
                assert(next.last() == self.block_locator_hashes@[i as int]@);
            }
            i = i + 1;
        }
        assert(hashes.take(i as int) =~= hashes);
        let mut hash_stop = copy_bytes(&self.hash_stop);
        buffer.append(&mut hash_stop);
        buffer
    }

    /// Reads a request from its payload.
    pub fn parse(buffer: Vec<u8>) -> (r: Result<Self, CustomError>)
        ensures
            match GetHeadersView::parse(buffer@) {
                Some(request) => r is Ok && r->Ok_0@ == request,
                None => r is Err && r->Err_0 == CustomError::SerializedBufferIsInvalid,
            },
    {
        let ghost s = buffer@;
        let mut parser = BufferParser::new(buffer);
        let version = match parser.extract_i32() {
            Ok(version) => version,
            Err(e) => { return Err(e); },
        };
        proof {
            lemma_le_value_bound(s.take(4));
            lemma_pow256_values();
        }
        let count = match parser.extract_varint() {
            Ok(count) => count,
            Err(e) => { return Err(e); },
        };
        let ghost used = parse_varint(s.skip(4)).used() as int;
        assert(s.skip(4).skip(used) =~= s.skip(4 + used));
        let left = parser.len();
        if left < 32 || count > ((left - 32) / 32) as u64 {
            return Err(CustomError::SerializedBufferIsInvalid);
        }
        let ghost body = s.skip(4 + used);
        let mut block_locator_hashes: Vec<Vec<u8>> = Vec::new();
        let mut i: u64 = 0;
        assert(hashes_view(block_locator_hashes@) =~= split_hashes(body, 0));
        while i < count
            invariant
                i <= count,
                32 * count + 32 <= body.len(),
                parser.remaining() == body.skip(32 * i),
                hashes_view(block_locator_hashes@) == split_hashes(body, i as nat),
            decreases count - i,
        {
            let hash = match parser.extract_buffer(32) {
                Ok(bytes) => slice_to_vec(bytes),
                Err(e) => { return Err(e); },
            };
            proof {
                assert(body.skip(32 * i).take(32) =~= body.subrange(32 * i, 32 * i + 32));
                assert(body.skip(32 * i).skip(32) =~= body.skip(32 * (i + 1)));
                assert(hashes_view(block_locator_hashes@.push(hash)) =~= hashes_view(
                    block_locator_hashes@,
                ).push(hash@));
                assert(split_hashes(body, (i + 1) as nat) =~= split_hashes(body, i as nat).push(
                    body.subrange(32 * i, 32 * i + 32),
                ));
            }
            block_locator_hashes.push(hash);
            i = i + 1;
        }
        let hash_stop = match parser.extract_buffer(32) {
            Ok(bytes) => slice_to_vec(bytes),
            Err(e) => { return Err(e); },
        };
        proof {
            let at = 4 + used + 32 * count;
            assert(body.skip(32 * count).take(32) =~= s.subrange(at, at + 32));
        }
        Ok(Self { version, block_locator_hashes, hash_stop })
    }
}

} // verus!
