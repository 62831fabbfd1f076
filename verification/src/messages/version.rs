use vstd::prelude::*;
use crate::encoding::{
    from_twos_complement, le_bytes, le_value, lemma_le_value_bound, lemma_pow256_values,
    pow256, twos_complement, write_le,
};
use crate::error::CustomError;
use crate::hashing::copy_bytes;
use crate::parser::{
    parse_varint, varint_bytes, varint_encoding, BufferParser, NetAddress, Parsed,
};

verus! {

/// The bytes of `x` on `width` bytes, most significant byte first.
pub open spec fn be_bytes(x: nat, width: nat) -> Seq<u8> {
    le_bytes(x, width).reverse()
}

/// The eighteen bytes of an address: sixteen of IPv6 address and two of
/// port, each most significant byte first.
pub open spec fn address_bytes(address: NetAddress) -> Seq<u8> {
    be_bytes(address.ip as nat, 16) + be_bytes(address.port as nat, 2)
}

/// Writes `x` on `width` bytes, most significant byte first.
pub fn write_be(x: u128, width: usize) -> (bytes: Vec<u8>)
    requires
        width <= 16,
    ensures
        bytes@ == be_bytes(x as nat, width as nat),
{
    let mut low: Vec<u8> = Vec::new();
    let mut rest: u128 = x;
    let mut i: usize = 0;
    let ghost mut gone: nat = 1;
    while i < width
        invariant
            i <= width <= 16,
            low@ == le_bytes(x as nat, i as nat),
            gone == pow256(i as nat),
            rest == (x as nat) / gone,
        decreases width - i,
    {
        proof {
            crate::encoding::lemma_pow256_positive(i as nat);
            vstd::arithmetic::div_mod::lemma_div_denominator(x as int, gone as int, 256);
            assert(gone * 256 == 256 * gone) by (nonlinear_arith);
        }
        low.push((rest % 256) as u8);
        rest = rest / 256;
        proof {
            gone = 256 * gone;
        }
        i = i + 1;
    }
    proof {
        crate::encoding::lemma_le_bytes_len(x as nat, width as nat);
    }
    let mut bytes: Vec<u8> = Vec::new();
    let mut k: usize = width;
    while k > 0
        invariant
            k <= width,
            low@.len() == width,
            bytes@.len() == width - k,
            forall|j: int| 0 <= j < bytes@.len() ==> bytes@[j] == low@[width - 1 - j],
        decreases k,
    {
        k = k - 1;
        bytes.push(low[k]);
    }
    proof {
        crate::encoding::lemma_le_bytes_len(x as nat, width as nat);
        assert(bytes@ =~= low@.reverse());
    }
    bytes
}

/// The bytes of an address.
pub fn serialize_address(address: &NetAddress) -> (bytes: Vec<u8>)
    ensures
        bytes@ == address_bytes(*address),
{
    let mut bytes = write_be(address.ip, 16);
    let mut port = write_be(address.port as u128, 2);
    bytes.append(&mut port);
    bytes
}

/// The announcement that opens a handshake: what the sender speaks and
/// offers, and whom it believes it is talking to.
#[derive(Debug, Clone)]
pub struct Version {
    pub version: i32,
    pub services: u64,
    pub timestamp: i64,
    pub receiver_services: u64,
    pub receiver_address: NetAddress,
    pub sender_services: u64,
    pub sender_address: NetAddress,
    pub nonce: u64,
    pub user_agent: Vec<u8>,
    pub start_height: i32,
    pub relay: bool,
}

/// A version message as plain values.
pub struct VersionView {
    pub version: i32,
    pub services: u64,
    pub timestamp: i64,
    pub receiver_services: u64,
    pub receiver_address: NetAddress,
    pub sender_services: u64,
    pub sender_address: NetAddress,
    pub nonce: u64,
    pub user_agent: Seq<u8>,
    pub start_height: i32,
    pub relay: bool,
}

impl View for Version {
    type V = VersionView;

    open spec fn view(&self) -> VersionView {
        VersionView {
            version: self.version,
            services: self.services,
            timestamp: self.timestamp,
            receiver_services: self.receiver_services,
            receiver_address: self.receiver_address,
            sender_services: self.sender_services,
            sender_address: self.sender_address,
            nonce: self.nonce,
            user_agent: self.user_agent@,
            start_height: self.start_height,
            relay: self.relay,
        }
    }
}

impl VersionView {
    /// The payload of the message: protocol version, services, timestamp,
    /// the receiver's services and address, the sender's services and
    /// address, nonce, the user agent with its length as a compact size,
    /// start height, relay flag. Numbers are written least significant
    /// byte first, addresses most significant byte first.
    pub open spec fn serialize(self) -> Seq<u8> {
        le_bytes(twos_complement(self.version as int, 4), 4) + le_bytes(self.services as nat, 8)
            + le_bytes(twos_complement(self.timestamp as int, 8), 8) + le_bytes(
            self.receiver_services as nat,
            8,
        ) + address_bytes(self.receiver_address) + le_bytes(self.sender_services as nat, 8)
            + address_bytes(self.sender_address) + le_bytes(self.nonce as nat, 8)
            + varint_encoding(self.user_agent.len()) + self.user_agent + le_bytes(
            twos_complement(self.start_height as int, 4),
            4,
        ) + seq![
            if self.relay {
                1u8
            } else {
                0u8
            },
        ]
    }

    /// The version and the services that a payload announces, if the
    /// payload has the bytes of a whole message.
    pub open spec fn announced(s: Seq<u8>) -> Option<(i32, u64)> {
        if s.len() < 80 {
            None
        } else {
            match parse_varint(s.skip(80)) {
                Parsed::Done { value: len, used } => if s.len() < 80 + used + len + 5 {
                    None
                } else {
                    Some(
                        (
                            from_twos_complement(le_value(s.subrange(0, 4)), 4) as i32,
                            le_value(s.subrange(4, 12)) as u64,
                        ),
                    )
                },
                _ => None,
            }
        }
    }
}

impl Version {
    /// The announcement of a node that speaks `version` and offers
    /// `services`, to the peer at `receiver_address`.
    pub fn new(
        receiver_address: NetAddress,
        sender_address: NetAddress,
        version: i32,
        services: u64,
        timestamp: i64,
        nonce: u64,
    ) -> (message: Self)
        ensures
            message@ == (VersionView {
                version,
                services,
                timestamp,
                receiver_services: 0,
                receiver_address,
                sender_services: services,
                sender_address,
                nonce,
                user_agent: Seq::empty(),
                start_height: 0,
                relay: false,
            }),
    {
        Self {
            version,
            services,
            timestamp,
            receiver_services: 0,
            receiver_address,
            sender_services: services,
            sender_address,
            nonce,
            user_agent: Vec::new(),
            start_height: 0,
            relay: false,
        }
    }

    /// The command under which the message travels.
    pub fn get_command(&self) -> (command: String)
        ensures
            command@ == "version"@,
    {
        String::from_str("version")
    }

    /// The payload of the message.
    pub fn serialize(&self) -> (buffer: Vec<u8>)
        ensures
            buffer@ == self@.serialize(),
    {
        proof {
            lemma_pow256_values();
        }
        let version: u64 = if self.version >= 0 {
            self.version as u64
        } else {
            (self.version as i64 + 0x1_0000_0000) as u64
        };
        let timestamp: u64 = if self.timestamp >= 0 {
            self.timestamp as u64
        } else {
            (self.timestamp as i128 + 0x1_0000_0000_0000_0000) as u64
        };
        let start_height: u64 = if self.start_height >= 0 {
            self.start_height as u64
        } else {
            (self.start_height as i64 + 0x1_0000_0000) as u64
        };
        let mut buffer = write_le(version, 4);
        let mut services = write_le(self.services, 8);
        let mut time = write_le(timestamp, 8);
        let mut receiver_services = write_le(self.receiver_services, 8);
        let mut receiver = serialize_address(&self.receiver_address);
        let mut sender_services = write_le(self.sender_services, 8);
        let mut sender = serialize_address(&self.sender_address);
        let mut nonce = write_le(self.nonce, 8);
        let mut agent_len = varint_bytes(self.user_agent.len() as u64);
        let mut agent = copy_bytes(&self.user_agent);
        let mut height = write_le(start_height, 4);
        buffer.append(&mut services);
        buffer.append(&mut time);
        buffer.append(&mut receiver_services);
        buffer.append(&mut receiver);
        buffer.append(&mut sender_services);
        buffer.append(&mut sender);
        buffer.append(&mut nonce);
        buffer.append(&mut agent_len);
        buffer.append(&mut agent);
        buffer.append(&mut height);
        buffer.push(if self.relay { 1 } else { 0 });
        assert(buffer@ =~= self@.serialize());
        buffer
    }

    /// The version and the services that a payload announces.
    pub fn parse_announced(buffer: Vec<u8>) -> (r: Result<(i32, u64), CustomError>)
        ensures
            match VersionView::announced(buffer@) {
                Some(pair) => r == Ok::<(i32, u64), CustomError>(pair),
                None => r == Err::<(i32, u64), CustomError>(
                    CustomError::SerializedBufferIsInvalid,
                ),
            },
    {
        let ghost s = buffer@;
        let mut parser = BufferParser::new(buffer);
        if parser.len() < 80 {
            return Err(CustomError::SerializedBufferIsInvalid);
        }
        let version = match parser.extract_i32() {
            Ok(version) => version,
            Err(e) => { return Err(e); },
        };
        let services = match parser.extract_u64() {
            Ok(services) => services,
            Err(e) => { return Err(e); },
        };
        proof {
            assert(s.take(4) =~= s.subrange(0, 4));
            assert(s.skip(4).take(8) =~= s.subrange(4, 12));
            assert(s.skip(4).skip(8) =~= s.skip(12));
            lemma_le_value_bound(s.subrange(0, 4));
            lemma_le_value_bound(s.subrange(4, 12));
            lemma_pow256_values();
        }
        let _ = parser.extract_buffer(68);
        assert(s.skip(12).skip(68) =~= s.skip(80));
        let agent_len = match parser.extract_varint() {
            Ok(len) => len,
            Err(e) => { return Err(e); },
        };
        let left = parser.len();
        if left < 5 || agent_len > (left - 5) as u64 {
            return Err(CustomError::SerializedBufferIsInvalid);
        }
        Ok((version, services))
    }
}

} // verus!
