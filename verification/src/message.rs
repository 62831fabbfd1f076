use vstd::prelude::*;
use vstd::slice::{slice_subrange, slice_to_vec};
use crate::encoding::{le_bytes, le_value, lemma_le_value_bound, lemma_pow256_values, read_le, write_le};
use crate::error::CustomError;
use crate::hashing::{bytes_equal, copy_bytes, sha256d, sha256d_digest};

verus! {

/// The commands that the node speaks.
#[derive(Debug, Clone, Copy, PartialEq, Eq, Structural)]
pub enum Command {
    /// `version`
    Version,
    /// `verack`
    VerAck,
    /// `sendheaders`
    SendHeaders,
    /// `getheaders`
    GetHeaders,
    /// `headers`
    Headers,
    /// `getdata`
    GetData,
    /// `inv`
    Inv,
    /// `block`
    Block,
    /// `tx`
    Tx,
    /// `ping`
    Ping,
    /// `pong`
    Pong,
}

/// The twelve bytes that name a command in the envelope of a message: its
/// name in ASCII, filled up with zeros.
pub open spec fn command_field(command: Command) -> Seq<u8> {
    match command {
        Command::Version => seq![118u8, 101u8, 114u8, 115u8, 105u8, 111u8, 110u8, 0u8, 0u8, 0u8, 0u8, 0u8],
        Command::VerAck => seq![118u8, 101u8, 114u8, 97u8, 99u8, 107u8, 0u8, 0u8, 0u8, 0u8, 0u8, 0u8],
        Command::SendHeaders => seq![115u8, 101u8, 110u8, 100u8, 104u8, 101u8, 97u8, 100u8, 101u8, 114u8, 115u8, 0u8],
        Command::GetHeaders => seq![103u8, 101u8, 116u8, 104u8, 101u8, 97u8, 100u8, 101u8, 114u8, 115u8, 0u8, 0u8],
        Command::Headers => seq![104u8, 101u8, 97u8, 100u8, 101u8, 114u8, 115u8, 0u8, 0u8, 0u8, 0u8, 0u8],
        Command::GetData => seq![103u8, 101u8, 116u8, 100u8, 97u8, 116u8, 97u8, 0u8, 0u8, 0u8, 0u8, 0u8],
        Command::Inv => seq![105u8, 110u8, 118u8, 0u8, 0u8, 0u8, 0u8, 0u8, 0u8, 0u8, 0u8, 0u8],
        Command::Block => seq![98u8, 108u8, 111u8, 99u8, 107u8, 0u8, 0u8, 0u8, 0u8, 0u8, 0u8, 0u8],
        Command::Tx => seq![116u8, 120u8, 0u8, 0u8, 0u8, 0u8, 0u8, 0u8, 0u8, 0u8, 0u8, 0u8],
        Command::Ping => seq![112u8, 105u8, 110u8, 103u8, 0u8, 0u8, 0u8, 0u8, 0u8, 0u8, 0u8, 0u8],
        Command::Pong => seq![112u8, 111u8, 110u8, 103u8, 0u8, 0u8, 0u8, 0u8, 0u8, 0u8, 0u8, 0u8],
    }
}

/// The name of a command.
pub open spec fn command_text(command: Command) -> Seq<char> {
    match command {
        Command::Version => "version"@,
        Command::VerAck => "verack"@,
        Command::SendHeaders => "sendheaders"@,
        Command::GetHeaders => "getheaders"@,
        Command::Headers => "headers"@,
        Command::GetData => "getdata"@,
        Command::Inv => "inv"@,
        Command::Block => "block"@,
        Command::Tx => "tx"@,
        Command::Ping => "ping"@,
        Command::Pong => "pong"@,
    }
}

/// The command that twelve bytes name, if the node speaks it.
pub open spec fn command_of(field: Seq<u8>) -> Option<Command> {
    if exists|command: Command| command_field(command) == field {
        Some(choose|command: Command| command_field(command) == field)
    } else {
        None
    }
}

/// The twelve bytes that name a command.
pub fn command_bytes(command: Command) -> (field: Vec<u8>)
    ensures
        field@ == command_field(command),
{
    let field: Vec<u8> = match command {
        Command::Version => vec![118, 101, 114, 115, 105, 111, 110, 0, 0, 0, 0, 0],
        Command::VerAck => vec![118, 101, 114, 97, 99, 107, 0, 0, 0, 0, 0, 0],
        Command::SendHeaders => vec![115, 101, 110, 100, 104, 101, 97, 100, 101, 114, 115, 0],
        Command::GetHeaders => vec![103, 101, 116, 104, 101, 97, 100, 101, 114, 115, 0, 0],
        Command::Headers => vec![104, 101, 97, 100, 101, 114, 115, 0, 0, 0, 0, 0],
        Command::GetData => vec![103, 101, 116, 100, 97, 116, 97, 0, 0, 0, 0, 0],
        Command::Inv => vec![105, 110, 118, 0, 0, 0, 0, 0, 0, 0, 0, 0],
        Command::Block => vec![98, 108, 111, 99, 107, 0, 0, 0, 0, 0, 0, 0],
        Command::Tx => vec![116, 120, 0, 0, 0, 0, 0, 0, 0, 0, 0, 0],
        Command::Ping => vec![112, 105, 110, 103, 0, 0, 0, 0, 0, 0, 0, 0],
        Command::Pong => vec![112, 111, 110, 103, 0, 0, 0, 0, 0, 0, 0, 0],
    };
    assert(field@ =~= command_field(command));
    field
}

/// The name of a command.
pub fn command_name(command: Command) -> (name: String)
    ensures
        name@ == command_text(command),
{
    match command {
        Command::Version => String::from_str("version"),
        Command::VerAck => String::from_str("verack"),
        Command::SendHeaders => String::from_str("sendheaders"),
        Command::GetHeaders => String::from_str("getheaders"),
        Command::Headers => String::from_str("headers"),
        Command::GetData => String::from_str("getdata"),
        Command::Inv => String::from_str("inv"),
        Command::Block => String::from_str("block"),
        Command::Tx => String::from_str("tx"),
        Command::Ping => String::from_str("ping"),
        Command::Pong => String::from_str("pong"),
    }
}

/// No two commands have one name.
pub proof fn lemma_command_fields_differ(a: Command, b: Command)
    ensures
        command_field(a) == command_field(b) ==> a == b,
{
    if command_field(a) == command_field(b) {
        assert(command_field(a)[0] == command_field(b)[0]);
        assert(command_field(a)[1] == command_field(b)[1]);
        assert(command_field(a)[2] == command_field(b)[2]);
        assert(command_field(a)[3] == command_field(b)[3]);
    }
}

/// The command that twelve bytes name. Fails when the node does not speak
/// it.
pub fn parse_command(field: &[u8]) -> (r: Result<Command, CustomError>)
    ensures
        match command_of(field@) {
            Some(command) => r == Ok::<Command, CustomError>(command),
            None => r == Err::<Command, CustomError>(CustomError::UnknownCommand),
        },
{
    proof {
        assert forall|a: Command, b: Command| command_field(a) == command_field(b) implies a
            == b by {
            lemma_command_fields_differ(a, b);
        }
    }
    if bytes_equal(field, command_bytes(Command::Version).as_slice()) {
        return Ok(Command::Version);
    }
    if bytes_equal(field, command_bytes(Command::VerAck).as_slice()) {
        return Ok(Command::VerAck);
    }
    if bytes_equal(field, command_bytes(Command::SendHeaders).as_slice()) {
        return Ok(Command::SendHeaders);
    }
    if bytes_equal(field, command_bytes(Command::GetHeaders).as_slice()) {
        return Ok(Command::GetHeaders);
    }
    if bytes_equal(field, command_bytes(Command::Headers).as_slice()) {
        return Ok(Command::Headers);
    }
    if bytes_equal(field, command_bytes(Command::GetData).as_slice()) {
        return Ok(Command::GetData);
    }
    if bytes_equal(field, command_bytes(Command::Inv).as_slice()) {
        return Ok(Command::Inv);
    }
    if bytes_equal(field, command_bytes(Command::Block).as_slice()) {
        return Ok(Command::Block);
    }
    if bytes_equal(field, command_bytes(Command::Tx).as_slice()) {
        return Ok(Command::Tx);
    }
    if bytes_equal(field, command_bytes(Command::Ping).as_slice()) {
        return Ok(Command::Ping);
    }
    if bytes_equal(field, command_bytes(Command::Pong).as_slice()) {
        return Ok(Command::Pong);
    }
    assert forall|command: Command| command_field(command) != field@ by {
        match command {
            _ => {},
        }
    }
    Err(CustomError::UnknownCommand)
}

/// The first four bytes of the double SHA-256 of a payload.
pub open spec fn checksum_of(payload: Seq<u8>) -> Seq<u8> {
    sha256d_digest(payload).subrange(0, 4)
}

/// A message on the wire: the network magic on four bytes, least
/// significant first, the twelve bytes of the command, the length of the
/// payload on four bytes, least significant first, the checksum of the
/// payload, the payload.
pub open spec fn frame(magic: u32, command: Command, payload: Seq<u8>) -> Seq<u8> {
    le_bytes(magic as nat, 4) + command_field(command) + le_bytes(payload.len(), 4) + checksum_of(
        payload,
    ) + payload
}

/// The envelope of a message: the twelve bytes of its command, the length
/// of its payload, and the checksum of its payload.
#[derive(Debug, Clone)]
pub struct MessageHeader {
    pub command: Vec<u8>,
    pub payload_size: u32,
    pub checksum: Vec<u8>,
}

/// An envelope as plain values.
pub struct MessageHeaderView {
    pub command: Seq<u8>,
    pub payload_size: u32,
    pub checksum: Seq<u8>,
}

impl View for MessageHeader {
    type V = MessageHeaderView;

    open spec fn view(&self) -> MessageHeaderView {
        MessageHeaderView {
            command: self.command@,
            payload_size: self.payload_size,
            checksum: self.checksum@,
        }
    }
}

impl MessageHeaderView {
    /// What reading an envelope from `s` gives, for a network with magic
    /// `magic`: an error when `s` has fewer than 24 bytes, a framing error
    /// when it does not start with the magic, else the envelope.
    pub open spec fn parse(s: Seq<u8>, magic: u32) -> Result<MessageHeaderView, CustomError> {
        if s.len() < 24 {
            Err(CustomError::SerializedBufferIsInvalid)
        } else if s.subrange(0, 4) != le_bytes(magic as nat, 4) {
            Err(CustomError::FramingError)
        } else {
            Ok(
                MessageHeaderView {
                    command: s.subrange(4, 16),
                    payload_size: le_value(s.subrange(16, 20)) as u32,
                    checksum: s.subrange(20, 24),
                },
            )
        }
    }

    /// What checking a payload against the envelope gives: a framing error
    /// when the payload does not have the length that the envelope gives,
    /// a checksum error when `digest`, taken as the double SHA-256 of the
    /// payload, does not start with the checksum of the envelope, an
    /// error for a command that the node does not speak, else the command.
    pub open spec fn accept(self, payload: Seq<u8>, digest: Seq<u8>) -> Result<
        Command,
        CustomError,
    > {
        if payload.len() != self.payload_size {
            Err(CustomError::FramingError)
        } else if digest.len() < 4 || digest.subrange(0, 4) != self.checksum {
            Err(CustomError::ChecksumMismatch)
        } else {
            match command_of(self.command) {
                Some(command) => Ok(command),
                None => Err(CustomError::UnknownCommand),
            }
        }
    }
}

impl MessageHeader {
    /// Reads the envelope of a message from its first 24 bytes.
    pub fn parse(buffer: &[u8], magic: u32) -> (r: Result<Self, CustomError>)
        ensures
            match MessageHeaderView::parse(buffer@, magic) {
                Ok(header) => r is Ok && r->Ok_0@ == header,
                Err(e) => r is Err && r->Err_0 == e,
            },
    {
        if buffer.len() < 24 {
            return Err(CustomError::SerializedBufferIsInvalid);
        }
        let expected = write_le(magic as u64, 4);
        if !bytes_equal(slice_subrange(buffer, 0, 4), expected.as_slice()) {
            return Err(CustomError::FramingError);
        }
        proof {
            lemma_le_value_bound(buffer@.subrange(16, 20));
            lemma_pow256_values();
        }
        Ok(
            Self {
                command: slice_to_vec(slice_subrange(buffer, 4, 16)),
                payload_size: read_le(slice_subrange(buffer, 16, 20)) as u32,
                checksum: slice_to_vec(slice_subrange(buffer, 20, 24)),
            },
        )
    }

    /// Checks a payload against the envelope and gives the command of the
    /// message.
    pub fn accept(&self, payload: &Vec<u8>) -> (r: Result<Command, CustomError>)
        ensures
            match self@.accept(payload@, sha256d_digest(payload@)) {
                Ok(command) => r == Ok::<Command, CustomError>(command),
                Err(e) => r is Err && r->Err_0 == e,
            },
    {
        let digest = sha256d(payload.as_slice());
        self.accept_with_digest(payload, &digest)
    }

    /// Checks a payload against the envelope, with `digest` taken as the
    /// double SHA-256 of the payload, and gives the command of the message.
    pub fn accept_with_digest(&self, payload: &Vec<u8>, digest: &Vec<u8>) -> (r: Result<
        Command,
        CustomError,
    >)
        ensures
            match self@.accept(payload@, digest@) {
                Ok(command) => r == Ok::<Command, CustomError>(command),
                Err(e) => r is Err && r->Err_0 == e,
            },
    {
        if payload.len() > u32::MAX as usize || payload.len() as u32 != self.payload_size {
            return Err(CustomError::FramingError);
        }
        if digest.len() < 4 || !bytes_equal(
            slice_subrange(digest.as_slice(), 0, 4),
            self.checksum.as_slice(),
        ) {
            return Err(CustomError::ChecksumMismatch);
        }
        parse_command(self.command.as_slice())
    }
}

/// The bytes of a message on the wire. Fails when the payload is longer
/// than the four bytes of its length can say.
pub fn serialize_message(magic: u32, command: Command, payload: &Vec<u8>) -> (r: Result<
    Vec<u8>,
    CustomError,
>)
    ensures
        payload@.len() <= u32::MAX ==> r is Ok && r->Ok_0@ == frame(magic, command, payload@),
        payload@.len() > u32::MAX ==> r is Err && r->Err_0
            == CustomError::SerializedBufferIsInvalid,
{
    let digest = sha256d(payload.as_slice());
    serialize_message_with_digest(magic, command, payload, &digest)
}

/// The bytes of a message on the wire, with `digest` taken as the double
/// SHA-256 of the payload. Fails when the payload is longer than the four
/// bytes of its length can say, or when `digest` has fewer than the four
/// bytes of a checksum.
pub fn serialize_message_with_digest(
    magic: u32,
    command: Command,
    payload: &Vec<u8>,
    digest: &Vec<u8>,
) -> (r: Result<Vec<u8>, CustomError>)
    ensures
        payload@.len() <= u32::MAX && digest@.len() >= 4 ==> r is Ok && r->Ok_0@ == le_bytes(
            magic as nat,
            4,
        ) + command_field(command) + le_bytes(payload@.len(), 4) + digest@.subrange(0, 4)
            + payload@,
        payload@.len() > u32::MAX || digest@.len() < 4 ==> r is Err && r->Err_0
            == CustomError::SerializedBufferIsInvalid,
{
    if payload.len() > u32::MAX as usize || digest.len() < 4 {
        return Err(CustomError::SerializedBufferIsInvalid);
    }
    let mut buffer = write_le(magic as u64, 4);
    let mut field = command_bytes(command);
    let mut size = write_le(payload.len() as u64, 4);
    let mut checksum = slice_to_vec(slice_subrange(digest.as_slice(), 0, 4));
    let mut body = copy_bytes(payload);
    buffer.append(&mut field);
    buffer.append(&mut size);
    buffer.append(&mut checksum);
    buffer.append(&mut body);
    Ok(buffer)
}

} // verus!
