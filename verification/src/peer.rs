use vstd::prelude::*;
use crate::encoding::zeros;
use crate::error::CustomError;
use crate::message::Command;
use crate::messages::get_headers::{GetHeaders, GetHeadersView};
use crate::messages::version::{Version, VersionView};
use crate::parser::NetAddress;

verus! {

/// The hash of the genesis block: the block before the first header of the
/// chain.
pub open spec fn genesis() -> Seq<u8> {
    seq![
        67u8, 73u8, 127u8, 215u8, 248u8, 38u8, 149u8, 113u8, 8u8, 244u8, 163u8, 15u8, 217u8,
        206u8, 195u8, 174u8, 186u8, 121u8, 151u8, 32u8, 132u8, 233u8, 14u8, 173u8, 1u8, 234u8,
        51u8, 9u8, 0u8, 0u8, 0u8, 0u8,
    ]
}

/// The hash of the genesis block.
pub fn genesis_hash() -> (hash: Vec<u8>)
    ensures
        hash@ == genesis(),
{
    let hash: Vec<u8> = vec![
        67, 73, 127, 215, 248, 38, 149, 113, 8, 244, 163, 15, 217, 206, 195, 174, 186, 121, 151,
        32, 132, 233, 14, 173, 1, 234, 51, 9, 0, 0, 0, 0,
    ];
    assert(hash@ =~= genesis());
    hash
}

/// The benchmark of a peer whose handshake has not been timed.
pub const UNTIMED_BENCHMARK: i64 = 99999;

/// What the node knows of a peer: its address, the services and protocol
/// version it announced, how it wants headers, and how long the handshake
/// with it took, in milliseconds.
#[derive(Debug, Clone, Copy, PartialEq, Eq, Structural)]
pub struct Peer {
    pub address: NetAddress,
    pub services: u64,
    pub version: i32,
    pub send_headers: bool,
    pub requested_headers: bool,
    pub benchmark: i64,
}

/// The time between two readings of the clock, held within what 64 bits
/// with a sign can say.
pub open spec fn elapsed(before: i64, after: i64) -> i64 {
    if after - before > i64::MAX {
        i64::MAX
    } else if after - before < i64::MIN {
        i64::MIN
    } else {
        (after - before) as i64
    }
}

impl Peer {
    /// A peer at `address` before the handshake: with the services and the
    /// version that the node itself speaks, and an untimed benchmark.
    pub fn new(address: NetAddress, services: u64, version: i32) -> (peer: Self)
        ensures
            peer == (Peer {
                address,
                services,
                version,
                send_headers: false,
                requested_headers: false,
                benchmark: UNTIMED_BENCHMARK,
            }),
    {
        Peer {
            address,
            services,
            version,
            send_headers: false,
            requested_headers: false,
            benchmark: UNTIMED_BENCHMARK,
        }
    }

    /// Notes how long the handshake took: the time between the reading of
    /// the clock before it and the reading after it.
    pub fn set_benchmark(&mut self, before: i64, after: i64)
        ensures
            *final(self) == (Peer { benchmark: elapsed(before, after), ..*old(self) }),
    {
        let span = after as i128 - before as i128;
        self.benchmark = if span > i64::MAX as i128 {
            i64::MAX
        } else if span < i64::MIN as i128 {
            i64::MIN
        } else {
            span as i64
        };
    }
}

/// The request for the headers that follow `last_header`, or that follow
/// the genesis block when the node has no header: a locator of that one
/// hash, and a stop hash of 32 zeros, which asks for as many headers as
/// one answer holds.
pub fn request_headers(last_header: Option<Vec<u8>>, version: i32) -> (request: GetHeaders)
    ensures
        request@ == (GetHeadersView {
            version,
            block_locator_hashes: seq![
                match last_header {
                    Some(hash) => hash@,
                    None => genesis(),
                },
            ],
            hash_stop: zeros(32),
        }),
{
    let first = match last_header {
        Some(header) => header,
        None => genesis_hash(),
    };
    let mut block_header_hashes: Vec<Vec<u8>> = Vec::new();
    block_header_hashes.push(first);
    let mut hash_stop: Vec<u8> = Vec::new();
    crate::encoding::push_zeros(&mut hash_stop, 32);
    let request = GetHeaders::new(version, block_header_hashes, hash_stop);
    assert(request@.block_locator_hashes =~= seq![first@]);
    assert(request@.hash_stop =~= zeros(32));
    request
}

/// Who opened the connection: the node, which then calls, or the peer,
/// which the node then answers.
#[derive(Debug, Clone, Copy, PartialEq, Eq, Structural)]
pub enum HandshakeRole {
    Caller,
    Callee,
}

/// What the handshake does next.
#[derive(Debug, Clone, Copy, PartialEq, Eq, Structural)]
pub enum HandshakeStep {
    /// Send the node's `version`.
    SendVersion,
    /// Read the peer's `version`.
    ReadVersion,
    /// Send `verack`.
    SendVerAck,
    /// Read the peer's `verack`.
    ReadVerAck,
    /// Send `sendheaders`.
    SendSendHeaders,
    /// The handshake is complete.
    Done,
    /// The handshake has failed.
    Failed,
}

/// The steps of a handshake, in their order. A caller sends its version,
/// reads the peer's version and its acknowledgement, acknowledges, and
/// asks for headers to be pushed. A callee reads the peer's version, sends
/// its own and its acknowledgement, reads the peer's acknowledgement, and
/// asks for headers to be pushed.
pub open spec fn handshake_steps(role: HandshakeRole) -> Seq<HandshakeStep> {
    match role {
        HandshakeRole::Caller => seq![
            HandshakeStep::SendVersion,
            HandshakeStep::ReadVersion,
            HandshakeStep::ReadVerAck,
            HandshakeStep::SendVerAck,
            HandshakeStep::SendSendHeaders,
        ],
        HandshakeRole::Callee => seq![
            HandshakeStep::ReadVersion,
            HandshakeStep::SendVersion,
            HandshakeStep::SendVerAck,
            HandshakeStep::ReadVerAck,
            HandshakeStep::SendSendHeaders,
        ],
    }
}

/// The step at place `position` of a handshake: `Done` behind the last.
pub open spec fn step_at(role: HandshakeRole, position: nat) -> HandshakeStep {
    if position < 5 {
        handshake_steps(role)[position as int]
    } else {
        HandshakeStep::Done
    }
}

/// What has happened since the last step was handed out.
#[derive(Debug, Clone)]
pub enum HandshakeEvent {
    /// The message of the step was sent.
    Sent,
    /// A message with this command and payload was read and its envelope
    /// and checksum were found in order.
    Received(Command, Vec<u8>),
    /// Sending or reading failed, or what was read was not a message in
    /// order.
    Broken,
}

/// A handshake under way: who called, how far it has come, and the peer as
/// far as it is known.
#[derive(Debug, Clone, Copy, PartialEq, Eq, Structural)]
pub struct Handshake {
    pub role: HandshakeRole,
    pub position: u8,
    pub failed: bool,
    pub peer: Peer,
}

impl Handshake {
    /// The step that is due.
    pub open spec fn step(self) -> HandshakeStep {
        if self.failed {
            HandshakeStep::Failed
        } else {
            step_at(self.role, self.position as nat)
        }
    }

    /// The handshake after `event` answers the step that was due. A sent
    /// message answers a step that sends; a message read answers a step
    /// that reads when it has the command that the step waits for, and a
    /// `version` must announce a version and services, which the peer then
    /// takes. Anything else fails the handshake.
    pub open spec fn after(self, event: HandshakeEvent) -> Handshake {
        match (self.step(), event) {
            (HandshakeStep::SendVersion, HandshakeEvent::Sent) => self.advanced(),
            (HandshakeStep::SendVerAck, HandshakeEvent::Sent) => self.advanced(),
            (HandshakeStep::SendSendHeaders, HandshakeEvent::Sent) => self.advanced(),
            (HandshakeStep::ReadVerAck, HandshakeEvent::Received(Command::VerAck, _)) => self.advanced(),
            (
                HandshakeStep::ReadVersion,
                HandshakeEvent::Received(Command::Version, payload),
            ) => match VersionView::announced(payload@) {
                Some(pair) => Handshake {
                    peer: Peer { version: pair.0, services: pair.1, ..self.peer },
                    ..self.advanced()
                },
                None => Handshake { failed: true, ..self },
            },
            (HandshakeStep::Done, _) => self,
            _ => Handshake { failed: true, ..self },
        }
    }

    /// The handshake one step further.
    pub open spec fn advanced(self) -> Handshake {
        Handshake { position: (self.position + 1) as u8, ..self }
    }

    /// A handshake at its first step.
    pub fn start(role: HandshakeRole, peer: Peer) -> (handshake: Self)
        ensures
            handshake == (Handshake { role, position: 0, failed: false, peer }),
    {
        Handshake { role, position: 0, failed: false, peer }
    }

    /// The step that is due.
    pub fn next_step(&self) -> (step: HandshakeStep)
        ensures
            step == self.step(),
    {
        if self.failed {
            return HandshakeStep::Failed;
        }
        match self.role {
            HandshakeRole::Caller => {
                if self.position == 0 {
                    HandshakeStep::SendVersion
                } else if self.position == 1 {
                    HandshakeStep::ReadVersion
                } else if self.position == 2 {
                    HandshakeStep::ReadVerAck
                } else if self.position == 3 {
                    HandshakeStep::SendVerAck
                } else if self.position == 4 {
                    HandshakeStep::SendSendHeaders
                } else {
                    HandshakeStep::Done
                }
            },
            HandshakeRole::Callee => {
                if self.position == 0 {
                    HandshakeStep::ReadVersion
                } else if self.position == 1 {
                    HandshakeStep::SendVersion
                } else if self.position == 2 {
                    HandshakeStep::SendVerAck
                } else if self.position == 3 {
                    HandshakeStep::ReadVerAck
                } else if self.position == 4 {
                    HandshakeStep::SendSendHeaders
                } else {
                    HandshakeStep::Done
                }
            },
        }
    }

    /// Takes what happened for the step that was due.
    pub fn advance(&mut self, event: HandshakeEvent)
        ensures
            *final(self) == old(self).after(event),
    {
        let step = self.next_step();
        match step {
            HandshakeStep::Done => {},
            HandshakeStep::Failed => {
                self.failed = true;
            },
            HandshakeStep::SendVersion | HandshakeStep::SendVerAck | HandshakeStep::SendSendHeaders => {
                match event {
                    HandshakeEvent::Sent => {
                        self.position = self.position + 1;
                    },
                    _ => {
                        self.failed = true;
                    },
                }
            },
            HandshakeStep::ReadVerAck => {
                match event {
                    HandshakeEvent::Received(Command::VerAck, _) => {
                        self.position = self.position + 1;
                    },
                    _ => {
                        self.failed = true;
                    },
                }
            },
            HandshakeStep::ReadVersion => {
                match event {
                    HandshakeEvent::Received(Command::Version, payload) => {
                        match Version::parse_announced(payload) {
                            Ok(pair) => {
                                self.peer.version = pair.0;
                                self.peer.services = pair.1;
                                self.position = self.position + 1;
                            },
                            Err(_) => {
                                self.failed = true;
                            },
                        }
                    },
                    _ => {
                        self.failed = true;
                    },
                }
            },
        }
    }

    /// How the handshake has ended, once no step is due: the peer, or the
    /// error of a failed handshake. Nothing while steps are due.
    pub fn outcome(&self) -> (r: Option<Result<Peer, CustomError>>)
        ensures
            match self.step() {
                HandshakeStep::Done => r == Some(Ok::<Peer, CustomError>(self.peer)),
                HandshakeStep::Failed => r == Some(
                    Err::<Peer, CustomError>(CustomError::CannotHandshakeNode),
                ),
                _ => r is None,
            },
    {
        match self.next_step() {
            HandshakeStep::Done => Some(Ok(self.peer)),
            HandshakeStep::Failed => Some(Err(CustomError::CannotHandshakeNode)),
            _ => None,
        }
    }
}

/// A handshake in which every step is answered as it asks ends with the
/// peer; one that is answered otherwise at any step has failed.
pub proof fn lemma_handshake_completes(start: Handshake, events: Seq<HandshakeEvent>)
    requires
        start.position == 0,
        !start.failed,
        events.len() == 5,
        forall|i: int| 0 <= i < 5 ==> answers(step_at(start.role, i as nat), #[trigger] events[i]),
    ensures
        start.after(events[0]).after(events[1]).after(events[2]).after(events[3]).after(
            events[4],
        ).step() == HandshakeStep::Done,
{
    assert(answers(step_at(start.role, 0), events[0]));
    assert(answers(step_at(start.role, 1), events[1]));
    assert(answers(step_at(start.role, 2), events[2]));
    assert(answers(step_at(start.role, 3), events[3]));
    assert(answers(step_at(start.role, 4), events[4]));
}

/// Whether `event` is what `step` asks for.
pub open spec fn answers(step: HandshakeStep, event: HandshakeEvent) -> bool {
    match (step, event) {
        (HandshakeStep::SendVersion, HandshakeEvent::Sent) => true,
        (HandshakeStep::SendVerAck, HandshakeEvent::Sent) => true,
        (HandshakeStep::SendSendHeaders, HandshakeEvent::Sent) => true,
        (HandshakeStep::ReadVerAck, HandshakeEvent::Received(Command::VerAck, _)) => true,
        (
            HandshakeStep::ReadVersion,
            HandshakeEvent::Received(Command::Version, payload),
        ) => VersionView::announced(payload@) is Some,
        _ => false,
    }
}

} // verus!
