use vstd::prelude::*;
use crate::error::CustomError;
use crate::hashing::copy_bytes;
use crate::loops::node_action_loop::NodeAction;
use crate::loops::peer_action_loop::PeerAction;
use crate::message::Command;
use crate::messages::block::{Block, BlockView};
use crate::messages::get_headers::{GetHeaders, GetHeadersView};
use crate::messages::headers::{parse_headers, Headers};
use crate::messages::inv::{inventories_view, parse_inventory_list, parse_inventory_payload};
use crate::messages::ping_pong::{parse_nonce, Ping, Pong};
use crate::messages::transaction::{Transaction, TransactionView};
use crate::encoding::le_bytes;
use crate::parser::{parse_varint, NetAddress, Parsed};
use crate::states::headers_state::MAX_HEADERS_PER_REPLY;

verus! {

/// What the receiving side of a peer does with a message.
#[derive(Debug, Clone)]
pub enum Inbound {
    /// Tell the node.
    Node(NodeAction),
    /// Hand this action to the sending side of a peer.
    Request(PeerAction),
    /// Answer the peer at once with this message.
    Reply(Command, Vec<u8>),
    /// Nothing: the message is dropped.
    Dropped,
}

/// Whether `r` is what the receiving side of the peer at `address` does
/// with a message: headers and blocks, transactions and requests for
/// headers go to the node; announced objects are asked for; a ping is
/// answered at once by a pong with its nonce; a wish for pushed headers
/// goes to the node; every other message is dropped. A payload that cannot
/// be read gives the error of its reader.
pub open spec fn routed(
    command: Command,
    payload: Seq<u8>,
    address: NetAddress,
    r: Result<Inbound, CustomError>,
) -> bool {
    match command {
        Command::Headers => match parse_varint(payload) {
            Parsed::Done { value: count, used } => match parse_headers(
                payload.skip(used as int),
                count,
            ) {
                Ok((headers, _)) => r matches Ok(Inbound::Node(NodeAction::NewHeaders(message)))
                    && message@ == headers,
                Err(e) => r is Err && r->Err_0 == e,
            },
            _ => r is Err && r->Err_0 == CustomError::SerializedBufferIsInvalid,
        },
        Command::Block => match BlockView::parse(payload) {
            Ok(block) => r matches Ok(Inbound::Node(NodeAction::Block(hash, body))) && body@
                == block && hash@ == block.header.hash,
            Err(e) => r is Err && r->Err_0 == e,
        },
        Command::Inv => match parse_inventory_payload(payload) {
            Some(inventories) => r matches Ok(Inbound::Request(PeerAction::GetData(wanted)))
                && inventories_view(wanted@) == inventories,
            None => r is Err && r->Err_0 == CustomError::SerializedBufferIsInvalid,
        },
        Command::Tx => match TransactionView::parse(payload) {
            Parsed::Done { value, used } => r matches Ok(
                Inbound::Node(NodeAction::PendingTransaction(transaction)),
            ) && transaction@ == value,
            _ => r is Err && r->Err_0 == CustomError::SerializedBufferIsInvalid,
        },
        Command::GetHeaders => match GetHeadersView::parse(payload) {
            Some(request) => r matches Ok(
                Inbound::Node(NodeAction::SendHeadersRequested(from, message)),
            ) && from == address && message@ == request,
            None => r is Err && r->Err_0 == CustomError::SerializedBufferIsInvalid,
        },
        Command::Ping => match parse_nonce(payload) {
            Some(nonce) => r matches Ok(Inbound::Reply(Command::Pong, answer)) && answer@
                == le_bytes(nonce as nat, 8),
            None => r is Err && r->Err_0 == CustomError::SerializedBufferIsInvalid,
        },
        Command::SendHeaders => r matches Ok(Inbound::Node(NodeAction::SendHeaders(from)))
            && from == address,
        _ => r matches Ok(Inbound::Dropped),
    }
}

/// The request that follows an answer with headers: an answer that is
/// full, with 2000 headers, says that more are to be fetched, and the
/// headers behind its last are asked for; an answer with fewer says that
/// the chain has been followed to its tip, and nothing is asked for.
pub fn following_request(headers: &Headers) -> (request: Option<PeerAction>)
    ensures
        headers@.len() < MAX_HEADERS_PER_REPLY ==> request is None,
        headers@.len() >= MAX_HEADERS_PER_REPLY ==> (request matches Some(
            PeerAction::GetHeaders(Some(last)),
        ) && last@ == headers@.last().hash),
{
    let count = headers.headers.len();
    if count < MAX_HEADERS_PER_REPLY {
        None
    } else {
        Some(PeerAction::GetHeaders(Some(copy_bytes(&headers.headers[count - 1].hash))))
    }
}

/// What the receiving side of the peer at `address` does with a message
/// that has this command and payload.
pub fn route(command: Command, payload: Vec<u8>, address: NetAddress) -> (r: Result<
    Inbound,
    CustomError,
>)
    ensures
        routed(command, payload@, address, r),
{
    match command {
        Command::Headers => match Headers::parse(payload) {
            Ok(headers) => Ok(Inbound::Node(NodeAction::NewHeaders(headers))),
            Err(e) => Err(e),
        },
        Command::Block => match Block::parse(payload) {
            Ok(block) => {
                let hash = copy_bytes(&block.header.hash);
                Ok(Inbound::Node(NodeAction::Block(hash, block)))
            },
            Err(e) => Err(e),
        },
        Command::Inv => match parse_inventory_list(payload) {
            Ok(inventories) => Ok(Inbound::Request(PeerAction::GetData(inventories))),
            Err(e) => Err(e),
        },
        Command::Tx => {
            proof {
                crate::messages::transaction::lemma_transaction_not_rejected(payload@);
            }
            match Transaction::parse(payload) {
                Ok(transaction) => Ok(Inbound::Node(NodeAction::PendingTransaction(transaction))),
                Err(e) => Err(e),
            }
        },
        Command::GetHeaders => match GetHeaders::parse(payload) {
            Ok(request) => Ok(Inbound::Node(NodeAction::SendHeadersRequested(address, request))),
            Err(e) => Err(e),
        },
        Command::Ping => match Ping::parse(payload) {
            Ok(ping) => Ok(Inbound::Reply(Command::Pong, (Pong { nonce: ping.nonce }).serialize())),
            Err(e) => Err(e),
        },
        Command::SendHeaders => Ok(Inbound::Node(NodeAction::SendHeaders(address))),
        _ => Ok(Inbound::Dropped),
    }
}

} // verus!
