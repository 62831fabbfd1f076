use vstd::prelude::*;
use crate::loops::node_action_loop::NodeAction;
use crate::message::Command;
use crate::messages::get_headers::GetHeadersView;
use crate::messages::inv::{duplicate_inventories, inventories_view, inventory_payload, serialize_inventory_list};
use crate::messages::transaction::Transaction;
use crate::parser::NetAddress;
use crate::peer::{genesis, request_headers};
use crate::structs::inventory::Inventory;
use crate::encoding::zeros;

verus! {

/// What a peer's sending side is asked to do.
#[derive(Debug, Clone)]
pub enum PeerAction {
    /// Ask for the headers that follow this hash, or that follow the
    /// genesis block.
    GetHeaders(Option<Vec<u8>>),
    /// Ask for the objects that the inventories name.
    GetData(Vec<Inventory>),
    /// Send a transaction.
    SendTransaction(Transaction),
    /// Stop.
    Terminate,
}

/// What the sending side does for an action: send a message, or stop.
#[derive(Debug, Clone)]
pub enum PeerStep {
    Send(Command, Vec<u8>),
    Stop,
}

/// The hash of an action that asks for headers, as plain values.
pub open spec fn optional_hash_view(hash: Option<Vec<u8>>) -> Option<Seq<u8>> {
    match hash {
        Some(hash) => Some(hash@),
        None => None,
    }
}

/// Whether `step` is what the sending side does for `action` in a node
/// that speaks `version`: a request for headers, a request for data or a
/// transaction is sent as the message that carries it; an order to stop
/// stops.
pub open spec fn step_for(action: PeerAction, version: i32, step: PeerStep) -> bool {
    match action {
        PeerAction::GetHeaders(last_header) => step matches PeerStep::Send(
            Command::GetHeaders,
            payload,
        ) && payload@ == (GetHeadersView {
            version,
            block_locator_hashes: seq![
                match last_header {
                    Some(hash) => hash@,
                    None => genesis(),
                },
            ],
            hash_stop: zeros(32),
        }).serialize(),
        PeerAction::GetData(inventories) => step matches PeerStep::Send(Command::GetData, payload)
            && payload@ == inventory_payload(inventories_view(inventories@)),
        PeerAction::SendTransaction(transaction) => step matches PeerStep::Send(
            Command::Tx,
            payload,
        ) && payload@ == transaction@.serialize(),
        PeerAction::Terminate => step is Stop,
    }
}

/// What the sending side does for an action.
pub fn outbound_step(action: &PeerAction, version: i32) -> (step: PeerStep)
    ensures
        step_for(*action, version, step),
{
    match action {
        PeerAction::GetHeaders(last_header) => {
            let last = match last_header {
                Some(hash) => Some(crate::hashing::copy_bytes(hash)),
                None => None,
            };
            let request = request_headers(last, version);
            PeerStep::Send(Command::GetHeaders, request.serialize())
        },
        PeerAction::GetData(inventories) => PeerStep::Send(
            Command::GetData,
            serialize_inventory_list(inventories),
        ),
        PeerAction::SendTransaction(transaction) => PeerStep::Send(
            Command::Tx,
            transaction.serialize(),
        ),
        PeerAction::Terminate => PeerStep::Stop,
    }
}

/// What the node is told when a message could not be sent, and whether the
/// sending side then stops. A request for headers that was not sent is
/// reported as such and the sending side goes on. A request for data that
/// was not sent is reported with its inventories, so that another peer can
/// be asked, then the peer is reported as failed and its sending side
/// stops. A transaction that was not sent reports the peer as failed and
/// stops its sending side.
pub fn on_send_failure(action: &PeerAction, address: NetAddress) -> (r: (Vec<NodeAction>, bool))
    ensures
        match *action {
            PeerAction::GetHeaders(_) => r.0@.len() == 1 && r.0@[0] is GetHeadersError && !r.1,
            PeerAction::GetData(inventories) => r.0@.len() == 2 && (r.0@[0] matches NodeAction::GetDataError(
                again,
            ) && inventories_view(again@) == inventories_view(inventories@)) && r.0@[1]
                == NodeAction::PeerError(address) && r.1,
            PeerAction::SendTransaction(_) => r.0@.len() == 1 && r.0@[0] == NodeAction::PeerError(
                address,
            ) && r.1,
            PeerAction::Terminate => r.0@.len() == 0 && r.1,
        },
{
    let mut reports: Vec<NodeAction> = Vec::new();
    match action {
        PeerAction::GetHeaders(_) => {
            reports.push(NodeAction::GetHeadersError);
            (reports, false)
        },
        PeerAction::GetData(inventories) => {
            reports.push(NodeAction::GetDataError(duplicate_inventories(inventories)));
            reports.push(NodeAction::PeerError(address));
            (reports, true)
        },
        PeerAction::SendTransaction(_) => {
            reports.push(NodeAction::PeerError(address));
            (reports, true)
        },
        PeerAction::Terminate => (reports, true),
    }
}

} // verus!
