use bitcoin_node::config::Config;
use bitcoin_node::error::CustomError;
use bitcoin_node::loops::node_action_loop::{
    fetch_requests, handle_action, handle_block, handle_make_transaction, NodeAction, NodeEffect,
};
use bitcoin_node::loops::peer_action_loop::{on_send_failure, outbound_step, PeerAction, PeerStep};
use bitcoin_node::loops::peer_stream_loop::{route, Inbound};
use bitcoin_node::message::{
    command_bytes, command_name, parse_command, serialize_message, Command, MessageHeader,
};
use bitcoin_node::messages::block::Block;
use bitcoin_node::messages::get_headers::GetHeaders;
use bitcoin_node::messages::headers::Headers;
use bitcoin_node::messages::inv::{GetData, Inv};
use bitcoin_node::messages::ping_pong::Ping;
use bitcoin_node::messages::transaction::{Transaction, TransactionInput};
use bitcoin_node::messages::version::Version;
use bitcoin_node::node_state::{GUIEvents, NodeState};
use bitcoin_node::parser::NetAddress;
use bitcoin_node::peer::{
    genesis_hash, request_headers, Handshake, HandshakeEvent, HandshakeRole, HandshakeStep, Peer,
};
use bitcoin_node::selection::{calculate_inputs, sort_by_value};
use bitcoin_node::states::utxo_state::UTXOValue;
use bitcoin_node::structs::block_header::BlockHeader;
use bitcoin_node::structs::inventory::{Inventory, InventoryType};
use bitcoin_node::structs::outpoint::OutPoint;
use bitcoin_node::structs::tx_output::TransactionOutput;
use bitcoin_node::threads::pending_blocks_loop::pending_blocks_loop;

const SENDER: &str = "mscatccDgq7azndWHFTzvEuZuywCsUvTRu";
const SENDER_HASH: [u8; 20] = [
    132, 178, 35, 78, 47, 170, 110, 26, 117, 29, 126, 82, 132, 235, 16, 204, 230, 247, 81, 246,
];
const OTHER: &str = "mfcHP2WMCVLsVZA8yrovmhMgxNFW9r98xw";

fn script_for(hash: &[u8]) -> Vec<u8> {
    let mut script = vec![0x76, 0xA9, 0x14];
    script.extend(hash);
    script.extend([0x88, 0xAC]);
    script
}

fn address(port: u16) -> NetAddress {
    NetAddress { ip: 1, port }
}

/// A header on `prev` whose hash is below the easiest target.
fn mine(prev: &[u8], merkle: u8, timestamp: u32) -> BlockHeader {
    let mut nonce: u32 = 0;
    loop {
        let mut bytes = vec![1, 0, 0, 0];
        bytes.extend(prev);
        bytes.extend([merkle; 32]);
        bytes.extend(timestamp.to_le_bytes());
        bytes.extend(0x207F_FFFFu32.to_le_bytes());
        bytes.extend(nonce.to_le_bytes());
        if let Ok(header) = BlockHeader::parse(bytes) {
            return header;
        }
        nonce += 1;
    }
}

fn funded_node(value: u64) -> NodeState {
    let mut state = NodeState::new(genesis_hash());
    state.utxo.insert(
        OutPoint {
            hash: vec![1; 32],
            index: 0,
        },
        UTXOValue {
            tx_out: TransactionOutput {
                value,
                script_pubkey: script_for(&SENDER_HASH),
            },
            block_hash: vec![9; 32],
        },
    );
    state
        .append_wallet(
            String::from("mine"),
            String::from(SENDER),
            String::from("k"),
        )
        .unwrap();
    state
}

#[test]
fn transaction_is_made_with_change() {
    let mut state = funded_node(100_000_000);
    assert!(matches!(
        state.make_transaction(vec![(String::from(OTHER), 40_000_000)], 1000),
        Err(CustomError::WalletNotFound)
    ));
    assert_eq!(
        state.change_wallet(String::from(SENDER)).unwrap(),
        GUIEvents::WalletChanged
    );
    assert_eq!(state.get_active_wallet_balance().unwrap(), 100_000_000);

    let transaction = state
        .make_transaction(vec![(String::from(OTHER), 40_000_000)], 1000)
        .unwrap();
    assert_eq!(transaction.version, 1);
    assert_eq!(transaction.lock_time, 0);
    assert_eq!(transaction.inputs.len(), 1);
    assert_eq!(
        transaction.inputs[0],
        TransactionInput {
            previous_output: OutPoint {
                hash: vec![1; 32],
                index: 0
            },
            script_sig: script_for(&SENDER_HASH),
            sequence: 0xFFFF_FFFF,
        }
    );
    assert_eq!(
        transaction.outputs,
        vec![
            TransactionOutput {
                value: 40_000_000,
                script_pubkey: script_for(&(1..=20).collect::<Vec<u8>>()),
            },
            TransactionOutput {
                value: 59_999_000,
                script_pubkey: script_for(&SENDER_HASH),
            },
        ]
    );

    let exact = state
        .make_transaction(vec![(String::from(OTHER), 99_999_000)], 1000)
        .unwrap();
    assert_eq!(exact.outputs.len(), 1);
    assert!(matches!(
        state.make_transaction(vec![(String::from(OTHER), 100_000_000)], 1),
        Err(CustomError::InsufficientFunds)
    ));
    assert!(matches!(
        state.make_transaction(vec![(String::from(OTHER), u64::MAX)], 1),
        Err(CustomError::ValueOutOfRange)
    ));
    assert!(matches!(
        state.make_transaction(vec![(String::from("no key"), 5)], 1),
        Err(CustomError::Validation(_))
    ));
}

#[test]
fn inputs_are_taken_largest_first() {
    let entry = |hash: u8, value: u64| {
        (
            OutPoint {
                hash: vec![hash; 32],
                index: 0,
            },
            UTXOValue {
                tx_out: TransactionOutput {
                    value,
                    script_pubkey: vec![],
                },
                block_hash: vec![],
            },
        )
    };
    let sorted = sort_by_value(vec![
        entry(1, 30),
        entry(2, 70),
        entry(3, 30),
        entry(4, 100),
        entry(5, 70),
    ]);
    let order: Vec<u8> = sorted.iter().map(|e| e.0.hash[0]).collect();
    assert_eq!(order, vec![4, 2, 5, 1, 3]);

    let taken = |total: u64| -> (Vec<u8>, u64) {
        let (inputs, sum) = calculate_inputs(&sorted, total);
        (inputs.iter().map(|o| o.hash[0]).collect(), sum)
    };
    assert_eq!(taken(0), (vec![4], 100));
    assert_eq!(taken(100), (vec![4], 100));
    assert_eq!(taken(101), (vec![4, 2], 170));
    assert_eq!(taken(241), (vec![4, 2, 5, 1], 270));
    assert_eq!(taken(300), (vec![4, 2, 5, 1, 3], 300));
    assert_eq!(taken(301), (vec![4, 2, 5, 1, 3], 300));
    assert_eq!(calculate_inputs(&[], 5), (vec![], 0));
}

#[test]
fn made_transaction_is_broadcast_and_pending() {
    let mut state = funded_node(500);
    let effects = handle_make_transaction(&mut state, vec![(String::from(OTHER), 5)], 1);
    assert_eq!(effects.len(), 1);
    assert!(matches!(
        effects[0],
        NodeEffect::Report(CustomError::WalletNotFound)
    ));
    state.change_wallet(String::from(SENDER)).unwrap();
    let effects = handle_make_transaction(&mut state, vec![(String::from(OTHER), 5)], 1);
    assert_eq!(effects.len(), 3);
    let sent = match &effects[0] {
        NodeEffect::Broadcast(transaction) => transaction.clone(),
        _ => panic!("the transaction was not broadcast"),
    };
    assert!(matches!(
        effects[1],
        NodeEffect::Notify(GUIEvents::NewPendingTx)
    ));
    assert!(matches!(
        effects[2],
        NodeEffect::Notify(GUIEvents::TransactionSent)
    ));
    assert_eq!(state.get_pending_tx(&sent.hash()), Some(sent.clone()));
    let movements = state.get_active_wallet_pending_txs().unwrap();
    assert_eq!(movements.len(), 1);
    assert_eq!(movements[0].value, -6);
    let again = handle_make_transaction(&mut state, vec![(String::from(OTHER), 5)], 1);
    assert_eq!(again.len(), 2);
    assert_eq!(state.pending_txs.len(), 1);
}

#[test]
fn pending_transaction_waits_for_sync() {
    let mut state = NodeState::new(genesis_hash());
    let transaction = Transaction {
        version: 1,
        inputs: vec![],
        outputs: vec![],
        lock_time: 0,
    };
    let effects = handle_action(
        &mut state,
        NodeAction::PendingTransaction(transaction.clone()),
        0,
    );
    assert!(effects.is_empty());
    assert_eq!(state.pending_txs.len(), 0);
    assert_eq!(
        state.append_pending_tx(transaction.clone()),
        Some(GUIEvents::NewPendingTx)
    );
    assert_eq!(state.append_pending_tx(transaction), None);
}

#[test]
fn initial_block_download_end_to_end() {
    let count = 7usize;
    let mut blocks: Vec<Block> = Vec::new();
    let mut prev = genesis_hash();
    let mut spendable: Option<OutPoint> = None;
    for i in 0..count {
        let mut inputs = vec![TransactionInput {
            previous_output: OutPoint {
                hash: vec![0; 32],
                index: 0xFFFF_FFFF,
            },
            script_sig: vec![i as u8],
            sequence: 0xFFFF_FFFF,
        }];
        if let Some(outpoint) = spendable.take() {
            if i % 2 == 0 {
                inputs.push(TransactionInput {
                    previous_output: outpoint,
                    script_sig: vec![],
                    sequence: 0,
                });
            }
        }
        let transaction = Transaction {
            version: 1,
            inputs,
            outputs: vec![
                TransactionOutput {
                    value: 50 + i as u64,
                    script_pubkey: script_for(&SENDER_HASH),
                },
                TransactionOutput {
                    value: 1,
                    script_pubkey: vec![0x51],
                },
            ],
            lock_time: 0,
        };
        if i % 2 == 1 {
            spendable = Some(OutPoint {
                hash: transaction.hash(),
                index: 0,
            });
        }
        let header = mine(&prev, i as u8, 1_700_000_000 + i as u32);
        prev = header.hash.clone();
        blocks.push(Block {
            header,
            transactions: vec![transaction],
        });
    }
    // outputs: two in each block; spent: the first output of the blocks at
    // the odd places one, three and five, each spent by the block after it
    let expected_unspent = 2 * count - 3;

    let mut state = NodeState::new(genesis_hash());
    state
        .append_wallet(
            String::from("mine"),
            String::from(SENDER),
            String::from("k"),
        )
        .unwrap();
    state.append_peers(vec![
        Peer::new(address(1), 0, 70015),
        Peer::new(address(2), 0, 70015),
    ]);

    // the headers come from the first peer, as one message on the wire
    let headers = Headers::new(blocks.iter().map(|b| b.header.clone()).collect());
    let action = match route(Command::Headers, headers.serialize(), address(1)).unwrap() {
        Inbound::Node(action) => action,
        _ => panic!("headers did not reach the node"),
    };
    let effects = handle_action(&mut state, action, 1_000);
    assert_eq!(effects.len(), 3);
    let mut asked: Vec<Vec<u8>> = Vec::new();
    for effect in &effects[..2] {
        match effect {
            NodeEffect::Request(PeerAction::GetData(inventories)) => {
                for inventory in inventories {
                    assert_eq!(inventory.inventory_type, InventoryType::Block);
                    asked.push(inventory.hash.clone());
                }
            }
            _ => panic!("blocks were not asked for"),
        }
    }
    assert!(matches!(
        effects[2],
        NodeEffect::Notify(GUIEvents::NewHeaders)
    ));
    assert_eq!(
        asked,
        blocks
            .iter()
            .map(|b| b.header.hash.clone())
            .collect::<Vec<_>>()
    );
    assert_eq!(state.headers.len(), count);
    assert!(state.headers.is_synced());
    assert_eq!(state.pending_blocks.len(), count);
    assert!(!state.is_synced());
    assert!(state.headers.get_all().iter().all(|h| h.broadcasted));

    // the blocks come from both peers, out of order
    let order = [3usize, 0, 6, 1, 5, 2, 4];
    let mut stored: Vec<(String, Vec<u8>)> = Vec::new();
    let mut build = false;
    for (n, i) in order.iter().enumerate() {
        let from = address(1 + (n % 2) as u16);
        let action = match route(Command::Block, blocks[*i].serialize(), from).unwrap() {
            Inbound::Node(action) => action,
            _ => panic!("a block did not reach the node"),
        };
        let effects = handle_action(&mut state, action, 2_000 + n as i64);
        for effect in effects {
            match effect {
                NodeEffect::StoreBlock(file) => stored.push((file.name, file.content)),
                NodeEffect::BuildUtxo => build = true,
                NodeEffect::Notify(GUIEvents::WalletsUpdated) => {}
                _ => panic!("an effect that a block does not have"),
            }
        }
        assert_eq!(build, n == count - 1);
    }
    assert_eq!(stored.len(), count);
    assert!(state.is_pending_blocks_empty());
    assert!(state.blocks.is_synced());
    assert!(!state.is_synced());

    // a block that is not pending is dropped
    assert!(handle_block(&mut state, blocks[0].header.hash.clone(), blocks[0].clone()).is_empty());

    // the unspent outputs are built from the stored blocks, in the order
    // of the headers
    let mut from_store: Vec<Block> = Vec::new();
    for header in state.headers.get_all() {
        let name = header.hash_as_string();
        let content = stored
            .iter()
            .find(|(file, _)| *file == name)
            .map(|(_, content)| content.clone());
        from_store.push(state.get_block(content).unwrap());
    }
    let mut out_of_order = from_store.clone();
    out_of_order.swap(0, 1);
    assert_eq!(
        state.generate_utxo(&out_of_order),
        Err(CustomError::BlockNotFound)
    );
    assert_eq!(
        state.generate_utxo(&from_store[1..].to_vec()),
        Err(CustomError::BlockNotFound)
    );
    assert_eq!(state.utxo.len(), 0);
    assert!(!state.utxo.is_synced());
    assert_eq!(
        state.generate_utxo(&from_store),
        Ok(Some(GUIEvents::NodeStateReady))
    );
    assert!(state.is_synced());
    assert_eq!(state.utxo.len(), expected_unspent);
    assert!(state.headers.get_all().iter().all(|h| h.block_downloaded));
    assert_eq!(state.headers.total_downloaded(), count);
    let owned: u64 = [0u64, 2, 4, 6].iter().map(|i| 50 + i).sum();
    state.change_wallet(String::from(SENDER)).unwrap();
    assert_eq!(state.get_active_wallet_balance().unwrap(), owned);
    assert_eq!(state.get_active_wallet_utxo().unwrap().len(), 4);
    assert_eq!(state.verify_sync(), (false, Some(GUIEvents::NodeStateReady)));

    // once the node is up to date a new block is applied as it comes
    let next_header = mine(&prev, 0x77, 1_700_001_000);
    let next = Block {
        header: next_header.clone(),
        transactions: vec![Transaction {
            version: 1,
            inputs: vec![],
            outputs: vec![TransactionOutput {
                value: 9,
                script_pubkey: script_for(&SENDER_HASH),
            }],
            lock_time: 0,
        }],
    };
    let effects = handle_action(
        &mut state,
        NodeAction::NewHeaders(Headers::new(vec![next_header.clone()])),
        3_000,
    );
    assert_eq!(effects.len(), 2);
    assert!(!state.headers.get_all()[count].broadcasted);
    // the header of a block that comes after the download is pushed to the
    // peers that asked for headers to be pushed
    assert!(handle_action(&mut state, NodeAction::SendHeaders(address(2)), 3_000).is_empty());
    let effects = handle_action(
        &mut state,
        NodeAction::Block(next_header.hash.clone(), next),
        3_001,
    );
    assert_eq!(effects.len(), 4);
    assert!(matches!(effects[0], NodeEffect::StoreBlock(_)));
    assert!(matches!(
        effects[1],
        NodeEffect::Notify(GUIEvents::NodeStateReady)
    ));
    assert!(matches!(
        effects[2],
        NodeEffect::Notify(GUIEvents::WalletsUpdated)
    ));
    match &effects[3] {
        NodeEffect::Reply(to, pushed) => {
            assert_eq!(*to, address(2));
            assert_eq!(pushed.headers.len(), 1);
            assert_eq!(pushed.headers[0].hash, next_header.hash);
        }
        _ => panic!("the header was not pushed"),
    }
    assert!(state.headers.get_all()[count].broadcasted);
    assert!(state.get_headers_to_send(&next_header.hash).is_empty());
    assert_eq!(state.utxo.len(), expected_unspent + 1);
    assert_eq!(state.get_active_wallet_balance().unwrap(), owned + 9);
    // one movement for each transaction that changed the funds
    let history = &state.get_wallets()[0].history;
    assert_eq!(history.len(), count + 1);
    assert_eq!(history[count].value, 9);
    assert_eq!(history[count].block_hash, Some(next_header.hash.clone()));
}

#[test]
fn headers_before_the_start_date_are_not_fetched() {
    let old = mine(&genesis_hash(), 1, 1_600_000_000);
    let new = mine(&old.hash, 2, 1_681_095_631);
    let at_start = mine(&new.hash, 3, 1_681_095_630);
    let mut state = NodeState::new(genesis_hash());
    let effects = handle_action(
        &mut state,
        NodeAction::NewHeaders(Headers::new(vec![old, new.clone(), at_start])),
        5,
    );
    assert_eq!(effects.len(), 2);
    assert_eq!(state.headers.len(), 3);
    assert_eq!(state.pending_blocks.len(), 1);
    assert!(state.is_block_pending(&new.hash));
    assert_eq!(state.headers.total_headers_to_download(), 1);
}

#[test]
fn headers_that_do_not_link_are_reported() {
    let stray = mine(&vec![5; 32], 1, 1_700_000_000);
    let mut state = NodeState::new(genesis_hash());
    let effects = handle_action(
        &mut state,
        NodeAction::NewHeaders(Headers::new(vec![stray])),
        5,
    );
    assert_eq!(effects.len(), 2);
    assert!(matches!(effects[0], NodeEffect::Request(_)));
    assert!(matches!(
        effects[1],
        NodeEffect::Report(CustomError::HeaderNotLinked)
    ));
    assert_eq!(state.headers.len(), 0);
}

#[test]
fn blocks_are_asked_for_five_at_a_time() {
    let hashes: Vec<Vec<u8>> = (0..11u8).map(|i| vec![i; 32]).collect();
    let sizes: Vec<usize> = fetch_requests(&hashes)
        .iter()
        .map(|effect| match effect {
            NodeEffect::Request(PeerAction::GetData(inventories)) => inventories.len(),
            _ => 0,
        })
        .collect();
    assert_eq!(sizes, vec![5, 5, 1]);
    assert_eq!(fetch_requests(&hashes[..10].to_vec()).len(), 2);
    assert_eq!(fetch_requests(&hashes[..1].to_vec()).len(), 1);
    assert!(fetch_requests(&vec![]).is_empty());
}

#[test]
fn stale_blocks_are_asked_for_again() {
    let mut state = NodeState::new(genesis_hash());
    for i in 0..6u8 {
        state.pending_blocks.append_block_at(vec![i; 32], 100);
    }
    state.pending_blocks.append_block_at(vec![9; 32], 4_000);
    assert_eq!(pending_blocks_loop(&mut state, 5_100).unwrap().len(), 0);
    let round = pending_blocks_loop(&mut state, 5_101).unwrap();
    assert_eq!(round.len(), 2);
    assert_eq!(pending_blocks_loop(&mut state, 5_101).unwrap().len(), 0);
    state.blocks.verify_sync(0);
    assert!(pending_blocks_loop(&mut state, 99_999).is_none());
}

#[test]
fn failed_requests_are_made_again() {
    let mut state = NodeState::new(genesis_hash());
    let effects = handle_action(&mut state, NodeAction::GetHeadersError, 0);
    assert!(matches!(
        effects[..],
        [NodeEffect::Request(PeerAction::GetHeaders(None))]
    ));
    let inventories = vec![Inventory::new(InventoryType::Block, vec![3; 32])];
    let effects = handle_action(
        &mut state,
        NodeAction::GetDataError(inventories.clone()),
        0,
    );
    match &effects[..] {
        [NodeEffect::Request(PeerAction::GetData(again))] => assert_eq!(*again, inventories),
        _ => panic!("the request was not made again"),
    }
}

#[test]
fn peers_are_kept_by_address() {
    let mut state = NodeState::new(genesis_hash());
    assert!(state.get_fastest_peer().is_none());
    let mut slow = Peer::new(address(1), 1, 70015);
    slow.set_benchmark(1_000, 1_900);
    let mut fast = Peer::new(address(2), 1, 70015);
    fast.set_benchmark(5_000, 5_020);
    let mut also_fast = Peer::new(address(3), 1, 70015);
    also_fast.set_benchmark(20, 40);
    assert_eq!(slow.benchmark, 900);
    assert_eq!(Peer::new(address(4), 0, 1).benchmark, 99999);
    state.append_peers(vec![slow, fast, also_fast]);
    assert_eq!(state.get_peers().len(), 3);
    assert_eq!(state.get_fastest_peer().unwrap().address, address(2));

    assert!(handle_action(&mut state, NodeAction::SendHeaders(address(3)), 0).is_empty());
    assert!(state.get_peer(&address(3)).unwrap().send_headers);
    assert!(!state.get_peer(&address(1)).unwrap().send_headers);
    state.peer_requested_headers(address(1));
    assert!(state.get_peer(&address(1)).unwrap().requested_headers);
    state.peer_send_headers(address(9));

    assert!(handle_action(&mut state, NodeAction::PeerError(address(2)), 0).is_empty());
    assert_eq!(state.get_peers().len(), 2);
    assert!(state.get_peer(&address(2)).is_none());
    assert_eq!(state.get_fastest_peer().unwrap().address, address(3));
    state.remove_peer(address(2));
    assert_eq!(state.get_peers().len(), 2);

    let mut odd = Peer::new(address(5), 0, 1);
    odd.set_benchmark(i64::MIN, i64::MAX);
    assert_eq!(odd.benchmark, i64::MAX);
    odd.set_benchmark(i64::MAX, i64::MIN);
    assert_eq!(odd.benchmark, i64::MIN);
}

#[test]
fn request_for_headers_is_answered() {
    let first = mine(&genesis_hash(), 1, 1_700_000_000);
    let second = mine(&first.hash, 2, 1_700_000_001);
    let mut state = NodeState::new(genesis_hash());
    state.append_peers(vec![Peer::new(address(1), 0, 1)]);
    state
        .append_headers(&Headers::new(vec![first.clone(), second.clone()]))
        .unwrap();
    let request = request_headers(Some(first.hash.clone()), 70015);
    assert_eq!(request.block_locator_hashes, vec![first.hash.clone()]);
    assert_eq!(request.hash_stop, vec![0; 32]);
    assert_eq!(
        request_headers(None, 1).block_locator_hashes,
        vec![genesis_hash()]
    );
    let action = match route(Command::GetHeaders, request.serialize(), address(1)).unwrap() {
        Inbound::Node(action) => action,
        _ => panic!("the request did not reach the node"),
    };
    let effects = handle_action(&mut state, action, 0);
    match &effects[..] {
        [NodeEffect::Reply(to, headers)] => {
            assert_eq!(*to, address(1));
            assert_eq!(headers.headers.len(), 1);
            assert_eq!(headers.headers[0].hash, second.hash);
        }
        _ => panic!("the request was not answered"),
    }
    assert!(state.get_peer(&address(1)).unwrap().requested_headers);
    assert_eq!(state.get_headers(request).len(), 1);
    assert_eq!(state.get_last_headers(1)[0].1.hash, second.hash);
    assert_eq!(state.get_last_header_hash(), Some(second.hash));
}

#[test]
fn messages_on_the_wire() {
    let magic = 0x0709_110B;
    let ping = Ping { nonce: 1024 };
    let bytes = serialize_message(magic, Command::Ping, &ping.serialize()).unwrap();
    assert_eq!(&bytes[..4], &[0x0B, 0x11, 0x09, 0x07]);
    assert_eq!(&bytes[4..16], b"ping\0\0\0\0\0\0\0\0");
    assert_eq!(&bytes[16..20], &[8, 0, 0, 0]);
    assert_eq!(&bytes[24..], &[0, 4, 0, 0, 0, 0, 0, 0]);
    assert_eq!(bytes.len(), 32);

    let header = MessageHeader::parse(&bytes[..24], magic).unwrap();
    assert_eq!(header.payload_size, 8);
    assert_eq!(header.accept(&bytes[24..].to_vec()).unwrap(), Command::Ping);
    assert!(matches!(
        header.accept(&vec![0, 4, 0, 0, 0, 0, 0, 1]),
        Err(CustomError::ChecksumMismatch)
    ));
    assert!(matches!(
        header.accept(&vec![0, 4, 0, 0, 0, 0, 0]),
        Err(CustomError::FramingError)
    ));
    assert!(matches!(
        MessageHeader::parse(&bytes[..24], magic + 1),
        Err(CustomError::FramingError)
    ));
    assert!(matches!(
        MessageHeader::parse(&bytes[..23], magic),
        Err(CustomError::SerializedBufferIsInvalid)
    ));

    let empty = serialize_message(magic, Command::VerAck, &vec![]).unwrap();
    assert_eq!(&empty[20..24], &[93, 246, 224, 226]);
    assert_eq!(empty.len(), 24);

    let mut unknown = empty.clone();
    unknown[4..16].copy_from_slice(b"mempool\0\0\0\0\0");
    let header = MessageHeader::parse(&unknown, magic).unwrap();
    assert!(matches!(
        header.accept(&vec![]),
        Err(CustomError::UnknownCommand)
    ));
}

#[test]
fn commands_have_their_names() {
    let all = [
        (Command::Version, "version"),
        (Command::VerAck, "verack"),
        (Command::SendHeaders, "sendheaders"),
        (Command::GetHeaders, "getheaders"),
        (Command::Headers, "headers"),
        (Command::GetData, "getdata"),
        (Command::Inv, "inv"),
        (Command::Block, "block"),
        (Command::Tx, "tx"),
        (Command::Ping, "ping"),
        (Command::Pong, "pong"),
    ];
    for (command, name) in all {
        let mut field = name.as_bytes().to_vec();
        field.resize(12, 0);
        assert_eq!(command_bytes(command), field);
        assert_eq!(command_name(command), name);
        assert_eq!(parse_command(&field).unwrap(), command);
    }
    assert!(matches!(
        parse_command(b"version\0\0\0\0"),
        Err(CustomError::UnknownCommand)
    ));
    assert!(matches!(
        parse_command(b"Version\0\0\0\0\0"),
        Err(CustomError::UnknownCommand)
    ));
    let ping = Ping { nonce: 1 };
    assert_eq!(ping.get_command(), "ping");
}

#[test]
fn inbound_messages_are_routed() {
    let from = address(7);
    match route(Command::Ping, vec![0, 4, 0, 0, 0, 0, 0, 0], from).unwrap() {
        Inbound::Reply(Command::Pong, payload) => assert_eq!(payload, vec![0, 4, 0, 0, 0, 0, 0, 0]),
        _ => panic!("a ping was not answered"),
    }
    assert!(route(Command::Ping, vec![1], from).is_err());
    assert!(matches!(
        route(Command::SendHeaders, vec![], from).unwrap(),
        Inbound::Node(NodeAction::SendHeaders(a)) if a == from
    ));
    assert!(matches!(
        route(Command::Pong, vec![0; 8], from).unwrap(),
        Inbound::Dropped
    ));
    assert!(matches!(
        route(Command::VerAck, vec![], from).unwrap(),
        Inbound::Dropped
    ));
    let transaction = Transaction {
        version: 1,
        inputs: vec![],
        outputs: vec![],
        lock_time: 7,
    };
    assert!(matches!(
        route(Command::Tx, transaction.serialize(), from).unwrap(),
        Inbound::Node(NodeAction::PendingTransaction(t)) if t == transaction
    ));
    let inventories = vec![
        Inventory::new(InventoryType::Block, vec![1; 32]),
        Inventory::new(InventoryType::Tx, vec![2; 32]),
    ];
    let announced = Inv::new(inventories.clone());
    assert_eq!(announced.get_command(), "inv");
    assert_eq!(announced.serialize().len(), 1 + 2 * 36);
    match route(Command::Inv, announced.serialize(), from).unwrap() {
        Inbound::Request(PeerAction::GetData(wanted)) => assert_eq!(wanted, inventories),
        _ => panic!("announced objects were not asked for"),
    }
    let mut bad = announced.serialize();
    bad[1] = 9;
    assert!(route(Command::Inv, bad, from).is_err());
    assert!(route(Command::Headers, vec![1, 0], from).is_err());
    assert!(matches!(
        route(Command::Block, vec![0; 81], from),
        Err(CustomError::HeaderInvalidPoW)
    ));
    assert_eq!(
        GetData::parse(GetData::new(inventories.clone()).serialize())
            .unwrap()
            .inventories,
        inventories
    );
    let request = GetHeaders::new(-1, vec![vec![1; 32], vec![2; 32]], vec![3; 32]);
    let parsed = GetHeaders::parse(request.serialize()).unwrap();
    assert_eq!(parsed.version, -1);
    assert_eq!(parsed.block_locator_hashes, request.block_locator_hashes);
    assert_eq!(parsed.hash_stop, request.hash_stop);
    assert!(GetHeaders::parse(request.serialize()[..68].to_vec()).is_err());
}

#[test]
fn outbound_actions_are_sent_as_messages() {
    match outbound_step(&PeerAction::GetHeaders(None), 70015) {
        PeerStep::Send(Command::GetHeaders, payload) => {
            assert_eq!(payload, request_headers(None, 70015).serialize());
            assert_eq!(payload.len(), 4 + 1 + 32 + 32);
            assert_eq!(&payload[5..37], &genesis_hash()[..]);
        }
        _ => panic!("headers were not asked for"),
    }
    let inventories = vec![Inventory::new(InventoryType::Block, vec![1; 32])];
    match outbound_step(&PeerAction::GetData(inventories.clone()), 1) {
        PeerStep::Send(Command::GetData, payload) => {
            assert_eq!(payload, GetData::new(inventories.clone()).serialize())
        }
        _ => panic!("data was not asked for"),
    }
    let transaction = Transaction {
        version: 1,
        inputs: vec![],
        outputs: vec![],
        lock_time: 0,
    };
    match outbound_step(&PeerAction::SendTransaction(transaction.clone()), 1) {
        PeerStep::Send(Command::Tx, payload) => assert_eq!(payload, transaction.serialize()),
        _ => panic!("the transaction was not sent"),
    }
    assert!(matches!(
        outbound_step(&PeerAction::Terminate, 1),
        PeerStep::Stop
    ));

    let (reports, stop) = on_send_failure(&PeerAction::GetHeaders(None), address(1));
    assert!(matches!(reports[..], [NodeAction::GetHeadersError]));
    assert!(!stop);
    let (reports, stop) = on_send_failure(&PeerAction::GetData(inventories.clone()), address(1));
    assert!(stop);
    match &reports[..] {
        [NodeAction::GetDataError(again), NodeAction::PeerError(at)] => {
            assert_eq!(*again, inventories);
            assert_eq!(*at, address(1));
        }
        _ => panic!("the failed request was not reported"),
    }
    let (reports, stop) = on_send_failure(&PeerAction::SendTransaction(transaction), address(2));
    assert!(stop);
    assert!(matches!(reports[..], [NodeAction::PeerError(a)] if a == address(2)));
}

#[test]
fn handshake_of_a_caller_and_of_a_callee() {
    let theirs = Version::new(address(1), address(2), 70002, 9, 1_700_000_000, 42);
    assert_eq!(theirs.get_command(), "version");
    let payload = theirs.serialize();
    assert_eq!(payload.len(), 86);
    assert_eq!(&payload[..4], &70002i32.to_le_bytes());
    assert_eq!(Version::parse_announced(payload.clone()).unwrap(), (70002, 9));
    assert!(Version::parse_announced(payload[..85].to_vec()).is_err());

    let peer = Peer::new(address(1), 1, 70015);
    let mut calling = Handshake::start(HandshakeRole::Caller, peer);
    assert_eq!(calling.next_step(), HandshakeStep::SendVersion);
    assert_eq!(calling.outcome(), None);
    calling.advance(HandshakeEvent::Sent);
    assert_eq!(calling.next_step(), HandshakeStep::ReadVersion);
    calling.advance(HandshakeEvent::Received(Command::Version, payload.clone()));
    assert_eq!(calling.next_step(), HandshakeStep::ReadVerAck);
    calling.advance(HandshakeEvent::Received(Command::VerAck, vec![]));
    assert_eq!(calling.next_step(), HandshakeStep::SendVerAck);
    calling.advance(HandshakeEvent::Sent);
    assert_eq!(calling.next_step(), HandshakeStep::SendSendHeaders);
    calling.advance(HandshakeEvent::Sent);
    assert_eq!(calling.next_step(), HandshakeStep::Done);
    let known = calling.outcome().unwrap().unwrap();
    assert_eq!((known.version, known.services), (70002, 9));
    assert_eq!(known.address, address(1));

    let mut answering = Handshake::start(HandshakeRole::Callee, peer);
    let steps = [
        HandshakeStep::ReadVersion,
        HandshakeStep::SendVersion,
        HandshakeStep::SendVerAck,
        HandshakeStep::ReadVerAck,
        HandshakeStep::SendSendHeaders,
    ];
    for step in steps {
        assert_eq!(answering.next_step(), step);
        answering.advance(match step {
            HandshakeStep::ReadVersion => {
                HandshakeEvent::Received(Command::Version, payload.clone())
            }
            HandshakeStep::ReadVerAck => HandshakeEvent::Received(Command::VerAck, vec![]),
            _ => HandshakeEvent::Sent,
        });
    }
    assert_eq!(answering.outcome().unwrap().unwrap().version, 70002);

    for bad in [
        HandshakeEvent::Broken,
        HandshakeEvent::Sent,
        HandshakeEvent::Received(Command::VerAck, vec![]),
        HandshakeEvent::Received(Command::Version, vec![1, 2, 3]),
    ] {
        let mut failing = Handshake::start(HandshakeRole::Callee, peer);
        failing.advance(bad);
        assert_eq!(failing.next_step(), HandshakeStep::Failed);
        assert!(matches!(
            failing.outcome(),
            Some(Err(CustomError::CannotHandshakeNode))
        ));
        failing.advance(HandshakeEvent::Received(Command::Version, payload.clone()));
        assert_eq!(failing.next_step(), HandshakeStep::Failed);
    }
}

#[test]
fn config_from_the_whole_file() {
    let content = "SEED=seed.test\nPROTOCOL_VERSION=7000\nLOG=log.txt\nNPEERS=5\nPORT=4321\nCLIENT_ONLY=true\nSTORE_PATH=custom";
    let config = Config::from_reader(content.as_bytes()).unwrap();
    assert_eq!(config.seed, "seed.test");
    assert_eq!(config.protocol_version, 7000);
    assert_eq!(config.log_file, "log.txt");
    assert_eq!(config.npeers, 5);
    assert_eq!(config.port, 4321);
    assert_eq!(config.client_only, true);
    assert_eq!(config.store_path, "custom");

    let lines: Vec<&str> = content.split('\n').collect();
    for missing in 0..5 {
        let rest: Vec<&str> = lines
            .iter()
            .enumerate()
            .filter(|(i, _)| *i != missing)
            .map(|(_, line)| *line)
            .collect();
        assert!(matches!(
            Config::from_reader(rest.join("\n").as_bytes()),
            Err(CustomError::ConfigMissingValue)
        ));
    }
    for optional in 5..7 {
        let rest: Vec<&str> = lines
            .iter()
            .enumerate()
            .filter(|(i, _)| *i != optional)
            .map(|(_, line)| *line)
            .collect();
        assert!(Config::from_reader(rest.join("\n").as_bytes()).is_ok());
    }
}

#[test]
fn config_lines_and_numbers() {
    let read = |text: &str| Config::from_reader(text.as_bytes());
    let base = "SEED=s\nLOG=l\nNPEERS=1\nPORT=1\n";
    let with = |line: &str| format!("{}{}", base, line);
    assert_eq!(read(&with("PROTOCOL_VERSION=-5")).unwrap().protocol_version, -5);
    assert_eq!(read(&with("PROTOCOL_VERSION=+5\r\n")).unwrap().protocol_version, 5);
    assert_eq!(
        read(&with("PROTOCOL_VERSION=2147483647")).unwrap().protocol_version,
        i32::MAX
    );
    assert_eq!(
        read(&with("PROTOCOL_VERSION=-2147483648")).unwrap().protocol_version,
        i32::MIN
    );
    assert_eq!(read(&with("PROTOCOL_VERSION=0007")).unwrap().protocol_version, 7);
    for bad in [
        "PROTOCOL_VERSION=2147483648",
        "PROTOCOL_VERSION=-2147483649",
        "PROTOCOL_VERSION=",
        "PROTOCOL_VERSION=-",
        "PROTOCOL_VERSION=+",
        "PROTOCOL_VERSION=12a",
        "PROTOCOL_VERSION= 12",
        "PROTOCOL_VERSION=1 ",
        "PROTOCOL_VERSION=99999999999999999999",
        "PORT=65536",
        "PORT=-1",
        "PORT=-0",
        "NPEERS=256",
        "NPEERS=1.0",
    ] {
        assert!(matches!(
            read(&with(bad)),
            Err(CustomError::ConfigErrorReadingValue)
        ));
    }
    let full = "SEED=s\nLOG=l\nNPEERS=255\nPORT=65535\nPROTOCOL_VERSION=1\n";
    let config = read(full).unwrap();
    assert_eq!((config.npeers, config.port), (255, 65535));
    assert_eq!(config.store_path, "store");
    assert_eq!(config.client_only, false);
    assert_eq!(
        read(&format!("{}CLIENT_ONLY=TRUE", full)).unwrap().client_only,
        false
    );
    assert_eq!(
        read(&format!("{}PORT=+0080", full)).unwrap().port,
        80
    );
    for bad in [
        "A=B=C",
        "NOVALUE",
        "\n",
        "SEED=s\n\nLOG=l",
        "=",
    ] {
        let outcome = read(&format!("{}{}", full, bad));
        if bad == "=" {
            assert!(outcome.is_ok());
        } else {
            assert!(matches!(outcome, Err(CustomError::ConfigInvalid)));
        }
    }
    assert!(matches!(
        Config::from_reader(&[b'S', b'E', b'E', b'D', b'=', 0xFF]),
        Err(CustomError::ConfigInvalid)
    ));
    assert!(matches!(read(""), Err(CustomError::ConfigMissingValue)));
    // a zero counts as missing
    assert!(matches!(
        read("SEED=s\nLOG=l\nNPEERS=1\nPORT=0\nPROTOCOL_VERSION=1"),
        Err(CustomError::ConfigMissingValue)
    ));
    // a later line replaces an earlier one
    assert_eq!(read(&format!("{}SEED=t", full)).unwrap().seed, "t");
}

#[test]
fn config_settings_one_by_one() {
    let mut config = Config::from_reader(b"SEED=s\nLOG=l\nNPEERS=1\nPORT=1\nPROTOCOL_VERSION=1").unwrap();
    assert!(Config::check_required_values(&config).is_ok());
    config.load_setting("PORT", "8333").unwrap();
    assert_eq!(config.port, 8333);
    assert!(matches!(
        config.load_setting("PORT", "x"),
        Err(CustomError::ConfigErrorReadingValue)
    ));
    assert_eq!(config.port, 8333);
    config.load_setting("UNKNOWN", "x").unwrap();
    config.load_setting("SEED", "").unwrap();
    assert!(matches!(
        Config::check_required_values(&config),
        Err(CustomError::ConfigMissingValue)
    ));
}

#[test]
fn errors_have_a_text() {
    assert_eq!(
        CustomError::InsufficientFunds.description(),
        "Insufficient funds"
    );
    assert_eq!(
        CustomError::Validation(String::from("what went wrong")).description(),
        "what went wrong"
    );
    assert_eq!(CustomError::BlockNotFound.description(), "Block not found");
    assert!(CustomError::UnknownCommand.is_soft());
    assert!(!CustomError::ChecksumMismatch.is_soft());
    assert!(!CustomError::FramingError.is_soft());
}
