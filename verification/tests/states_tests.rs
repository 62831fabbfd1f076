use bitcoin_node::error::CustomError;
use bitcoin_node::messages::block::Block;
use bitcoin_node::loops::peer_action_loop::PeerAction;
use bitcoin_node::loops::peer_stream_loop::following_request;
use bitcoin_node::messages::get_headers::GetHeaders;
use bitcoin_node::messages::headers::Headers;
use bitcoin_node::messages::transaction::{Transaction, TransactionInput};
use bitcoin_node::states::blocks_state::BlocksStore;
use bitcoin_node::states::headers_state::HeadersChain;
use bitcoin_node::states::pending_blocks_state::PendingBlocks;
use bitcoin_node::states::pending_txs_state::PendingTxPool;
use bitcoin_node::states::utxo_state::{UTXOValue, UTXO};
use bitcoin_node::states::wallets_state::WalletsStore;
use bitcoin_node::structs::block_header::BlockHeader;
use bitcoin_node::structs::outpoint::OutPoint;
use bitcoin_node::structs::tx_output::TransactionOutput;
use bitcoin_node::wallet::{Movement, Wallet};

const OWNER: &str = "mscatccDgq7azndWHFTzvEuZuywCsUvTRu";
const OWNER_HASH: [u8; 20] = [
    132, 178, 35, 78, 47, 170, 110, 26, 117, 29, 126, 82, 132, 235, 16, 204, 230, 247, 81, 246,
];

fn owner_script() -> Vec<u8> {
    let mut script = vec![0x76, 0xA9, 0x14];
    script.extend(OWNER_HASH);
    script.extend([0x88, 0xAC]);
    script
}

fn plain_header(hash: u8, prev: u8) -> BlockHeader {
    BlockHeader {
        version: 1,
        prev_block_hash: vec![prev; 32],
        merkle_root: vec![0; 32],
        timestamp: 1_700_000_000,
        bits: 0x207F_FFFF,
        nonce: 0,
        hash: vec![hash; 32],
        broadcasted: false,
        block_downloaded: false,
    }
}

fn chain_hashes(chain: &HeadersChain) -> Vec<u8> {
    chain.get_all().iter().map(|h| h.hash[0]).collect()
}

fn paying(value: u64, script: Vec<u8>) -> TransactionOutput {
    TransactionOutput {
        value,
        script_pubkey: script,
    }
}

fn spending(hash: u8, index: u32) -> TransactionInput {
    TransactionInput {
        previous_output: OutPoint {
            hash: vec![hash; 32],
            index,
        },
        script_sig: vec![],
        sequence: 0xFFFF_FFFF,
    }
}

#[test]
fn chain_takes_the_accepted_part_of_each_batch() {
    let mut chain = HeadersChain::new(vec![0; 32]);
    assert_eq!(chain.len(), 0);
    assert_eq!(chain.get_last_header_hash(), None);
    assert!(!chain.is_synced());

    assert!(chain
        .append_headers(vec![plain_header(1, 0), plain_header(2, 1)])
        .is_ok());
    assert_eq!(chain_hashes(&chain), vec![1, 2]);

    // a known header is passed over, the next is added, the one that does
    // not link ends the batch
    let result = chain.append_headers(vec![
        plain_header(2, 1),
        plain_header(3, 2),
        plain_header(5, 4),
        plain_header(4, 3),
    ]);
    assert!(matches!(result, Err(CustomError::HeaderNotLinked)));
    assert_eq!(chain_hashes(&chain), vec![1, 2, 3]);

    assert!(chain.append_headers(vec![]).is_ok());
    assert!(chain.append_headers(vec![plain_header(4, 3)]).is_ok());
    assert_eq!(chain_hashes(&chain), vec![1, 2, 3, 4]);
    assert_eq!(chain.get_last_header_hash(), Some(vec![4; 32]));

    // a first header that does not name the anchor is turned away
    let mut other = HeadersChain::new(vec![7; 32]);
    assert!(other.append_headers(vec![plain_header(1, 0)]).is_err());
    assert_eq!(other.len(), 0);
    assert!(other.append_headers(vec![plain_header(1, 7)]).is_ok());
    assert_eq!(other.len(), 1);
}

#[test]
fn full_page_of_headers_means_more_to_fetch() {
    let mut full: Vec<BlockHeader> = Vec::new();
    let mut prev = vec![0u8; 32];
    for i in 0..2000u32 {
        let mut hash = vec![0u8; 32];
        hash[..4].copy_from_slice(&(i + 1).to_le_bytes());
        let mut header = plain_header(0, 0);
        header.prev_block_hash = prev.clone();
        header.hash = hash.clone();
        full.push(header);
        prev = hash;
    }
    let mut chain = HeadersChain::new(vec![0; 32]);
    assert!(chain.append_headers(full.clone()).is_ok());
    assert_eq!(chain.len(), 2000);
    assert!(!chain.is_synced());

    let mut next = plain_header(0xEE, 0);
    next.prev_block_hash = prev.clone();
    assert!(chain.append_headers(vec![next]).is_ok());
    assert_eq!(chain.len(), 2001);
    assert!(chain.is_synced());

    match following_request(&Headers::new(full.clone())) {
        Some(PeerAction::GetHeaders(Some(last))) => assert_eq!(last, prev),
        _ => panic!("a full answer asks for more"),
    }
    let mut short = HeadersChain::new(vec![0; 32]);
    full.truncate(1999);
    assert!(following_request(&Headers::new(full.clone())).is_none());
    assert!(following_request(&Headers::new(vec![])).is_none());
    assert!(short.append_headers(full).is_ok());
    assert!(short.is_synced());
}

#[test]
fn chain_lookups() {
    let mut chain = HeadersChain::new(vec![0; 32]);
    let mut headers = Vec::new();
    for i in 1..=6u8 {
        let mut header = plain_header(i, i - 1);
        if i <= 2 {
            header.timestamp = 1_600_000_000;
        }
        headers.push(header);
    }
    chain.append_headers(headers).unwrap();
    assert_eq!(chain.total_headers_to_download(), 4);
    assert_eq!(chain.total_downloaded(), 0);
    assert!(chain.set_downloaded(&vec![3; 32]));
    assert!(!chain.set_downloaded(&vec![9; 32]));
    assert_eq!(chain.total_downloaded(), 1);
    assert!(chain.get_header(&vec![3; 32]).unwrap().block_downloaded);
    assert!(!chain.get_header(&vec![4; 32]).unwrap().block_downloaded);
    assert!(chain.get_header(&vec![9; 32]).is_none());

    let last = chain.get_last_headers(2);
    assert_eq!(last.len(), 2);
    assert_eq!((last[0].0, last[0].1.hash[0]), (5, 6));
    assert_eq!((last[1].0, last[1].1.hash[0]), (4, 5));
    assert_eq!(chain.get_last_headers(10).len(), 6);
    assert_eq!(chain.get_last_headers(0).len(), 0);

    let reply = |locator: Vec<u8>, stop: u8| -> Vec<u8> {
        let request = GetHeaders::new(
            70015,
            locator.into_iter().map(|h| vec![h; 32]).collect(),
            vec![stop; 32],
        );
        chain.get_headers(&request).iter().map(|h| h.hash[0]).collect()
    };
    assert_eq!(reply(vec![2], 0), vec![3, 4, 5, 6]);
    assert_eq!(reply(vec![9, 4, 2], 0), vec![5, 6]);
    assert_eq!(reply(vec![2], 4), vec![3, 4]);
    assert_eq!(reply(vec![2], 2), vec![3, 4, 5, 6]);
    assert_eq!(reply(vec![9], 0), vec![1, 2, 3, 4, 5, 6]);
    assert_eq!(reply(vec![], 1), vec![1]);
    assert_eq!(reply(vec![6], 0), Vec::<u8>::new());
}

#[test]
fn pending_block_is_asked_for_once() {
    let mut pending = PendingBlocks::new();
    assert!(pending.is_empty());
    pending.append_block(vec![1; 32]);
    pending.append_block(vec![1; 32]);
    assert_eq!(pending.len(), 1);
    assert!(pending.is_block_pending(&vec![1; 32]));
    assert!(!pending.is_block_pending(&vec![2; 32]));
    assert!(pending.remove_block(&vec![1; 32]));
    assert!(!pending.remove_block(&vec![1; 32]));
    assert!(pending.is_empty());
}

#[test]
fn stale_requests_are_reported_once() {
    let mut pending = PendingBlocks::new();
    pending.append_block_at(vec![1; 32], 1_000);
    pending.append_block_at(vec![2; 32], 3_000);
    pending.append_block_at(vec![3; 32], 1_000);
    // the time of a request does not change when it is asked for again
    pending.append_block_at(vec![1; 32], 9_000);
    assert_eq!(pending.len(), 3);

    assert_eq!(pending.get_stale_requests_at(6_000), Vec::<Vec<u8>>::new());
    assert_eq!(
        pending.get_stale_requests_at(6_001),
        vec![vec![1; 32], vec![3; 32]]
    );
    assert_eq!(pending.get_stale_requests_at(6_001), Vec::<Vec<u8>>::new());
    assert_eq!(pending.get_stale_requests_at(8_001), vec![vec![2; 32]]);
    assert_eq!(
        pending.get_stale_requests_at(11_002),
        vec![vec![1; 32], vec![3; 32]]
    );
    assert_eq!(pending.len(), 3);
    assert_eq!(
        pending.get_stale_requests_at(i64::MAX),
        vec![vec![1; 32], vec![2; 32], vec![3; 32]]
    );
    assert_eq!(pending.get_stale_requests_at(i64::MIN), Vec::<Vec<u8>>::new());
}

#[test]
fn stale_requests_by_the_clock() {
    let mut pending = PendingBlocks::new();
    pending.append_block_at(vec![1; 32], 0);
    pending.append_block(vec![2; 32]);
    assert_eq!(pending.get_stale_requests(), vec![vec![1; 32]]);
    assert_eq!(pending.get_stale_requests(), Vec::<Vec<u8>>::new());
}

#[test]
fn pool_takes_a_transaction_once() {
    let transaction = Transaction {
        version: 1,
        inputs: vec![],
        outputs: vec![paying(50, vec![1, 2, 3])],
        lock_time: 0,
    };
    let mut pool = PendingTxPool::new();
    assert_eq!(pool.append(transaction.clone()), true);
    assert_eq!(pool.append(transaction.clone()), false);
    assert_eq!(pool.len(), 1);
    let hash = transaction.hash();
    assert_eq!(pool.get_pending_tx(&hash), Some(&transaction));
    assert_eq!(pool.get_pending_tx(&vec![0; 32]), None);
}

#[test]
fn confirmed_transactions_leave_the_pool() {
    let first = Transaction {
        version: 1,
        inputs: vec![],
        outputs: vec![paying(1, vec![])],
        lock_time: 0,
    };
    let second = Transaction {
        version: 1,
        inputs: vec![],
        outputs: vec![paying(2, vec![])],
        lock_time: 0,
    };
    let third = Transaction {
        version: 1,
        inputs: vec![],
        outputs: vec![paying(3, vec![])],
        lock_time: 0,
    };
    let mut pool = PendingTxPool::new();
    pool.append(first.clone());
    pool.append(second.clone());
    pool.append(third.clone());
    let block = Block {
        header: plain_header(1, 0),
        transactions: vec![third.clone(), first.clone()],
    };
    pool.update_on_block(&block);
    assert_eq!(pool.len(), 1);
    assert!(pool.get_pending_tx(&first.hash()).is_none());
    assert!(pool.get_pending_tx(&third.hash()).is_none());
    assert_eq!(pool.get_pending_tx(&second.hash()), Some(&second));
    pool.remove_confirmed(&vec![second.hash()]);
    assert_eq!(pool.len(), 0);
}

#[test]
fn unspent_outputs_follow_the_blocks() {
    let coinbase = Transaction {
        version: 1,
        inputs: vec![spending(0, 0xFFFF_FFFF)],
        outputs: vec![paying(5000, owner_script()), paying(7, vec![0x51])],
        lock_time: 0,
    };
    let coinbase_hash = coinbase.hash();
    let first = Block {
        header: plain_header(1, 0),
        transactions: vec![coinbase.clone()],
    };
    let mut utxo = UTXO::new();
    assert!(!utxo.is_synced());
    utxo.update_from_block(&first, true).unwrap();
    assert_eq!(utxo.len(), 2);
    let kept = utxo
        .get(&OutPoint {
            hash: coinbase_hash.clone(),
            index: 0,
        })
        .unwrap();
    assert_eq!(kept.tx_out.value, 5000);
    assert_eq!(kept.block_hash, vec![1; 32]);
    assert_eq!(utxo.balance_of_key(&OWNER_HASH.to_vec()).unwrap(), 5000);

    let spend = Transaction {
        version: 1,
        inputs: vec![TransactionInput {
            previous_output: OutPoint {
                hash: coinbase_hash.clone(),
                index: 0,
            },
            script_sig: vec![],
            sequence: 0,
        }],
        outputs: vec![paying(1000, owner_script()), paying(3900, vec![0x52])],
        lock_time: 0,
    };
    let second = Block {
        header: plain_header(2, 1),
        transactions: vec![spend.clone()],
    };
    match utxo.update_from_block(&second, false) {
        Err(CustomError::Validation(text)) => {
            assert_eq!(text, "Reverting a block is not supported")
        }
        _ => panic!("a block was taken back"),
    }
    assert_eq!(utxo.len(), 2);
    utxo.update_from_block(&second, true).unwrap();
    assert_eq!(utxo.len(), 3);
    assert!(utxo
        .get(&OutPoint {
            hash: coinbase_hash.clone(),
            index: 0
        })
        .is_none());
    assert_eq!(utxo.balance_of_key(&OWNER_HASH.to_vec()).unwrap(), 1000);
    assert_eq!(utxo.utxo_of_key(&OWNER_HASH.to_vec()).len(), 1);
    assert_eq!(utxo.balance_of_key(&vec![0; 20]).unwrap(), 0);

    let mut built = UTXO::new();
    built.generate(&vec![first, second]);
    assert!(built.is_synced());
    assert_eq!(built.len(), 3);
    assert_eq!(built.balance_of_key(&OWNER_HASH.to_vec()).unwrap(), 1000);
}

#[test]
fn balance_that_does_not_fit_is_an_error() {
    let mut utxo = UTXO::new();
    for index in 0..2 {
        utxo.insert(
            OutPoint {
                hash: vec![1; 32],
                index,
            },
            UTXOValue {
                tx_out: paying(u64::MAX, owner_script()),
                block_hash: vec![],
            },
        );
    }
    assert!(matches!(
        utxo.balance_of_key(&OWNER_HASH.to_vec()),
        Err(CustomError::ValueOutOfRange)
    ));
    // the same outpoint keeps one entry
    utxo.insert(
        OutPoint {
            hash: vec![1; 32],
            index: 1,
        },
        UTXOValue {
            tx_out: paying(5, owner_script()),
            block_hash: vec![],
        },
    );
    assert_eq!(utxo.len(), 2);
    assert!(utxo.balance_of_key(&OWNER_HASH.to_vec()).is_err());
    utxo.remove(&OutPoint {
        hash: vec![1; 32],
        index: 0,
    });
    assert_eq!(utxo.balance_of_key(&OWNER_HASH.to_vec()).unwrap(), 5);
}

#[test]
fn movement_is_received_less_spent() {
    let mut utxo = UTXO::new();
    utxo.insert(
        OutPoint {
            hash: vec![1; 32],
            index: 0,
        },
        UTXOValue {
            tx_out: paying(900, owner_script()),
            block_hash: vec![8; 32],
        },
    );
    utxo.insert(
        OutPoint {
            hash: vec![1; 32],
            index: 1,
        },
        UTXOValue {
            tx_out: paying(50, vec![0x51]),
            block_hash: vec![8; 32],
        },
    );
    let key = OWNER_HASH.to_vec();
    let spend = Transaction {
        version: 1,
        inputs: vec![spending(1, 0), spending(1, 1), spending(2, 0)],
        outputs: vec![paying(300, owner_script()), paying(640, vec![0x51])],
        lock_time: 0,
    };
    let movement = spend.get_movement(&key, &utxo).unwrap().unwrap();
    assert_eq!(movement.value, -600);
    assert_eq!(movement.tx_hash, spend.hash());
    assert_eq!(movement.block_hash, None);

    let receive = Transaction {
        version: 1,
        inputs: vec![spending(1, 1)],
        outputs: vec![paying(40, owner_script())],
        lock_time: 0,
    };
    assert_eq!(
        receive
            .movement_with_hash(vec![5; 32], Some(vec![6; 32]), &key, &utxo)
            .unwrap(),
        Some(Movement {
            tx_hash: vec![5; 32],
            value: 40,
            block_hash: Some(vec![6; 32]),
        })
    );
    let even = Transaction {
        version: 1,
        inputs: vec![spending(1, 0)],
        outputs: vec![paying(900, owner_script())],
        lock_time: 0,
    };
    assert_eq!(even.get_movement(&key, &utxo).unwrap(), None);
    let unrelated = Transaction {
        version: 1,
        inputs: vec![spending(1, 1)],
        outputs: vec![paying(50, vec![0x53])],
        lock_time: 0,
    };
    assert_eq!(unrelated.get_movement(&key, &utxo).unwrap(), None);
    let too_much = Transaction {
        version: 1,
        inputs: vec![],
        outputs: vec![paying(u64::MAX, owner_script())],
        lock_time: 0,
    };
    assert!(matches!(
        too_much.get_movement(&key, &utxo),
        Err(CustomError::ValueOutOfRange)
    ));
}

#[test]
fn wallets_take_the_movements_of_a_block() {
    let mut utxo = UTXO::new();
    utxo.insert(
        OutPoint {
            hash: vec![1; 32],
            index: 0,
        },
        UTXOValue {
            tx_out: paying(900, owner_script()),
            block_hash: vec![8; 32],
        },
    );
    let mut wallets = WalletsStore::new();
    assert!(wallets.get_active().is_none());
    wallets.append(
        Wallet::new(
            String::from("mine"),
            String::from(OWNER),
            String::from("k"),
            &utxo,
        )
        .unwrap(),
    );
    wallets.append(
        Wallet::new(
            String::from("other"),
            String::from("mfcHP2WMCVLsVZA8yrovmhMgxNFW9r98xw"),
            String::from("k"),
            &utxo,
        )
        .unwrap(),
    );
    assert!(matches!(
        wallets.set_active(&String::from("nobody")),
        Err(CustomError::WalletNotFound)
    ));
    assert!(wallets.get_active().is_none());
    wallets.set_active(&String::from(OWNER)).unwrap();
    assert_eq!(wallets.get_active().unwrap().name, "mine");
    assert_eq!(wallets.get_all()[0].history.len(), 1);

    let spend = Transaction {
        version: 1,
        inputs: vec![spending(1, 0)],
        outputs: vec![paying(100, owner_script())],
        lock_time: 0,
    };
    let idle = Transaction {
        version: 1,
        inputs: vec![],
        outputs: vec![paying(1, vec![])],
        lock_time: 0,
    };
    let block = Block {
        header: plain_header(3, 2),
        transactions: vec![idle.clone(), spend.clone()],
    };
    assert_eq!(wallets.update(&block, &utxo).unwrap(), true);
    assert_eq!(
        wallets.get_all()[0].history[1],
        Movement {
            tx_hash: spend.hash(),
            value: -800,
            block_hash: Some(vec![3; 32]),
        }
    );
    assert_eq!(wallets.get_all()[1].history.len(), 0);
    assert_eq!(wallets.get_active().unwrap().name, "mine");
    let quiet = Block {
        header: plain_header(4, 3),
        transactions: vec![idle],
    };
    assert_eq!(wallets.update(&quiet, &utxo).unwrap(), false);

    let saved = wallets.save();
    let restored = WalletsStore::restore(saved);
    assert_eq!(restored.get_all().len(), 2);
    assert_eq!(restored.get_all()[0].history.len(), 2);
    assert!(restored.get_active().is_none());

    wallets.append(
        Wallet::new(
            String::from("broken"),
            String::from("not a key"),
            String::from("k"),
            &UTXO::new(),
        )
        .unwrap(),
    );
    assert!(matches!(
        wallets.update(&block, &utxo),
        Err(CustomError::Validation(_))
    ));
    assert_eq!(wallets.get_all()[0].history.len(), 2);
}

#[test]
fn pending_movements_of_a_wallet() {
    let mut utxo = UTXO::new();
    utxo.insert(
        OutPoint {
            hash: vec![1; 32],
            index: 0,
        },
        UTXOValue {
            tx_out: paying(900, owner_script()),
            block_hash: vec![8; 32],
        },
    );
    let wallet = Wallet::new(
        String::from("mine"),
        String::from(OWNER),
        String::from("k"),
        &UTXO::new(),
    )
    .unwrap();
    let spend = Transaction {
        version: 1,
        inputs: vec![spending(1, 0)],
        outputs: vec![paying(100, owner_script())],
        lock_time: 0,
    };
    let idle = Transaction {
        version: 1,
        inputs: vec![],
        outputs: vec![paying(1, vec![])],
        lock_time: 0,
    };
    let mut pool = PendingTxPool::new();
    pool.append(idle);
    pool.append(spend.clone());
    assert_eq!(
        pool.movements_from_wallet(&wallet, &utxo).unwrap(),
        vec![Movement {
            tx_hash: spend.hash(),
            value: -800,
            block_hash: None,
        }]
    );
}

#[test]
fn block_store_counts_and_names() {
    let block = Block {
        header: plain_header(0xAB, 0),
        transactions: vec![],
    };
    let mut pending = PendingBlocks::new();
    pending.append_block_at(vec![0xAB; 32], 5);
    let mut store = BlocksStore::new(0);
    assert!(!store.is_synced());
    let file = store.append_block(&mut pending, &vec![0xAB; 32], &block, 2);
    assert_eq!(file.name, "AB".repeat(32));
    assert_eq!(file.content, block.serialize());
    assert_eq!(file.content.len(), 81);
    assert!(pending.is_empty());
    assert!(!store.is_synced());
    store.append_block(&mut pending, &vec![0xCD; 32], &block, 2);
    assert!(store.is_synced());
    store.verify_sync(3);
    assert!(!store.is_synced());
    store.verify_sync(2);
    assert!(store.is_synced());
    assert!(matches!(
        BlocksStore::get_block(None),
        Err(CustomError::BlockNotFound)
    ));
    assert!(matches!(
        BlocksStore::get_block(Some(vec![0; 10])),
        Err(CustomError::SerializedBufferIsInvalid)
    ));
}

#[test]
fn movements_of_a_block_add_up_to_the_change_of_funds() {
    let key = OWNER_HASH.to_vec();
    let mut utxo = UTXO::new();
    utxo.insert(
        OutPoint {
            hash: vec![1; 32],
            index: 0,
        },
        UTXOValue {
            tx_out: paying(900, owner_script()),
            block_hash: vec![8; 32],
        },
    );
    utxo.insert(
        OutPoint {
            hash: vec![1; 32],
            index: 1,
        },
        UTXOValue {
            tx_out: paying(250, owner_script()),
            block_hash: vec![8; 32],
        },
    );
    utxo.insert(
        OutPoint {
            hash: vec![2; 32],
            index: 0,
        },
        UTXOValue {
            tx_out: paying(70, vec![0x51]),
            block_hash: vec![8; 32],
        },
    );
    let block = Block {
        header: plain_header(3, 2),
        transactions: vec![
            Transaction {
                version: 1,
                inputs: vec![spending(0, 0xFFFF_FFFF)],
                outputs: vec![paying(5000, owner_script()), paying(1, vec![0x52])],
                lock_time: 0,
            },
            Transaction {
                version: 1,
                inputs: vec![spending(1, 0), spending(2, 0)],
                outputs: vec![paying(300, owner_script()), paying(660, vec![0x51])],
                lock_time: 0,
            },
            Transaction {
                version: 1,
                inputs: vec![spending(1, 1)],
                outputs: vec![paying(250, vec![0x53])],
                lock_time: 0,
            },
        ],
    };
    let before = utxo.balance_of_key(&key).unwrap() as i64;
    let mut recorded: i64 = 0;
    for transaction in &block.transactions {
        if let Some(movement) = transaction.get_movement(&key, &utxo).unwrap() {
            recorded += movement.value;
        }
    }
    utxo.update_from_block(&block, true).unwrap();
    let after = utxo.balance_of_key(&key).unwrap() as i64;
    assert_eq!(recorded, 5000 - 600 - 250);
    assert_eq!(after - before, recorded);

    // a block that spends what it has just made: the movements no longer
    // add up to the change of funds
    let first = Transaction {
        version: 1,
        inputs: vec![],
        outputs: vec![paying(50, owner_script())],
        lock_time: 0,
    };
    let second = Transaction {
        version: 1,
        inputs: vec![TransactionInput {
            previous_output: OutPoint {
                hash: first.hash(),
                index: 0,
            },
            script_sig: vec![],
            sequence: 0,
        }],
        outputs: vec![paying(50, vec![0x54])],
        lock_time: 0,
    };
    let chained = Block {
        header: plain_header(4, 3),
        transactions: vec![first, second],
    };
    let before = after;
    let mut recorded: i64 = 0;
    for transaction in &chained.transactions {
        if let Some(movement) = transaction.get_movement(&key, &utxo).unwrap() {
            recorded += movement.value;
        }
    }
    utxo.update_from_block(&chained, true).unwrap();
    let after = utxo.balance_of_key(&key).unwrap() as i64;
    assert_eq!(recorded, 50);
    assert_eq!(after - before, 0);
}

#[test]
fn headers_are_pushed_in_the_order_of_the_chain() {
    let mut chain = HeadersChain::new(vec![0; 32]);
    let mut headers = Vec::new();
    for i in 1..=5u8 {
        let mut header = plain_header(i, i - 1);
        header.broadcasted = i == 1;
        headers.push(header);
    }
    chain.append_headers(headers).unwrap();
    let pushed = |chain: &mut HeadersChain, stored: u8| -> Vec<u8> {
        chain.set_downloaded(&vec![stored; 32]);
        chain
            .get_headers_to_send(&vec![stored; 32])
            .iter()
            .map(|h| h.hash[0])
            .collect()
    };
    // the third waits for the second
    assert_eq!(pushed(&mut chain, 3), Vec::<u8>::new());
    assert_eq!(pushed(&mut chain, 5), Vec::<u8>::new());
    assert_eq!(pushed(&mut chain, 2), vec![2, 3]);
    assert_eq!(pushed(&mut chain, 2), Vec::<u8>::new());
    assert_eq!(chain.get_headers_to_send(&vec![9; 32]).len(), 0);
    assert_eq!(pushed(&mut chain, 4), vec![4, 5]);
    assert!(chain.get_all().iter().all(|h| h.broadcasted));
    assert_eq!(chain.get_downloaded_hashes().len(), 4);
}
