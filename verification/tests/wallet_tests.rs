use bitcoin_node::error::CustomError;
use bitcoin_node::parser::BufferParser;
use bitcoin_node::states::utxo_state::{UTXOValue, UTXO};
use bitcoin_node::structs::outpoint::OutPoint;
use bitcoin_node::structs::tx_output::{compare_p2pkh, make_p2pkh_script, TransactionOutput};
use bitcoin_node::wallet::{
    get_privkey_hash, get_pubkey_hash, get_script_pubkey, key_from_decoded, Movement, Wallet,
};

const ADDRESS: &str = "mscatccDgq7azndWHFTzvEuZuywCsUvTRu";
const ADDRESS_HASH: [u8; 20] = [
    132, 178, 35, 78, 47, 170, 110, 26, 117, 29, 126, 82, 132, 235, 16, 204, 230, 247, 81, 246,
];

fn wallet_test_script() -> Vec<u8> {
    let mut script = vec![0x76, 0xA9, 0x14];
    script.extend(ADDRESS_HASH);
    script.extend([0x88, 0xAC]);
    script
}

#[test]
fn pubkey_hash_of_an_address() {
    assert_eq!(
        get_pubkey_hash(String::from(ADDRESS)).unwrap(),
        ADDRESS_HASH.to_vec()
    );
    assert_eq!(
        get_pubkey_hash(String::from("mfcHP2WMCVLsVZA8yrovmhMgxNFW9r98xw")).unwrap(),
        (1..=20).collect::<Vec<u8>>()
    );
}

#[test]
fn keys_that_cannot_be_read() {
    match get_pubkey_hash(String::from("0OIl")) {
        Err(CustomError::Validation(text)) => {
            assert_eq!(text, "User PubKey incorrectly formatted")
        }
        _ => panic!("a key outside the alphabet was read"),
    }
    match get_pubkey_hash(String::from("2g")) {
        Err(CustomError::Validation(text)) => {
            assert_eq!(text, "User PubKey incorrectly formatted")
        }
        _ => panic!("a key of one byte was read"),
    }
    match get_privkey_hash(String::from("test!")) {
        Err(CustomError::Validation(text)) => {
            assert_eq!(text, "User PrivKey incorrectly formatted")
        }
        _ => panic!("a key outside the alphabet was read"),
    }
    match get_privkey_hash(String::from(ADDRESS)) {
        Err(CustomError::Validation(text)) => {
            assert_eq!(text, "User PubKey incorrectly formatted")
        }
        _ => panic!("a key of 25 bytes was read as a private key"),
    }
    assert!(get_script_pubkey(String::from("")).is_err());
}

#[test]
fn privkey_hash_of_a_key() {
    assert_eq!(
        get_privkey_hash(String::from(
            "91avGFZtB2zQV2wWtAgat7x4UHcid9uhm4JoK6HAoAEg6KyprN2"
        ))
        .unwrap(),
        (0..32).collect::<Vec<u8>>()
    );
}

#[test]
fn key_is_cut_out_of_the_decoded_bytes() {
    let decoded: Vec<u8> = (0..25).collect();
    assert_eq!(
        key_from_decoded(&decoded, 21),
        Some((1..21).collect::<Vec<u8>>())
    );
    assert_eq!(key_from_decoded(&decoded, 26), None);
    assert_eq!(
        key_from_decoded(&decoded, 25),
        Some((1..25).collect::<Vec<u8>>())
    );
}

#[test]
fn script_pays_to_the_key() {
    let script = get_script_pubkey(String::from(ADDRESS)).unwrap();
    assert_eq!(script, wallet_test_script());
    assert_eq!(make_p2pkh_script(&ADDRESS_HASH.to_vec()), script);
    let output = TransactionOutput {
        value: 1,
        script_pubkey: script.clone(),
    };
    assert_eq!(output.is_sent_to_key(&ADDRESS_HASH.to_vec()).unwrap(), true);
    assert_eq!(output.is_sent_to_key(&vec![1; 20]).unwrap(), false);

    let mut longer = script.clone();
    longer.push(0x00);
    assert!(!compare_p2pkh(&longer, &ADDRESS_HASH.to_vec()));
    let mut shorter = script.clone();
    shorter.pop();
    assert!(!compare_p2pkh(&shorter, &ADDRESS_HASH.to_vec()));
    let mut other_end = script.clone();
    other_end[24] = 0xAD;
    assert!(!compare_p2pkh(&other_end, &ADDRESS_HASH.to_vec()));
    assert!(!compare_p2pkh(&vec![0x76, 0xA9, 0x14, 1, 2], &vec![1, 2]));
    assert!(!compare_p2pkh(&vec![], &ADDRESS_HASH.to_vec()));
}

#[test]
fn movement_bytes_and_round_trip() {
    let received = Movement {
        tx_hash: vec![0xAA, 0xBB],
        value: 258,
        block_hash: Some(vec![0xCC]),
    };
    assert_eq!(
        received.serialize(),
        vec![2, 0xAA, 0xBB, 2, 1, 0, 0, 0, 0, 0, 0, 1, 1, 0xCC]
    );
    let spent = Movement {
        tx_hash: vec![],
        value: -1,
        block_hash: None,
    };
    assert_eq!(
        spent.serialize(),
        vec![0, 0xFF, 0xFF, 0xFF, 0xFF, 0xFF, 0xFF, 0xFF, 0xFF, 0]
    );
    for movement in [received, spent] {
        let mut parser = BufferParser::new(movement.serialize());
        assert_eq!(Movement::parse(&mut parser).unwrap(), movement);
        assert!(parser.is_empty());
    }
}

#[test]
fn movement_with_a_bad_mark_is_rejected() {
    let mut parser = BufferParser::new(vec![0, 1, 0, 0, 0, 0, 0, 0, 0, 2, 9]);
    match Movement::parse(&mut parser) {
        Err(CustomError::Validation(text)) => {
            assert_eq!(text, "Block hash presence incorrectly formatted")
        }
        _ => panic!("a mark of two was read"),
    }
    assert_eq!(parser.len(), 1);
    let mut parser = BufferParser::new(vec![0, 1, 0, 0, 0, 0, 0, 0, 0, 1, 3, 9]);
    assert!(matches!(
        Movement::parse(&mut parser),
        Err(CustomError::SerializedBufferIsInvalid)
    ));
}

#[test]
fn wallets_file_round_trip() {
    let utxo = UTXO::new();
    let mut first = Wallet::new(
        String::from("one"),
        String::from(ADDRESS),
        String::from("secret"),
        &utxo,
    )
    .unwrap();
    first.update_history(Movement {
        tx_hash: vec![1; 32],
        value: 5000,
        block_hash: Some(vec![2; 32]),
    });
    first.update_history(Movement {
        tx_hash: vec![3; 32],
        value: -700,
        block_hash: None,
    });
    let second = Wallet::new(
        String::from("dos \u{f1}"),
        String::from("pk"),
        String::from(""),
        &utxo,
    )
    .unwrap();
    assert_eq!(first.get_history().len(), 2);
    assert_eq!(first.get_history()[1].value, -700);

    let bytes = Wallet::save_wallets(&[first.clone(), second.clone()]);
    let mut expected = first.serialize();
    expected.extend(second.serialize());
    assert_eq!(bytes, expected);
    assert_eq!(&bytes[..4], &[3, b'o', b'n', b'e']);

    let wallets = Wallet::parse_wallets(bytes.clone()).unwrap();
    assert_eq!(wallets.len(), 2);
    assert_eq!(wallets[0].name, "one");
    assert_eq!(wallets[0].pubkey, ADDRESS);
    assert_eq!(wallets[0].privkey, "secret");
    assert_eq!(wallets[0].history, first.history);
    assert_eq!(wallets[1].name, "dos \u{f1}");
    assert_eq!(wallets[1].history.len(), 0);
    assert_eq!(Wallet::restore_wallets(bytes.clone()).len(), 2);

    let mut broken = bytes.clone();
    broken.pop();
    assert!(matches!(
        Wallet::parse_wallets(broken.clone()),
        Err(CustomError::SerializedBufferIsInvalid)
    ));
    assert_eq!(Wallet::restore_wallets(broken).len(), 0);
    assert_eq!(Wallet::parse_wallets(vec![]).unwrap().len(), 0);
    assert!(Wallet::parse_wallets(vec![1, 0xFF, 0, 0, 0, 0, 0, 0]).is_err());
}

#[test]
fn new_wallet_is_seeded_from_the_unspent_outputs() {
    let mut utxo = UTXO::new();
    utxo.insert(
        OutPoint {
            hash: vec![1; 32],
            index: 0,
        },
        UTXOValue {
            tx_out: TransactionOutput {
                value: 700,
                script_pubkey: wallet_test_script(),
            },
            block_hash: vec![9; 32],
        },
    );
    utxo.insert(
        OutPoint {
            hash: vec![2; 32],
            index: 1,
        },
        UTXOValue {
            tx_out: TransactionOutput {
                value: 11,
                script_pubkey: vec![0x51],
            },
            block_hash: vec![9; 32],
        },
    );
    let wallet = Wallet::new(
        String::from("w"),
        String::from(ADDRESS),
        String::from("k"),
        &utxo,
    )
    .unwrap();
    assert_eq!(
        wallet.history,
        vec![Movement {
            tx_hash: vec![1; 32],
            value: 700,
            block_hash: Some(vec![9; 32]),
        }]
    );
    assert_eq!(wallet.get_pubkey_hash().unwrap(), ADDRESS_HASH.to_vec());
    assert_eq!(wallet.get_script_pubkey().unwrap(), wallet_test_script());
    assert!(wallet.get_privkey_hash().is_err());
    assert!(Wallet::new(
        String::from("w"),
        String::from("not a key"),
        String::from("k"),
        &utxo
    )
    .is_err());
    assert_eq!(utxo.wallet_balance(&wallet).unwrap(), 700);
    assert_eq!(utxo.generate_wallet_utxo(&wallet).unwrap().len(), 1);
}
