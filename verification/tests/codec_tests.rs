use bitcoin_node::encoding::{le_less, read_be, read_le, write_le};
use bitcoin_node::error::CustomError;
use bitcoin_node::messages::transaction::{Transaction, TransactionInput};
use bitcoin_node::parser::{varint_bytes, BufferParser, NetAddress, VarIntSerialize};
use bitcoin_node::structs::outpoint::OutPoint;
use bitcoin_node::structs::tx_output::TransactionOutput;

#[test]
fn varint_decode_four_byte_form() {
    let mut buffer = BufferParser::new(vec![0xFE, 0x03, 0x02, 0x01, 0x00]);
    assert_eq!(buffer.extract_varint().unwrap(), 0x00010203);
    assert!(buffer.is_empty());
}

#[test]
fn varint_prefix_changes_at_the_boundaries() {
    assert_eq!(varint_bytes(0), vec![0x00]);
    assert_eq!(varint_bytes(0xFC), vec![0xFC]);
    assert_eq!(varint_bytes(0xFD), vec![0xFD, 0xFD, 0x00]);
    assert_eq!(varint_bytes(0xFFFF), vec![0xFD, 0xFF, 0xFF]);
    assert_eq!(varint_bytes(0x1_0000), vec![0xFE, 0x00, 0x00, 0x01, 0x00]);
    assert_eq!(varint_bytes(0xFFFF_FFFF), vec![0xFE, 0xFF, 0xFF, 0xFF, 0xFF]);
    assert_eq!(
        varint_bytes(0x1_0000_0000),
        vec![0xFF, 0x00, 0x00, 0x00, 0x00, 0x01, 0x00, 0x00, 0x00]
    );
    assert_eq!(varint_bytes(u64::MAX), vec![0xFF; 9]);
    let length: usize = 0xFD;
    assert_eq!(length.to_varint_bytes(), vec![0xFD, 0xFD, 0x00]);
}

#[test]
fn varint_round_trip_at_the_boundaries() {
    for value in [
        0u64,
        1,
        0xFC,
        0xFD,
        0xFE,
        0xFF,
        0x100,
        0xFFFF,
        0x1_0000,
        0xFFFF_FFFF,
        0x1_0000_0000,
        u64::MAX,
    ] {
        let mut bytes = varint_bytes(value);
        bytes.push(0x55);
        let mut parser = BufferParser::new(bytes);
        assert_eq!(parser.extract_varint().unwrap(), value);
        assert_eq!(parser.len(), 1);
    }
}

#[test]
fn varint_accepts_a_longer_form_of_a_small_number() {
    let mut parser = BufferParser::new(vec![0xFD, 0x01, 0x00]);
    assert_eq!(parser.extract_varint().unwrap(), 1);
}

#[test]
fn varint_without_its_tail_fails_behind_the_prefix() {
    let mut parser = BufferParser::new(vec![0xFD, 0x01]);
    assert!(matches!(
        parser.extract_varint(),
        Err(CustomError::SerializedBufferIsInvalid)
    ));
    assert_eq!(parser.len(), 1);
    let mut parser = BufferParser::new(vec![]);
    assert!(parser.extract_varint().is_err());
    assert_eq!(parser.len(), 0);
}

#[test]
fn failed_read_leaves_the_cursor() {
    let mut parser = BufferParser::new(vec![1, 2, 3]);
    assert!(matches!(
        parser.extract_u32(),
        Err(CustomError::SerializedBufferIsInvalid)
    ));
    assert_eq!(parser.len(), 3);
    assert_eq!(parser.extract_buffer(3).unwrap(), &[1, 2, 3]);
    assert!(parser.extract_buffer(1).is_err());
    assert_eq!(parser.extract_buffer(0).unwrap(), &[] as &[u8]);
}

#[test]
fn signed_scalars_are_twos_complement() {
    let mut parser = BufferParser::new(vec![0xFF, 0xFE, 0xFF, 0xFD, 0xFF, 0xFF, 0xFF]);
    assert_eq!(parser.extract_i8().unwrap(), -1);
    assert_eq!(parser.extract_i16().unwrap(), -2);
    assert_eq!(parser.extract_i32().unwrap(), -3);
    let mut parser = BufferParser::new(vec![0x00, 0x00, 0x00, 0x00, 0x00, 0x00, 0x00, 0x80]);
    assert_eq!(parser.extract_i64().unwrap(), i64::MIN);
    let mut parser = BufferParser::new(vec![0x80, 0x00, 0x80, 0x00, 0x00, 0x00, 0x80]);
    assert_eq!(parser.extract_i8().unwrap(), i8::MIN);
    assert_eq!(parser.extract_i16().unwrap(), i16::MIN);
    assert_eq!(parser.extract_i32().unwrap(), i32::MIN);
    let mut parser = BufferParser::new(vec![0xFF; 8]);
    assert_eq!(parser.extract_u64().unwrap(), u64::MAX);
}

#[test]
fn scalars_little_and_big_endian() {
    assert_eq!(read_le(&[0x01, 0x02, 0x03]), 0x030201);
    assert_eq!(read_le(&[]), 0);
    assert_eq!(read_le(&[0xFF; 8]), u64::MAX);
    assert_eq!(read_be(&[0x01, 0x02, 0x03]), 0x010203);
    assert_eq!(write_le(0x0403_0201, 4), vec![1, 2, 3, 4]);
    assert_eq!(write_le(0x0403_0201, 2), vec![1, 2]);
    assert_eq!(write_le(7, 0), Vec::<u8>::new());
    assert!(le_less(&[0xFF, 0x00], &[0x00, 0x01]));
    assert!(!le_less(&[0x00, 0x01], &[0xFF, 0x00]));
    assert!(!le_less(&[0x07, 0x01], &[0x07, 0x01]));
}

#[test]
fn extract_address_big_endian() {
    let mut buffer = BufferParser::new(vec![
        0x01, 0x02, 0x03, 0x04, 0x05, 0x06, 0x07, 0x08, 0x09, 0x10, 0x11, 0x12, 0x13, 0x14,
        0x15, 0x16, 0x17, 0x18,
    ]);
    assert_eq!(
        buffer.extract_address().unwrap(),
        NetAddress {
            ip: 0x0102_0304_0506_0708_0910_1112_1314_1516,
            port: 0x1718,
        }
    );
    let mut short = BufferParser::new(vec![0; 17]);
    assert!(short.extract_address().is_err());
    assert_eq!(short.len(), 0);
}

#[test]
fn extract_string_utf8() {
    let mut parser = BufferParser::new(vec![0x68, 0x6F, 0x6C, 0x61, 0xC3, 0xB1, 0xFF]);
    assert_eq!(parser.extract_string(6).unwrap(), "hola\u{f1}");
    assert!(matches!(
        parser.extract_string(1),
        Err(CustomError::SerializedBufferIsInvalid)
    ));
    assert_eq!(parser.len(), 0);
    let mut parser = BufferParser::new(vec![0x61]);
    assert!(parser.extract_string(2).is_err());
    assert_eq!(parser.len(), 1);
}

#[test]
fn outpoint_layout_and_short_buffer() {
    let outpoint = OutPoint {
        hash: vec![7; 32],
        index: 0x0102_0304,
    };
    let mut expected = vec![7; 32];
    expected.extend([4, 3, 2, 1]);
    assert_eq!(outpoint.serialize(), expected);
    assert!(matches!(
        OutPoint::parse(vec![0; 35]),
        Err(CustomError::SerializedBufferIsInvalid)
    ));
    let mut longer = expected.clone();
    longer.push(9);
    assert_eq!(OutPoint::parse(longer).unwrap(), outpoint);
}

#[test]
fn input_and_output_round_trip() {
    let input = TransactionInput {
        previous_output: OutPoint {
            hash: vec![9; 32],
            index: 3,
        },
        script_sig: vec![1, 2, 3, 4, 5],
        sequence: 0xFFFF_FFFE,
    };
    let mut bytes = input.serialize();
    assert_eq!(bytes.len(), 36 + 1 + 5 + 4);
    bytes.extend([0xAA, 0xBB]);
    let mut parser = BufferParser::new(bytes);
    assert_eq!(TransactionInput::parse(&mut parser).unwrap(), input);
    assert_eq!(parser.len(), 2);

    let output = TransactionOutput {
        value: u64::MAX,
        script_pubkey: vec![0x51; 300],
    };
    let bytes = output.serialize();
    assert_eq!(&bytes[..8], &[0xFF; 8]);
    assert_eq!(&bytes[8..11], &[0xFD, 0x2C, 0x01]);
    let mut parser = BufferParser::new(bytes);
    assert_eq!(TransactionOutput::parse(&mut parser).unwrap(), output);
    assert!(parser.is_empty());
}

#[test]
fn truncated_output_fails() {
    let output = TransactionOutput {
        value: 5,
        script_pubkey: vec![1, 2, 3],
    };
    let mut bytes = output.serialize();
    bytes.pop();
    let mut parser = BufferParser::new(bytes);
    assert!(matches!(
        TransactionOutput::parse(&mut parser),
        Err(CustomError::SerializedBufferIsInvalid)
    ));
    assert_eq!(parser.len(), 2);
}

#[test]
fn transaction_round_trip() {
    let transaction = Transaction {
        version: 2,
        inputs: vec![
            TransactionInput {
                previous_output: OutPoint {
                    hash: vec![1; 32],
                    index: 0,
                },
                script_sig: vec![],
                sequence: 0xFFFF_FFFF,
            },
            TransactionInput {
                previous_output: OutPoint {
                    hash: vec![2; 32],
                    index: 7,
                },
                script_sig: vec![0xAB; 260],
                sequence: 1,
            },
        ],
        outputs: vec![
            TransactionOutput {
                value: 40_000_000,
                script_pubkey: vec![0x76, 0xA9],
            },
            TransactionOutput {
                value: 0,
                script_pubkey: vec![],
            },
        ],
        lock_time: 0x0A0B_0C0D,
    };
    let bytes = transaction.serialize();
    assert_eq!(Transaction::parse(bytes.clone()).unwrap(), transaction);
    let mut parser = BufferParser::new(bytes.clone());
    assert_eq!(
        Transaction::parse_from_parser(&mut parser).unwrap(),
        transaction
    );
    assert!(parser.is_empty());
    for cut in 0..bytes.len() {
        assert!(matches!(
            Transaction::parse(bytes[..cut].to_vec()),
            Err(CustomError::SerializedBufferIsInvalid)
        ));
    }
}

#[test]
fn transaction_bytes_and_hash() {
    let transaction = Transaction {
        version: 1,
        inputs: vec![],
        outputs: vec![TransactionOutput {
            value: 50,
            script_pubkey: vec![1, 2, 3],
        }],
        lock_time: 0,
    };
    assert_eq!(
        transaction.serialize(),
        vec![1, 0, 0, 0, 0, 1, 50, 0, 0, 0, 0, 0, 0, 0, 3, 1, 2, 3, 0, 0, 0, 0]
    );
    assert_eq!(
        transaction.hash(),
        vec![
            0, 146, 180, 63, 123, 170, 229, 159, 79, 82, 219, 125, 201, 48, 188, 19, 67, 209,
            226, 54, 141, 254, 88, 234, 206, 224, 207, 95, 195, 193, 106, 97
        ]
    );
}

#[test]
fn unsigned_transaction_carries_the_sender_script() {
    let outpoints = vec![
        OutPoint {
            hash: vec![1; 32],
            index: 4,
        },
        OutPoint {
            hash: vec![2; 32],
            index: 0,
        },
    ];
    let outputs = vec![TransactionOutput {
        value: 12,
        script_pubkey: vec![0x51],
    }];
    let transaction = Transaction::unsigned(&vec![0xAA, 0xBB], &outpoints, outputs.clone());
    assert_eq!(transaction.version, 1);
    assert_eq!(transaction.lock_time, 0);
    assert_eq!(transaction.outputs, outputs);
    assert_eq!(transaction.inputs.len(), 2);
    for (input, outpoint) in transaction.inputs.iter().zip(&outpoints) {
        assert_eq!(input.previous_output, *outpoint);
        assert_eq!(input.script_sig, vec![0xAA, 0xBB]);
        assert_eq!(input.sequence, 0xFFFF_FFFF);
    }
}
