use bitcoin_node::error::CustomError;
use bitcoin_node::structs::block_header::{hash_as_string, BlockHeader};

fn header_with(bits: u32, hash: Vec<u8>) -> BlockHeader {
    BlockHeader {
        version: 1,
        prev_block_hash: vec![0; 32],
        merkle_root: vec![0; 32],
        timestamp: 0,
        bits,
        nonce: 0,
        hash,
        broadcasted: false,
        block_downloaded: false,
    }
}

fn number_as_hash(low_bytes: &[u8]) -> Vec<u8> {
    let mut hash = low_bytes.to_vec();
    hash.resize(32, 0);
    hash
}

#[test]
fn header_with_known_proof_of_work_validates() {
    let header = BlockHeader {
        version: 2,
        prev_block_hash: vec![
            61, 8, 52, 163, 234, 98, 255, 92, 186, 170, 164, 90, 56, 131, 46, 171, 52, 239, 104,
            223, 166, 65, 183, 217, 36, 6, 53, 63, 0, 0, 0, 0,
        ],
        merkle_root: vec![
            45, 107, 6, 225, 181, 124, 4, 88, 86, 174, 58, 59, 113, 215, 174, 42, 209, 149, 142,
            110, 166, 53, 244, 88, 6, 76, 228, 77, 7, 10, 189, 126,
        ],
        timestamp: 1347149007,
        bits: 0x1C654657,
        nonce: 240236131,
        hash: vec![
            10, 110, 89, 244, 38, 172, 240, 48, 75, 251, 139, 33, 16, 164, 179, 154, 22, 123,
            120, 81, 209, 213, 111, 183, 7, 9, 162, 49, 0, 0, 0, 0,
        ],
        block_downloaded: false,
        broadcasted: false,
    };
    assert!(header.validate());
    assert!(matches!(
        BlockHeader::parse(header.serialize()),
        Err(CustomError::HeaderInvalidPoW)
    ));

    let mut mined = header.clone();
    mined.bits = 0x1C6A4548;
    assert!(mined.validate());
    let parsed = BlockHeader::parse(mined.serialize()).unwrap();
    assert_eq!(parsed.hash, mined.hash);
    assert_eq!(parsed.nonce, 240236131);
    assert_eq!(parsed.bits, 0x1C6A4548);
    assert_eq!(parsed.version, 2);
    assert_eq!(parsed.timestamp, 1347149007);
    assert_eq!(parsed.prev_block_hash, mined.prev_block_hash);
    assert_eq!(parsed.merkle_root, mined.merkle_root);
    assert!(!parsed.broadcasted);
    assert!(!parsed.block_downloaded);

    let mut altered = mined.serialize();
    altered[79] ^= 0x01;
    assert!(matches!(
        BlockHeader::parse(altered),
        Err(CustomError::HeaderInvalidPoW)
    ));
}

#[test]
fn hash_at_the_target_is_rejected() {
    // target = 0x654657 * 256^(0x1C - 3): the bytes 57 46 65 at places 25, 26, 27
    let mut at_target = vec![0u8; 32];
    at_target[25] = 0x57;
    at_target[26] = 0x46;
    at_target[27] = 0x65;
    assert!(!header_with(0x1C654657, at_target.clone()).validate());

    let mut below = at_target.clone();
    below[25] = 0x56;
    below[0] = 0xFF;
    below[24] = 0xFF;
    assert!(header_with(0x1C654657, below).validate());

    let mut above = at_target.clone();
    above[0] = 0x01;
    assert!(!header_with(0x1C654657, above).validate());

    let mut high_byte = vec![0u8; 32];
    high_byte[28] = 0x01;
    assert!(!header_with(0x1C654657, high_byte).validate());
}

#[test]
fn targets_with_small_and_large_exponents() {
    // exponent 3: the target is the significand itself
    assert!(header_with(0x0300_0005, number_as_hash(&[4])).validate());
    assert!(!header_with(0x0300_0005, number_as_hash(&[5])).validate());
    // exponent 2: the target is the significand over 256
    assert!(header_with(0x0200_0500, number_as_hash(&[4])).validate());
    assert!(!header_with(0x0200_0500, number_as_hash(&[5])).validate());
    assert!(header_with(0x0200_04FF, number_as_hash(&[4])).validate());
    assert!(!header_with(0x0200_04FF, number_as_hash(&[5])).validate());
    assert!(!header_with(0x0200_0400, number_as_hash(&[4])).validate());
    // exponent 0: the target is the significand over 256^3
    assert!(header_with(0x0001_0000, number_as_hash(&[])).validate());
    assert!(!header_with(0x0001_0000, number_as_hash(&[1])).validate());
    // a significand of zero admits no hash
    assert!(!header_with(0x1D00_0000, number_as_hash(&[])).validate());
    // exponent 32: the three bytes of the significand stand at the top
    let mut top = vec![0xFFu8; 32];
    top[31] = 0x7E;
    assert!(header_with(0x207F_FFFF, top.clone()).validate());
    top[31] = 0x7F;
    top[30] = 0xFF;
    top[29] = 0xFF;
    assert!(!header_with(0x207F_FFFF, top).validate());
    // exponent 255: every hash is below the target
    assert!(header_with(0xFF00_0001, vec![0xFF; 32]).validate());
    // a hash that has not 32 bytes is no hash
    assert!(!header_with(0xFF00_0001, vec![0; 31]).validate());
    assert!(!header_with(0xFF00_0001, vec![0; 33]).validate());
}

#[test]
fn header_errors() {
    assert!(matches!(
        BlockHeader::parse(vec![0; 79]),
        Err(CustomError::SerializedBufferIsInvalid)
    ));
    assert!(matches!(
        BlockHeader::parse(vec![0; 80]),
        Err(CustomError::HeaderInvalidPoW)
    ));
    assert!(matches!(
        BlockHeader::parse_from_backup(vec![0; 111]),
        Err(CustomError::SerializedBufferIsInvalid)
    ));
    let mut stored = vec![0u8; 112];
    stored[72..76].copy_from_slice(&0x1D00_FFFFu32.to_le_bytes());
    stored[80] = 0x01;
    let header = BlockHeader::parse_from_backup(stored.clone()).unwrap();
    assert!(header.broadcasted);
    assert!(header.block_downloaded);
    assert_eq!(header.bits, 0x1D00_FFFF);
    assert_eq!(header.hash, stored[80..112].to_vec());
    assert_eq!(header.serialize_for_backup(), stored);
    stored[111] = 0x01;
    assert!(matches!(
        BlockHeader::parse_from_backup(stored),
        Err(CustomError::HeaderInvalidPoW)
    ));
}

#[test]
fn negative_version_is_written_in_twos_complement() {
    let mut header = header_with(0x207F_FFFF, vec![0; 32]);
    header.version = -2;
    let bytes = header.serialize();
    assert_eq!(bytes.len(), 80);
    assert_eq!(&bytes[..4], &[0xFE, 0xFF, 0xFF, 0xFF]);
    let read = BlockHeader::parse_with_hash(&bytes, vec![0; 32], false).unwrap();
    assert_eq!(read.version, -2);
}

#[test]
fn hash_in_upper_case_hexadecimal() {
    assert_eq!(hash_as_string(vec![]), "");
    assert_eq!(hash_as_string(vec![0x00, 0x0A, 0xFF, 0x9B]), "000AFF9B");
    let header = header_with(1, vec![0xDE, 0xAD, 0xBE, 0xEF]);
    assert_eq!(header.hash_as_string(), "DEADBEEF");
    assert_eq!(header.hash(), &vec![0xDE, 0xAD, 0xBE, 0xEF]);
}
