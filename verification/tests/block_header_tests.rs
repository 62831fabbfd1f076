use bitcoin_node::structs::block_header::BlockHeader;

#[test]
fn blockheader_serialize_and_parse() {
    let buffer = vec![
        1, 0, 0, 0, 5, 159, 141, 74, 195, 4, 19, 253, 127, 1, 148, 149, 222, 143, 237, 24, 27,
        124, 186, 34, 123, 241, 216, 166, 203, 239, 86, 108, 0, 0, 0, 0, 233, 233, 109, 115,
        249, 241, 6, 200, 176, 73, 10, 24, 28, 209, 102, 159, 255, 179, 239, 72, 185, 225, 10,
        14, 219, 74, 174, 208, 207, 59, 18, 12, 170, 7, 195, 79, 255, 255, 0, 29, 14, 171, 58,
        61,
    ];

    let buffer_clone = buffer.clone();

    let block_header = BlockHeader::parse(buffer).unwrap();
    let serialized_block_header = block_header.serialize();

    assert_eq!(buffer_clone, serialized_block_header);
}

#[test]
fn blockheader_too_short_buffer() {
    let buffer = vec![1, 0];

    let block_header = BlockHeader::parse(buffer);

    assert!(block_header.is_err());
}

#[test]
fn blockheader_invalid_buffer() {
    let buffer = vec![
        1, 0, 0, 0, 5, 159, 141, 74, 195, 4, 19, 253, 127, 1, 148, 149, 222, 143, 237, 24, 27,
        124, 186, 34, 123, 241, 216, 166, 203, 239, 86, 108, 0, 0, 0, 0, 233, 233, 109, 115,
        249, 241, 6, 200, 176, 73, 10, 24, 28, 209, 102, 159, 255, 179, 239, 72, 185, 225, 10,
        14, 219,
    ];

    let block_header = BlockHeader::parse(buffer);

    assert!(block_header.is_err());
}

#[test]
fn valid_pow_header() {
    let valid_header = BlockHeader {
        version: 2,
        prev_block_hash: vec![
            61, 8, 52, 163, 234, 98, 255, 92, 186, 170, 164, 90, 56, 131, 46, 171, 52, 239,
            104, 223, 166, 65, 183, 217, 36, 6, 53, 63, 0, 0, 0, 0,
        ],
        merkle_root: vec![
            45, 107, 6, 225, 181, 124, 4, 88, 86, 174, 58, 59, 113, 215, 174, 42, 209, 149,
            142, 110, 166, 53, 244, 88, 6, 76, 228, 77, 7, 10, 189, 126,
        ],
        timestamp: 1347149007,
        bits: 476726600,
        nonce: 240236131,
        hash: vec![
            10, 110, 89, 244, 38, 172, 240, 48, 75, 251, 139, 33, 16, 164, 179, 154, 22, 123,
            120, 81, 209, 213, 111, 183, 7, 9, 162, 49, 0, 0, 0, 0,
        ],
        block_downloaded: false,
        broadcasted: false,
    };

    valid_header.serialize();
    assert!(valid_header.validate());
}

#[test]
fn invalid_pow_header() {
    let valid_header = BlockHeader {
        version: 2,
        prev_block_hash: vec![
            61, 8, 52, 163, 234, 98, 255, 92, 186, 170, 164, 90, 56, 131, 46, 171, 52, 239,
            104, 223, 166, 65, 183, 217, 36, 6, 53, 63, 0, 0, 0, 0,
        ],
        merkle_root: vec![
            45, 107, 6, 225, 181, 124, 4, 88, 86, 174, 58, 59, 113, 215, 174, 42, 209, 149,
            142, 110, 166, 53, 244, 88, 6, 76, 228, 77, 7, 10, 189, 126,
        ],
        timestamp: 1347149007,
        bits: 476726600,
        nonce: 123123,
        hash: vec![
            116, 18, 66, 212, 76, 145, 158, 131, 46, 212, 244, 136, 96, 84, 11, 220, 121, 121,
            78, 50, 3, 197, 235, 49, 172, 32, 11, 104, 118, 114, 161, 104,
        ],
        block_downloaded: false,
        broadcasted: false,
    };

    assert!(!valid_header.validate());
}
