use bitcoin_node::parser::BufferParser;
use bitcoin_node::structs::outpoint::OutPoint;
use bitcoin_node::structs::tx_output::TransactionOutput;

#[test]
fn outpoint_serialize_and_parse() {
    let outpoint = OutPoint {
        hash: vec![
            1, 2, 3, 4, 5, 6, 7, 8, 9, 10, 1, 2, 3, 4, 5, 6, 7, 8, 9, 10, 1, 2, 3, 4, 5, 6, 7,
            8, 9, 10, 1, 2,
        ],
        index: 0,
    };
    let serialized = outpoint.serialize();
    let parsed_outpoint = OutPoint::parse(serialized).unwrap();
    println!("{:?}", parsed_outpoint);
    assert_eq!(outpoint, parsed_outpoint);
}

#[test]
fn tx_output_serialize_and_parse() {
    let output = TransactionOutput {
        value: 100,
        script_pubkey: vec![4, 5, 6],
    };
    let serialized = output.serialize();
    let mut parser = BufferParser::new(serialized);
    let parsed_output = TransactionOutput::parse(&mut parser).unwrap();
    assert_eq!(output, parsed_output);
}
