use bee_tangle::utxo::{Error, OutputId, TransactionId, UtxoInput, INPUT_OUTPUT_INDEX_MAX};

#[test]
fn utxo_input_accepts_indices_up_to_the_bound() {
    let id = TransactionId::new([7u8; 32]);
    let input = UtxoInput::new(id, 0).unwrap();
    assert_eq!(input.output_id().index(), 0);
    assert_eq!(input.output_id().transaction_id().as_bytes(), &[7u8; 32]);
    let input = UtxoInput::new(id, INPUT_OUTPUT_INDEX_MAX).unwrap();
    assert_eq!(input.output_id().index(), 126);
}

#[test]
fn utxo_input_rejects_an_index_beyond_the_bound() {
    let id = TransactionId::new([0u8; 32]);
    match UtxoInput::new(id, 127) {
        Err(Error::InvalidInputOutputIndex(i)) => assert_eq!(i, 127),
        _ => panic!("an out-of-range index must be rejected"),
    }
    match OutputId::new(id, 60000) {
        Err(Error::InvalidInputOutputIndex(i)) => assert_eq!(i, 60000),
        _ => panic!("an out-of-range index must be rejected"),
    }
}

#[test]
fn utxo_input_from_output_id() {
    let id = TransactionId::new([1u8; 32]);
    let output = OutputId::new(id, 5).unwrap();
    let input = UtxoInput::from(output);
    assert_eq!(input.output_id().index(), 5);
    assert_eq!(UtxoInput::KIND, 0);
}
