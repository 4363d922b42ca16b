use sui_gas_pool::base_types::SuiAddress;
use sui_gas_pool::tx_signer::{SignerError, TxSigner};

fn addr(n: u128) -> SuiAddress {
    SuiAddress { hi: 9, lo: n }
}

#[test]
fn test_multi_tx_signer() {
    let signer = TxSigner::new(vec![addr(1), addr(2), addr(3)]);
    for (i, a) in [addr(1), addr(2), addr(3)].iter().enumerate() {
        assert_eq!(signer.signer_index(*a), Ok(i));
    }
    assert_eq!(signer.signer_index(addr(4)), Err(SignerError::NoSignerFound(addr(4))));
}

#[test]
fn signer_addresses_round_robin() {
    let mut signer = TxSigner::new(vec![addr(1), addr(2), addr(3)]);
    let got: Vec<SuiAddress> = (0..7).map(|_| signer.get_one_address()).collect();
    assert_eq!(got, vec![addr(1), addr(2), addr(3), addr(1), addr(2), addr(3), addr(1)]);
    assert_eq!(signer.get_all_addresses(), vec![addr(1), addr(2), addr(3)]);
    assert!(signer.is_valid_address(&addr(2)));
    assert!(!signer.is_valid_address(&addr(5)));
}

#[test]
fn later_signer_with_same_address_wins() {
    let signer = TxSigner::new(vec![addr(1), addr(2), addr(1)]);
    assert_eq!(signer.signer_index(addr(1)), Ok(2));
}
