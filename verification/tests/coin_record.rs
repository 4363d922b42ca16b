use sui_gas_pool::coin_record::{format_coin_record, parse_coin_record, split_fields, CoinRecord};

#[test]
fn coin_record_round_trip() {
    let id = b"0x00000000000000000000000000000000000000000000000000000000000000ab";
    let digest = b"4vJ9JU1bJJE96FWSJKvHsmmFADCg4gpZQff4P3bkLKi";
    let rec = format_coin_record(1234567, id, 42, digest);
    let expected = format!(
        "1234567,{},42,{}",
        std::str::from_utf8(id).unwrap(),
        std::str::from_utf8(digest).unwrap()
    );
    assert_eq!(rec, expected.as_bytes().to_vec());
    assert_eq!(
        parse_coin_record(&rec),
        Some(CoinRecord { balance: 1234567, object_id: id.to_vec(), version: 42, digest: digest.to_vec() })
    );
}

#[test]
fn coin_record_extremes() {
    let rec = format_coin_record(u64::MAX, b"a", 0, b"d");
    assert_eq!(rec, b"18446744073709551615,a,0,d".to_vec());
    assert_eq!(parse_coin_record(&rec).unwrap().balance, u64::MAX);
}

#[test]
fn coin_record_parse_rules() {
    // A leading plus sign is accepted, as by `u64::from_str`.
    assert_eq!(parse_coin_record(b"+5,a,+6,d").unwrap().version, 6);
    // Extra fields are ignored.
    assert_eq!(parse_coin_record(b"5,a,6,d,e").unwrap().digest, b"d".to_vec());
    // Missing fields, bad numbers and overflow read nothing.
    assert_eq!(parse_coin_record(b"5,a,6"), None);
    assert_eq!(parse_coin_record(b"x,a,6,d"), None);
    assert_eq!(parse_coin_record(b"-5,a,6,d"), None);
    assert_eq!(parse_coin_record(b",a,6,d"), None);
    assert_eq!(parse_coin_record(b"18446744073709551616,a,6,d"), None);
    // An empty last field is a field.
    assert_eq!(parse_coin_record(b"1,a,2,").unwrap().digest, Vec::<u8>::new());
}

#[test]
fn expired_ids_split_on_commas() {
    assert_eq!(split_fields(b"0xa,0xb,0xc"), vec![b"0xa".to_vec(), b"0xb".to_vec(), b"0xc".to_vec()]);
    assert_eq!(split_fields(b""), vec![Vec::<u8>::new()]);
    assert_eq!(split_fields(b"x,"), vec![b"x".to_vec(), Vec::<u8>::new()]);
}
