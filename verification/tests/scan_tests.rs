use bincode::config::standard;
use snap_coin::crypto::keys::Public;
use snap_coin_stats::frame::prefix_in_bounds;
use snap_coin_stats::ledger::{decode_value, parse_entry, scan_entries, RawEntry};

fn txid(n: u8) -> String {
    snap_coin::crypto::Hash::new_from_buf([n; 32]).dump_base36()
}

fn addr(n: u8) -> String {
    Public::new_from_buf(&[n; 32]).dump_base36()
}

fn encode(slots: &[Option<(u64, u8)>]) -> Vec<u8> {
    let outs: Vec<Option<snap_coin::core::transaction::TransactionOutput>> = slots
        .iter()
        .map(|s| s.map(|(amount, who)| snap_coin::core::transaction::TransactionOutput { amount, receiver: Public::new_from_buf(&[who; 32]) }))
        .collect();
    bincode::encode_to_vec(outs, standard()).unwrap()
}

fn raw(key: &str, slots: &[Option<(u64, u8)>]) -> RawEntry {
    RawEntry { key: key.as_bytes().to_vec(), value: encode(slots) }
}

#[test]
fn decode_value_reads_amounts_and_receivers() {
    let v = decode_value(&encode(&[Some((5, 1)), None, Some((7, 2))])).unwrap();
    assert_eq!(v.len(), 3);
    let a = v[0].as_ref().unwrap();
    assert_eq!(a.amount, 5);
    assert_eq!(a.receiver, addr(1));
    assert!(v[1].is_none());
    let c = v[2].as_ref().unwrap();
    assert_eq!(c.amount, 7);
    assert_eq!(c.receiver, addr(2));
}

#[test]
fn receiver_is_lower_case_base36_without_leading_zeros() {
    let mut key = [0u8; 32];
    let zero = decode_value(&bincode::encode_to_vec(
        vec![Some(snap_coin::core::transaction::TransactionOutput { amount: 1, receiver: Public::new_from_buf(&key) })],
        standard(),
    ).unwrap()).unwrap();
    assert_eq!(zero[0].as_ref().unwrap().receiver, "0");
    key[31] = 35;
    let z = decode_value(&bincode::encode_to_vec(
        vec![Some(snap_coin::core::transaction::TransactionOutput { amount: 1, receiver: Public::new_from_buf(&key) })],
        standard(),
    ).unwrap()).unwrap();
    assert_eq!(z[0].as_ref().unwrap().receiver, "z");
    key[31] = 36;
    let ten = decode_value(&bincode::encode_to_vec(
        vec![Some(snap_coin::core::transaction::TransactionOutput { amount: 1, receiver: Public::new_from_buf(&key) })],
        standard(),
    ).unwrap()).unwrap();
    assert_eq!(ten[0].as_ref().unwrap().receiver, "10");
}

#[test]
fn decode_value_refuses_garbage() {
    assert!(decode_value(&[]).is_none());
    assert!(decode_value(&[1, 7]).is_none());
    assert!(decode_value(&[255]).is_none());
}

#[test]
fn declared_length_beyond_the_bytes_is_refused() {
    assert!(!prefix_in_bounds(&[251, 0xff, 0xff]));
    assert!(decode_value(&[251, 0xff, 0xff]).is_none());
    assert!(!prefix_in_bounds(&[5, 0, 0]));
    assert!(prefix_in_bounds(&[2, 0, 0]));
    assert!(prefix_in_bounds(&[]));
    assert!(prefix_in_bounds(&[251, 1]));
    assert!(prefix_in_bounds(&[253, 3, 0, 0, 0, 0, 0, 0, 0]));
    assert!(!prefix_in_bounds(&[253, 0, 0, 0, 0, 0, 0, 0, 1]));
    assert!(!prefix_in_bounds(&[252, 10, 0, 0, 0, 0]));
}

#[test]
fn empty_list_decodes_to_no_slots() {
    let v = decode_value(&encode(&[])).unwrap();
    assert!(v.is_empty());
}

#[test]
fn parse_entry_keeps_the_key_text() {
    let t = txid(9);
    let e = parse_entry(&raw(&t, &[Some((3, 4))])).unwrap();
    assert_eq!(e.txid, t);
    assert_eq!(e.outputs.len(), 1);
    assert_eq!(e.outputs[0].as_ref().unwrap().receiver, addr(4));
}

#[test]
fn parse_entry_accepts_upper_case_plus_and_separators() {
    assert!(parse_entry(&raw("ABC", &[None])).is_some());
    assert!(parse_entry(&raw("+abc", &[None])).is_some());
    assert!(parse_entry(&raw("a_b", &[None])).is_some());
    assert!(parse_entry(&raw("0", &[None])).is_some());
}

#[test]
fn parse_entry_refuses_keys_that_are_not_txids() {
    assert!(parse_entry(&raw("", &[None])).is_none());
    assert!(parse_entry(&raw("+", &[None])).is_none());
    assert!(parse_entry(&raw("++1", &[None])).is_none());
    assert!(parse_entry(&raw("_1", &[None])).is_none());
    assert!(parse_entry(&raw("a-b", &[None])).is_none());
    assert!(parse_entry(&raw("é", &[None])).is_none());
    // 2^256 does not fit in 32 bytes; 2^256 - 1 does
    let too_big = "1".to_string() + &"0".repeat(0);
    let _ = too_big;
    let max = snap_coin::crypto::Hash::new_from_buf([0xff; 32]).dump_base36();
    assert!(parse_entry(&raw(&max, &[None])).is_some());
    let bigger = max.clone() + "0";
    assert!(parse_entry(&raw(&bigger, &[None])).is_none());
    let bad_utf8 = RawEntry { key: vec![0xff, 0xfe], value: encode(&[None]) };
    assert!(parse_entry(&bad_utf8).is_none());
}

#[test]
fn parse_entry_refuses_values_that_do_not_decode() {
    let e = RawEntry { key: txid(1).into_bytes(), value: vec![3, 1] };
    assert!(parse_entry(&e).is_none());
}

#[test]
fn scan_entries_keeps_well_formed_pairs_in_order() {
    let raws = vec![
        raw(&txid(1), &[Some((1, 1))]),
        raw("not a txid", &[Some((2, 2))]),
        RawEntry { key: txid(3).into_bytes(), value: vec![9] },
        raw(&txid(4), &[None, Some((4, 4))]),
    ];
    let es = scan_entries(&raws);
    assert_eq!(es.len(), 2);
    assert_eq!(es[0].txid, txid(1));
    assert_eq!(es[1].txid, txid(4));
    assert_eq!(es[1].outputs.len(), 2);
}
