use bincode::config::standard;
use snap_coin::crypto::keys::Public;
use snap_coin_stats::api::{default_limit, GlobalsQuery, HistoryPoint, HistoryResponse, TopQuery, VisitsResponse};
use snap_coin_stats::error::StatsError;
use snap_coin_stats::history::{History, HISTORY_MAX};
use snap_coin_stats::intelligence::{largest_output, tally_accounts, wallet_intelligence, wallet_intelligence_of};
use snap_coin_stats::ledger::{OutputRecord, RawEntry, TxEntry};
use snap_coin_stats::metrics::{full_scan, global_metrics, global_metrics_of, snapshot_of, SnapshotRecord};
use snap_coin_stats::top::{top_receivers, top_receivers_of};

fn txid(n: u8) -> String {
    snap_coin::crypto::Hash::new_from_buf([n; 32]).dump_base36()
}

fn addr(n: u8) -> String {
    Public::new_from_buf(&[n; 32]).dump_base36()
}

fn raw(key: &str, slots: &[Option<(u64, u8)>]) -> RawEntry {
    let outs: Vec<Option<snap_coin::core::transaction::TransactionOutput>> = slots
        .iter()
        .map(|s| {
            s.map(|(amount, who)| snap_coin::core::transaction::TransactionOutput {
                amount,
                receiver: Public::new_from_buf(&[who; 32]),
            })
        })
        .collect();
    RawEntry { key: key.as_bytes().to_vec(), value: bincode::encode_to_vec(outs, standard()).unwrap() }
}

fn entry(id: &str, slots: &[Option<(u64, &str)>]) -> TxEntry {
    TxEntry {
        txid: id.to_string(),
        outputs: slots
            .iter()
            .map(|s| s.map(|(amount, r)| OutputRecord { amount, receiver: r.to_string() }))
            .collect(),
    }
}

fn balance(rows: &[(String, u64)], who: &str) -> Option<u64> {
    rows.iter().find(|(k, _)| k == who).map(|(_, v)| *v)
}

fn store() -> Vec<RawEntry> {
    vec![
        raw(&txid(1), &[Some((10, 1)), None, Some((5, 2))]),
        raw(&txid(2), &[Some((7, 1)), Some((1, 3))]),
        raw("no-id", &[Some((1000, 9))]),
        raw(&txid(3), &[None, None]),
    ]
}

#[test]
fn global_metrics_counts_the_store() {
    let m = global_metrics(&store()).unwrap();
    assert_eq!(m.tx_entries_scanned, 3);
    assert_eq!(m.outputs_total, 7);
    assert_eq!(m.outputs_unspent, 4);
    assert_eq!(m.outputs_spent, 3);
    assert_eq!(m.wallets_with_unspent, 3);
    assert_eq!(m.utxo_total_unspent_atomic, 23);
}

#[test]
fn global_metrics_of_an_empty_store_is_zero() {
    let m = global_metrics(&[]).unwrap();
    assert_eq!(m.tx_entries_scanned, 0);
    assert_eq!(m.outputs_total, 0);
    assert_eq!(m.wallets_with_unspent, 0);
    assert_eq!(m.utxo_total_unspent_atomic, 0);
}

#[test]
fn unspent_total_saturates() {
    let es = vec![
        entry("a", &[Some((u64::MAX - 1, "x")), Some((5, "y"))]),
        entry("b", &[Some((u64::MAX, "x"))]),
    ];
    let m = global_metrics_of(&es);
    assert_eq!(m.utxo_total_unspent_atomic, u64::MAX);
    let s = snapshot_of(&es, 1);
    assert_eq!(s.circulation, u64::MAX);
    assert_eq!(balance(&s.balances, "x"), Some(u64::MAX));
    assert_eq!(balance(&s.balances, "y"), Some(5));
}

#[test]
fn law_total_is_unspent_plus_spent() {
    let m = global_metrics(&store()).unwrap();
    assert_eq!(m.outputs_total, m.outputs_unspent + m.outputs_spent);
    assert!(m.wallets_with_unspent <= m.outputs_unspent);
}

#[test]
fn full_scan_gives_balances_and_counts() {
    let s = full_scan(&store(), 1234).unwrap();
    assert_eq!(s.timestamp, 1234);
    assert_eq!(s.tx_count, 3);
    assert_eq!(s.outputs_total, 7);
    assert_eq!(s.outputs_unspent, 4);
    assert_eq!(s.circulation, 23);
    assert_eq!(s.wallets, 3);
    assert_eq!(s.balances.len(), 3);
    assert_eq!(balance(&s.balances, &addr(1)), Some(17));
    assert_eq!(balance(&s.balances, &addr(2)), Some(5));
    assert_eq!(balance(&s.balances, &addr(3)), Some(1));
    assert_eq!(balance(&s.balances, &addr(9)), None);
    // first appearance order
    assert_eq!(s.balances[0].0, addr(1));
    assert_eq!(s.balances[1].0, addr(2));
    assert_eq!(s.balances[2].0, addr(3));
}

#[test]
fn law_snapshot_matches_metrics_on_a_store() {
    let m = global_metrics(&store()).unwrap();
    let s = full_scan(&store(), 0).unwrap();
    assert_eq!(m.tx_entries_scanned, s.tx_count);
    assert_eq!(m.outputs_total, s.outputs_total);
    assert_eq!(m.outputs_unspent, s.outputs_unspent);
    assert_eq!(m.wallets_with_unspent, s.wallets);
    assert_eq!(m.utxo_total_unspent_atomic, s.circulation);
}

#[test]
fn law_balances_add_up_to_circulation() {
    let s = full_scan(&store(), 0).unwrap();
    let sum: u64 = s.balances.iter().map(|(_, v)| *v).sum();
    assert_eq!(sum, s.circulation);
}

#[test]
fn wallet_intelligence_on_a_store() {
    let w = wallet_intelligence(&store()).unwrap();
    assert_eq!(w.most_active_address, addr(1));
    assert_eq!(w.most_active_tx_count, 2);
    assert_eq!(w.most_fragmented_address, addr(1));
    assert_eq!(w.most_fragmented_unspent, 2);
    // addr(1) got 10 in its first entry and 7 later: growth 7; others 0
    assert_eq!(w.fastest_growing_address, addr(1));
    assert_eq!(w.fastest_growing_delta, 7);
    assert_eq!(w.highest_spend_rate_spent, 0);
    assert_eq!(w.largest_output_amount, 10);
    assert_eq!(w.largest_output_txid, txid(1));
    assert_eq!(w.largest_output_receiver, addr(1));
}

#[test]
fn wallet_intelligence_without_unspent_outputs_is_no_data() {
    let raws = vec![raw(&txid(1), &[None]), raw("no-id", &[Some((1, 1))])];
    assert_eq!(wallet_intelligence(&raws).err(), Some(StatsError::NoData));
    assert_eq!(wallet_intelligence(&[]).err(), Some(StatsError::NoData));
}

#[test]
fn baseline_counts_every_output_of_the_first_entry() {
    let es = vec![
        entry("t1", &[Some((3, "a")), Some((4, "a")), Some((1, "b"))]),
        entry("t2", &[Some((2, "a")), Some((50, "b"))]),
    ];
    let w = wallet_intelligence_of(&es).unwrap();
    // a: baseline 7, total 9 -> 2; b: baseline 1, total 51 -> 50
    assert_eq!(w.fastest_growing_address, "b");
    assert_eq!(w.fastest_growing_delta, 50);
    assert_eq!(w.most_active_address, "a");
    assert_eq!(w.most_active_tx_count, 3);
    assert_eq!(w.highest_spend_rate_total, if w.highest_spend_rate_address == "a" { 3 } else { 2 });
    assert_eq!(w.largest_output_amount, 50);
    assert_eq!(w.largest_output_txid, "t2");
    assert_eq!(w.largest_output_receiver, "b");
}

#[test]
fn largest_output_takes_the_first_of_equal_amounts() {
    let es = vec![
        entry("t1", &[Some((5, "a")), Some((9, "b"))]),
        entry("t2", &[Some((9, "c"))]),
    ];
    let (amount, id, who) = largest_output(&es);
    assert_eq!(amount, 9);
    assert_eq!(id, "t1");
    assert_eq!(who, "b");
}

#[test]
fn largest_output_of_zero_amounts_is_empty() {
    let es = vec![entry("t1", &[Some((0, "a"))])];
    let (amount, id, who) = largest_output(&es);
    assert_eq!(amount, 0);
    assert_eq!(id, "");
    assert_eq!(who, "");
    let w = wallet_intelligence_of(&es).unwrap();
    assert_eq!(w.largest_output_amount, 0);
    assert_eq!(w.largest_output_txid, "");
}

#[test]
fn growth_that_leaves_i64_is_refused() {
    let half = 1u64 << 62;
    let raws = vec![raw(&txid(1), &[Some((half, 1))]), raw(&txid(2), &[Some((half, 1))])];
    assert_eq!(wallet_intelligence(&raws).err(), Some(StatsError::GrowthOverflow));
}

#[test]
fn growth_reads_totals_as_i64() {
    // the total wraps below zero but the difference fits
    let big = 1u64 << 63;
    let es = vec![entry("t1", &[Some((big, "a"))]), entry("t2", &[Some((5, "a"))])];
    let w = wallet_intelligence_of(&es).unwrap();
    assert_eq!(w.fastest_growing_delta, 5);
}

#[test]
fn law_growth_nonnegative_on_values() {
    let es = vec![
        entry("t1", &[Some((3, "a")), Some((8, "b"))]),
        entry("t2", &[Some((0, "a"))]),
        entry("t3", &[Some((1, "b"))]),
    ];
    let w = wallet_intelligence_of(&es).unwrap();
    assert!(w.fastest_growing_delta >= 0);
    assert_eq!(w.fastest_growing_address, "b");
    assert_eq!(w.fastest_growing_delta, 1);
}

#[test]
fn top_receivers_sorted_and_limited() {
    let rows = top_receivers(&store(), default_limit());
    assert_eq!(rows.len(), 4);
    assert_eq!(rows[0].receiver_base36, addr(9));
    assert_eq!(rows[0].total_unspent, 1000);
    assert_eq!(rows[1].receiver_base36, addr(1));
    assert_eq!(rows[1].total_unspent, 17);
    assert_eq!(rows[2].total_unspent, 5);
    assert_eq!(rows[3].total_unspent, 1);
    let two = top_receivers(&store(), 2);
    assert_eq!(two.len(), 2);
    assert_eq!(two[1].receiver_base36, addr(1));
    assert!(top_receivers(&store(), 0).is_empty());
}

#[test]
fn top_receivers_of_lists_keep_ties_and_sum() {
    let lists = vec![
        vec![Some(OutputRecord { amount: 4, receiver: "a".to_string() }), None],
        vec![Some(OutputRecord { amount: 4, receiver: "b".to_string() })],
        vec![Some(OutputRecord { amount: 1, receiver: "a".to_string() })],
    ];
    let rows = top_receivers_of(&lists, 10);
    assert_eq!(rows.len(), 2);
    assert_eq!(rows[0].receiver_base36, "a");
    assert_eq!(rows[0].total_unspent, 5);
    assert_eq!(rows[1].receiver_base36, "b");
    assert_eq!(rows[1].total_unspent, 4);
}

#[test]
fn law_top_lists_every_snapshot_balance() {
    let raws: Vec<RawEntry> = store().into_iter().filter(|r| r.key != b"no-id".to_vec()).collect();
    let s = full_scan(&raws, 0).unwrap();
    let rows = top_receivers(&raws, usize::MAX);
    assert_eq!(rows.len(), s.balances.len());
    for (k, v) in &s.balances {
        assert!(rows.iter().any(|r| &r.receiver_base36 == k && r.total_unspent == *v));
    }
}

fn record(t: u64) -> SnapshotRecord {
    SnapshotRecord {
        timestamp: t,
        circulation: t * 2,
        wallets: 1,
        tx_count: 3,
        outputs_total: 4,
        outputs_unspent: 2,
        balances: vec![("a".to_string(), t)],
    }
}

#[test]
fn history_keeps_the_latest_records() {
    let mut h = History::new();
    assert_eq!(h.len(), 0);
    for t in 0..(HISTORY_MAX as u64 + 5) {
        h.push_record(record(t));
        assert!(h.len() <= HISTORY_MAX);
    }
    assert_eq!(h.len(), HISTORY_MAX);
    assert_eq!(h.get(0).timestamp, 5);
    assert_eq!(h.get(HISTORY_MAX - 1).timestamp, HISTORY_MAX as u64 + 4);
}

#[test]
fn history_below_the_cap_appends() {
    let mut h = History::new();
    h.push_record(record(1));
    h.push_record(record(2));
    assert_eq!(h.len(), 2);
    assert_eq!(h.get(0).timestamp, 1);
    assert_eq!(h.get(1).timestamp, 2);
}

#[test]
fn history_response_copies_each_record() {
    let mut h = History::new();
    h.push_record(record(7));
    h.push_record(record(8));
    let r = HistoryResponse::from_history(&h);
    assert_eq!(r.records.len(), 2);
    assert_eq!(r.records[0].timestamp, 7);
    assert_eq!(r.records[0].circulation, 14);
    assert_eq!(r.records[1].balances, vec![("a".to_string(), 8)]);
    let p = HistoryPoint::from_record(&record(3));
    assert_eq!(p.outputs_total, 4);
    assert_eq!(p.outputs_unspent, 2);
    assert_eq!(p.tx_count, 3);
    assert_eq!(p.wallets, 1);
}

#[test]
fn queries_and_visits() {
    assert!(GlobalsQuery { init: 1 }.counts_visit());
    assert!(!GlobalsQuery { init: 0 }.counts_visit());
    assert!(!GlobalsQuery { init: 2 }.counts_visit());
    assert_eq!(default_limit(), usize::MAX);
    let q = TopQuery { limit: 3 };
    assert_eq!(q.limit, 3);
    let v = VisitsResponse { page_loads: 9 };
    assert_eq!(v.page_loads, 9);
}

#[test]
fn tally_accounts_per_address() {
    let es = vec![
        entry("t1", &[Some((3, "a")), None, Some((4, "a"))]),
        entry("t2", &[Some((2, "b")), Some((6, "a"))]),
    ];
    let t = tally_accounts(&es);
    assert_eq!(t.len(), 2);
    assert_eq!(t[0].0, "a");
    assert_eq!(t[0].1.tx_count, 3);
    assert_eq!(t[0].1.unspent_count, 3);
    assert_eq!(t[0].1.spent_count, 0);
    assert_eq!(t[0].1.total_unspent_atomic, 13);
    assert_eq!(t[0].1.baseline_unspent_atomic, 7);
    assert!(t[0].1.baseline_set);
    assert_eq!(t[1].0, "b");
    assert_eq!(t[1].1.total_unspent_atomic, 2);
    assert_eq!(t[1].1.baseline_unspent_atomic, 2);
}

#[test]
fn find_key_returns_first_position() {
    let t = vec![("a".to_string(), 1u64), ("b".to_string(), 2u64)];
    assert_eq!(snap_coin_stats::tally::find_key(&t, &"b".to_string()), Some(1));
    assert_eq!(snap_coin_stats::tally::find_key(&t, &"c".to_string()), None);
}

#[test]
fn law_metrics_of_merged_store_on_values() {
    let a = vec![raw(&txid(1), &[Some((10, 1)), None]), raw(&txid(3), &[Some((2, 2))])];
    let b = vec![raw(&txid(2), &[Some((7, 1)), Some((1, 4))]), raw(&txid(4), &[None])];
    let merged = vec![a[0].clone_raw(), b[0].clone_raw(), a[1].clone_raw(), b[1].clone_raw()];
    let g1 = global_metrics(&a).unwrap();
    let g2 = global_metrics(&b).unwrap();
    let g = global_metrics(&merged).unwrap();
    assert_eq!(g.tx_entries_scanned, g1.tx_entries_scanned + g2.tx_entries_scanned);
    assert_eq!(g.outputs_total, g1.outputs_total + g2.outputs_total);
    assert_eq!(g.outputs_unspent, g1.outputs_unspent + g2.outputs_unspent);
    assert_eq!(g.outputs_spent, g1.outputs_spent + g2.outputs_spent);
    assert_eq!(g.utxo_total_unspent_atomic, g1.utxo_total_unspent_atomic + g2.utxo_total_unspent_atomic);
    assert_eq!(g.wallets_with_unspent, 3);
    assert!(g.wallets_with_unspent <= g1.wallets_with_unspent + g2.wallets_with_unspent);
    assert!(g.wallets_with_unspent >= g1.wallets_with_unspent.max(g2.wallets_with_unspent));
}

trait CloneRaw {
    fn clone_raw(&self) -> RawEntry;
}

impl CloneRaw for RawEntry {
    fn clone_raw(&self) -> RawEntry {
        RawEntry { key: self.key.clone(), value: self.value.clone() }
    }
}

#[test]
fn law_snapshot_after_adding_entry_on_values() {
    let before = store();
    let r = full_scan(&before, 0).unwrap();
    let mut after: Vec<RawEntry> = store();
    after.insert(1, raw(&txid(7), &[Some((4, 2)), None, Some((6, 5))]));
    let r2 = full_scan(&after, 0).unwrap();
    assert_eq!(r2.tx_count, r.tx_count + 1);
    assert_eq!(r2.outputs_total, r.outputs_total + 3);
    assert_eq!(r2.outputs_unspent, r.outputs_unspent + 2);
    assert_eq!(r2.circulation, r.circulation + 10);
    assert_eq!(balance(&r2.balances, &addr(2)), Some(balance(&r.balances, &addr(2)).unwrap_or(0) + 4));
    assert_eq!(balance(&r2.balances, &addr(5)), Some(6));
    assert_eq!(balance(&r2.balances, &addr(1)), balance(&r.balances, &addr(1)));
}

#[test]
fn law_snapshot_ignores_pair_without_txid_on_values() {
    let r = full_scan(&store(), 0).unwrap();
    let mut after = store();
    after.insert(0, raw("not-an-id", &[Some((99, 8))]));
    let r2 = full_scan(&after, 0).unwrap();
    assert_eq!(r2.tx_count, r.tx_count);
    assert_eq!(r2.circulation, r.circulation);
    assert_eq!(r2.balances, r.balances);
}

#[test]
fn law_top_prefix_on_values() {
    let all = top_receivers(&store(), usize::MAX);
    for k in 0..6 {
        let some = top_receivers(&store(), k);
        assert!(some.len() <= all.len());
        for (i, row) in some.iter().enumerate() {
            assert_eq!(row.total_unspent, all[i].total_unspent);
        }
    }
    assert!(top_receivers(&store(), 0).is_empty());
}

#[test]
fn law_top_counts_pair_whatever_its_key_on_values() {
    let rows = top_receivers(&store(), usize::MAX);
    let mut after = store();
    after.insert(2, raw("not-an-id", &[Some((3, 1)), Some((8, 6))]));
    let rows2 = top_receivers(&after, usize::MAX);
    let total = |rs: &Vec<snap_coin_stats::top::TopReceiverRow>, a: &str| {
        rs.iter().find(|r| r.receiver_base36 == a).map(|r| r.total_unspent).unwrap_or(0)
    };
    assert_eq!(total(&rows2, &addr(1)), total(&rows, &addr(1)) + 3);
    assert_eq!(total(&rows2, &addr(6)), 8);
    assert_eq!(total(&rows2, &addr(2)), total(&rows, &addr(2)));
}

#[test]
fn records_from_slots_writes_addresses() {
    let mut k = [0u8; 32];
    k[31] = 37;
    let recs = snap_coin_stats::ledger::records_from_slots(&vec![Some((9, k)), None]);
    assert_eq!(recs.len(), 2);
    assert_eq!(recs[0].as_ref().unwrap().amount, 9);
    assert_eq!(recs[0].as_ref().unwrap().receiver, "11");
    assert!(recs[1].is_none());
}

#[test]
fn growth_computable_and_statistics_from_table() {
    let half = 1u64 << 62;
    let bad = vec![entry("t1", &[Some((half, "a"))]), entry("t2", &[Some((half, "a"))])];
    assert!(!snap_coin_stats::intelligence::growth_computable(&bad));
    let es = vec![entry("t1", &[Some((2, "a"))]), entry("t2", &[Some((3, "b")), Some((4, "a"))])];
    assert!(snap_coin_stats::intelligence::growth_computable(&es));
    let t = tally_accounts(&es);
    let w = snap_coin_stats::intelligence::intelligence_from_table(&es, &t).unwrap();
    assert_eq!(w.most_active_address, "a");
    assert_eq!(w.most_active_tx_count, 2);
    assert_eq!(w.fastest_growing_address, "a");
    assert_eq!(w.fastest_growing_delta, 4);
    assert_eq!(w.largest_output_amount, 4);
    assert_eq!(w.largest_output_txid, "t2");
}
