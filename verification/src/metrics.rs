use vstd::prelude::*;
use crate::error::StatsError;
use crate::ledger::{entries_model, raws_model, scan_entries, scanned, RawEntry, TxEntry, TxModel};
use crate::tally::{
    all_slots, amount_total, balance_table, lemma_balances_add_up, lemma_receiver_count,
    lemma_slot_split, pairs_sum, pairs_view, receiver_set, saturate, slots_fit,
    spent_count, totals_of, unspent,
};

verus! {

/// Counts and totals over every transaction entry of the store.
pub struct GlobalMetrics {
    pub tx_entries_scanned: u64,
    pub outputs_total: u64,
    pub outputs_unspent: u64,
    pub outputs_spent: u64,
    pub wallets_with_unspent: u64,
    pub utxo_total_unspent_atomic: u64,
}

/// One history record: the totals of the store at `timestamp` (seconds since the Unix
/// epoch), with every address's balance.
pub struct SnapshotRecord {
    pub timestamp: u64,
    pub circulation: u64,
    pub wallets: u64,
    pub tx_count: u64,
    pub outputs_total: u64,
    pub outputs_unspent: u64,
    pub balances: Vec<(String, u64)>,
}

/// The entries hold no more output slots than a `u64` counter can count.
pub open spec fn counts_fit(entries: Seq<TxModel>) -> bool {
    all_slots(entries).len() <= u64::MAX
}

/// `m` gives the counts and totals of the entries: how many entries, how many output
/// slots, how many unspent and spent, how many distinct receivers of unspent outputs,
/// and the sum of the unspent amounts, held at `u64::MAX` where it is larger.
pub open spec fn describes_metrics(m: GlobalMetrics, entries: Seq<TxModel>) -> bool {
    let s = all_slots(entries);
    let u = unspent(s);
    &&& m.tx_entries_scanned == entries.len()
    &&& m.outputs_total == s.len()
    &&& m.outputs_unspent == u.len()
    &&& m.outputs_spent == spent_count(s)
    &&& m.wallets_with_unspent == receiver_set(u).len()
    &&& m.utxo_total_unspent_atomic == saturate(amount_total(u) as int)
}

/// `r` is the snapshot of the entries at `timestamp`: the counts as in the global metrics,
/// and each receiver of an unspent output, in order of first appearance, with the sum of
/// what it holds unspent, held at `u64::MAX`.
pub open spec fn describes_snapshot(r: SnapshotRecord, entries: Seq<TxModel>, timestamp: u64) -> bool {
    let s = all_slots(entries);
    let u = unspent(s);
    &&& r.timestamp == timestamp
    &&& r.tx_count == entries.len()
    &&& r.outputs_total == s.len()
    &&& r.outputs_unspent == u.len()
    &&& r.circulation == saturate(amount_total(u) as int)
    &&& r.wallets == receiver_set(u).len()
    &&& pairs_view(r.balances@) == balance_table(u)
}

/// The global metrics of the given entries.
pub fn global_metrics_of(entries: &[TxEntry]) -> (m: GlobalMetrics)
    requires
        counts_fit(entries_model(entries@)),
    ensures
        describes_metrics(m, entries_model(entries@)),
        m.outputs_total == m.outputs_unspent + m.outputs_spent,
{
    let t = totals_of(entries);
    let ghost s = all_slots(entries_model(entries@));
    proof {
        lemma_receiver_count(unspent(s));
        lemma_slot_split(s);
        assert(t.balances@.len() == pairs_view(t.balances@).len());
    }
    GlobalMetrics {
        tx_entries_scanned: entries.len() as u64,
        outputs_total: t.outputs_total,
        outputs_unspent: t.outputs_unspent,
        outputs_spent: t.outputs_spent,
        wallets_with_unspent: t.balances.len() as u64,
        utxo_total_unspent_atomic: t.circulation,
    }
}

/// The global metrics of the transaction entries among the pairs: those whose key is a
/// transaction id and whose value decodes. Fails only where the entries hold more output
/// slots than a `u64` can count.
pub fn global_metrics(raws: &[RawEntry]) -> (r: Result<GlobalMetrics, StatsError>)
    ensures
        ({
            let e = scanned(raws_model(raws@));
            match r {
                Ok(m) => counts_fit(e) && describes_metrics(m, e),
                Err(x) => !counts_fit(e) && x == StatsError::TooManyOutputs,
            }
        }),
{
    let entries = scan_entries(raws);
    if !slots_fit(entries.as_slice()) {
        return Err(StatsError::TooManyOutputs);
    }
    Ok(global_metrics_of(entries.as_slice()))
}

/// The snapshot of the given entries at `timestamp`.
pub fn snapshot_of(entries: &[TxEntry], timestamp: u64) -> (r: SnapshotRecord)
    requires
        counts_fit(entries_model(entries@)),
    ensures
        describes_snapshot(r, entries_model(entries@), timestamp),
        r.wallets == r.balances@.len(),
{
    let t = totals_of(entries);
    let ghost s = all_slots(entries_model(entries@));
    proof {
        lemma_receiver_count(unspent(s));
        assert(t.balances@.len() == pairs_view(t.balances@).len());
    }
    let wallets = t.balances.len() as u64;
    SnapshotRecord {
        timestamp,
        circulation: t.circulation,
        wallets,
        tx_count: entries.len() as u64,
        outputs_total: t.outputs_total,
        outputs_unspent: t.outputs_unspent,
        balances: t.balances,
    }
}

/// The snapshot, taken at `timestamp`, of the transaction entries among the pairs: the
/// global counts and every address's unspent balance in one pass. Fails only where the
/// entries hold more output slots than a `u64` can count.
pub fn full_scan(raws: &[RawEntry], timestamp: u64) -> (r: Result<SnapshotRecord, StatsError>)
    ensures
        ({
            let e = scanned(raws_model(raws@));
            match r {
                Ok(s) => counts_fit(e) && describes_snapshot(s, e, timestamp),
                Err(x) => !counts_fit(e) && x == StatsError::TooManyOutputs,
            }
        }),
{
    let entries = scan_entries(raws);
    if !slots_fit(entries.as_slice()) {
        return Err(StatsError::TooManyOutputs);
    }
    Ok(snapshot_of(entries.as_slice(), timestamp))
}

/// On the same entries, the snapshot and the global metrics give the same number of
/// entries, of output slots, of unspent outputs and of wallets, and the same circulation.
pub proof fn law_snapshot_matches_metrics(
    entries: Seq<TxModel>,
    m: GlobalMetrics,
    s: SnapshotRecord,
    timestamp: u64,
)
    requires
        describes_metrics(m, entries),
        describes_snapshot(s, entries, timestamp),
    ensures
        m.tx_entries_scanned == s.tx_count,
        m.outputs_total == s.outputs_total,
        m.outputs_unspent == s.outputs_unspent,
        m.wallets_with_unspent == s.wallets,
        m.utxo_total_unspent_atomic == s.circulation,
{
}


/// Every output slot is counted either as unspent or as spent, and no more wallets hold
/// unspent outputs than there are unspent outputs.
pub proof fn law_metrics_counts(entries: Seq<TxModel>, m: GlobalMetrics)
    requires
        describes_metrics(m, entries),
    ensures
        m.outputs_total == m.outputs_unspent + m.outputs_spent,
        m.wallets_with_unspent <= m.outputs_unspent,
{
    let s = all_slots(entries);
    let u = unspent(s);
    lemma_slot_split(s);
    u.map_values(|o: crate::ledger::OutputModel| o.receiver).lemma_cardinality_of_set();
}

/// Where the circulation is below `u64::MAX` (no sum held there), the snapshot's balances
/// add up to its circulation.
pub proof fn law_balances_add_up(entries: Seq<TxModel>, s: SnapshotRecord, timestamp: u64)
    requires
        describes_snapshot(s, entries, timestamp),
        s.circulation < u64::MAX,
    ensures
        pairs_sum(pairs_view(s.balances@)) == s.circulation,
{
    lemma_balances_add_up(unspent(all_slots(entries)));
}

} // verus!
