use vstd::prelude::*;
use crate::history::History;
use crate::metrics::SnapshotRecord;

verus! {

/// Query of the global metrics request: `init` is 1 on a page's first load.
pub struct GlobalsQuery {
    pub init: u8,
}

impl GlobalsQuery {
    /// Whether the request counts as a page load (only a first load does).
    pub fn counts_visit(&self) -> (r: bool)
        ensures
            r == (self.init == 1),
    {
        self.init == 1
    }
}

/// Query of the top receivers request: how many rows to return.
pub struct TopQuery {
    pub limit: usize,
}

/// The number of rows returned when the query names none: all of them.
pub fn default_limit() -> (r: usize)
    ensures
        r == usize::MAX,
{
    usize::MAX
}

/// One point of the history as the history request returns it.
pub struct HistoryPoint {
    pub timestamp: u64,
    pub circulation: u64,
    pub wallets: u64,
    pub tx_count: u64,
    pub outputs_total: u64,
    pub outputs_unspent: u64,
    pub balances: Vec<(String, u64)>,
}

/// The history as the history request returns it.
pub struct HistoryResponse {
    pub records: Vec<HistoryPoint>,
}

/// The page-load count as the visits request returns it.
pub struct VisitsResponse {
    pub page_loads: u64,
}

/// The point carries the record's fields.
pub open spec fn point_of(p: HistoryPoint, r: SnapshotRecord) -> bool {
    &&& p.timestamp == r.timestamp
    &&& p.circulation == r.circulation
    &&& p.wallets == r.wallets
    &&& p.tx_count == r.tx_count
    &&& p.outputs_total == r.outputs_total
    &&& p.outputs_unspent == r.outputs_unspent
    &&& p.balances@ == r.balances@
}

/// A copy of a list of (address, amount) pairs.
fn copy_pairs(v: &Vec<(String, u64)>) -> (r: Vec<(String, u64)>)
    ensures
        r@ == v@,
{
    let mut out: Vec<(String, u64)> = Vec::new();
    let n = v.len();
    for i in 0..n
        invariant
            n == v@.len(),
            out@ == v@.take(i as int),
    {
        let key = v[i].0.clone();
        out.push((key, v[i].1));
        assert(v@.take(i + 1) =~= v@.take(i as int).push(v@[i as int]));
    }
    assert(v@.take(n as int) =~= v@);
    out
}

impl HistoryPoint {
    /// The point of a snapshot record.
    pub fn from_record(r: &SnapshotRecord) -> (p: HistoryPoint)
        ensures
            point_of(p, *r),
    {
        HistoryPoint {
            timestamp: r.timestamp,
            circulation: r.circulation,
            wallets: r.wallets,
            tx_count: r.tx_count,
            outputs_total: r.outputs_total,
            outputs_unspent: r.outputs_unspent,
            balances: copy_pairs(&r.balances),
        }
    }
}

impl HistoryResponse {
    /// Every record of the history, oldest first, as a point.
    pub fn from_history(h: &History) -> (resp: HistoryResponse)
        ensures
            resp.records@.len() == h@.len(),
            forall|i: int| 0 <= i < h@.len() ==> point_of(#[trigger] resp.records@[i], h@[i]),
    {
        let mut records: Vec<HistoryPoint> = Vec::new();
        let n = h.len();
        for i in 0..n
            invariant
                n == h@.len(),
                records@.len() == i,
                forall|k: int| 0 <= k < i ==> point_of(#[trigger] records@[k], h@[k]),
        {
            let p = HistoryPoint::from_record(h.get(i));
            records.push(p);
        }
        HistoryResponse { records }
    }
}

} // verus!
