use vstd::prelude::*;
use crate::error::StatsError;
use crate::ledger::{
    entries_model, raws_model, scan_entries, scanned, slot_model, slots_model, OutputModel,
    OutputRecord, RawEntry, TxEntry, TxModel,
};
use crate::metrics::counts_fit;
use crate::tally::{
    all_slots, amount_to, count_to, entry_slots, find_key, flatten, key_seq,
    lemma_absent_receiver, lemma_amount_to_concat, lemma_count_bounds, lemma_flatten_step, lemma_flatten_take_len,
    lemma_receiver_count, lemma_receivers, lemma_receivers_concat, lemma_unspent_concat,
    lemma_unspent_len, receiver_set, receivers, saturate, slots_fit, unspent,
};

verus! {

/// One address's running tally while the store is scanned.
#[derive(Clone, Copy)]
pub struct Account {
    pub tx_count: u64,
    pub unspent_count: u64,
    pub spent_count: u64,
    pub total_unspent_atomic: u64,
    pub baseline_unspent_atomic: u64,
    pub baseline_set: bool,
}

/// What `r` received in the first of the entries that pays it (0 where none does).
pub open spec fn first_entry_amount(entries: Seq<TxModel>, r: Seq<char>) -> nat
    decreases entries.len(),
{
    if entries.len() == 0 {
        0
    } else {
        let pre = entries.drop_last();
        if receivers(unspent(all_slots(pre))).contains(r) {
            first_entry_amount(pre, r)
        } else {
            amount_to(unspent(entries.last().outputs), r)
        }
    }
}

/// The tally of `r` once `done` is scanned and `x`, the first slots of the next entry,
/// are counted.
pub open spec fn mid_account(done: Seq<TxModel>, x: Seq<Option<OutputModel>>, r: Seq<char>) -> Account {
    let u = unspent(all_slots(done) + x);
    let seen = receivers(unspent(all_slots(done))).contains(r);
    Account {
        tx_count: count_to(u, r) as u64,
        unspent_count: count_to(u, r) as u64,
        spent_count: 0,
        total_unspent_atomic: saturate(amount_to(u, r) as int),
        baseline_unspent_atomic: if seen {
            saturate(first_entry_amount(done, r) as int)
        } else {
            saturate(amount_to(unspent(x), r) as int)
        },
        baseline_set: seen,
    }
}

/// The table once `done` is scanned and `x` counted.
pub open spec fn mid_table(done: Seq<TxModel>, x: Seq<Option<OutputModel>>) -> Seq<(Seq<char>, Account)> {
    receivers(unspent(all_slots(done) + x)).map_values(|r: Seq<char>| (r, mid_account(done, x, r)))
}

/// The table once `done` is scanned, the entry with slots `cur` counted, and the receivers
/// of its first slots `y` marked as seen.
pub open spec fn marked_table(
    done: Seq<TxModel>,
    cur: Seq<Option<OutputModel>>,
    y: Seq<Option<OutputModel>>,
) -> Seq<(Seq<char>, Account)> {
    receivers(unspent(all_slots(done) + cur)).map_values(
        |r: Seq<char>|
            {
                let a = mid_account(done, cur, r);
                (
                    r,
                    Account {
                        tx_count: a.tx_count,
                        unspent_count: a.unspent_count,
                        spent_count: a.spent_count,
                        total_unspent_atomic: a.total_unspent_atomic,
                        baseline_unspent_atomic: a.baseline_unspent_atomic,
                        baseline_set: a.baseline_set || receivers(unspent(y)).contains(r),
                    },
                )
            },
    )
}

/// The tally of `r` over all the entries: how many unspent outputs it holds, what they sum
/// to, and what it received in the first entry that paid it (both sums held at `u64::MAX`).
pub open spec fn account_model(entries: Seq<TxModel>, r: Seq<char>) -> Account {
    let u = unspent(all_slots(entries));
    Account {
        tx_count: count_to(u, r) as u64,
        unspent_count: count_to(u, r) as u64,
        spent_count: 0,
        total_unspent_atomic: saturate(amount_to(u, r) as int),
        baseline_unspent_atomic: saturate(first_entry_amount(entries, r) as int),
        baseline_set: true,
    }
}

/// Every receiver of an unspent output, in order of first appearance, with its tally.
pub open spec fn account_table(entries: Seq<TxModel>) -> Seq<(Seq<char>, Account)> {
    receivers(unspent(all_slots(entries))).map_values(|r: Seq<char>| (r, account_model(entries, r)))
}

/// Model of a table of tallies.
pub open spec fn accounts_view(t: Seq<(String, Account)>) -> Seq<(Seq<char>, Account)> {
    t.map_values(|p: (String, Account)| (p.0@, p.1))
}

/// Counts an output slot of the entry being scanned.
fn count_slot(
    table: &mut Vec<(String, Account)>,
    slot: &Option<OutputRecord>,
    Ghost(done): Ghost<Seq<TxModel>>,
    Ghost(x): Ghost<Seq<Option<OutputModel>>>,
)
    requires
        accounts_view(old(table)@) == mid_table(done, x),
        all_slots(done).len() + x.len() + 1 <= u64::MAX,
    ensures
        accounts_view(final(table)@) == mid_table(done, x.push(slot_model(*slot))),
{
    let ghost p = all_slots(done);
    let ghost x2 = x.push(slot_model(*slot));
    proof {
        assert(p + x2 =~= (p + x).push(slot_model(*slot)));
        assert((p + x2).drop_last() =~= p + x);
        assert(x2.drop_last() =~= x);
    }
    match slot {
        None => {
            proof {
                assert(unspent(p + x2) == unspent(p + x));
                assert(unspent(x2) == unspent(x));
                assert(mid_table(done, x2) =~= mid_table(done, x));
            }
        },
        Some(o) => {
            let ghost u = unspent(p + x);
            let ghost r = o.receiver@;
            proof {
                assert(unspent(p + x2) == u.push(o@));
                assert(unspent(x2) == unspent(x).push(o@));
                assert(u.push(o@).drop_last() =~= u);
                assert(unspent(x).push(o@).drop_last() =~= unspent(x));
                lemma_receivers(u);
                lemma_unspent_concat(p, x);
                lemma_unspent_len(p + x);
                lemma_count_bounds(u, r);
                assert(table@ == old(table)@);
                assert(accounts_view(table@) == mid_table(done, x));
                assert(accounts_view(table@).len() == table@.len());
                assert forall|k: int| 0 <= k < table@.len() implies key_seq(table@)[k]
                    == receivers(u)[k] by {
                    assert(accounts_view(table@)[k] == mid_table(done, x)[k]);
                }
                assert(key_seq(table@) =~= receivers(u));
            }
            match find_key(table, &o.receiver) {
                Some(i) => {
                    let ghost old_view = accounts_view(table@);
                    let mut acc: Account = table[i].1;
                    let key = table[i].0.clone();
                    proof {
                        assert(old_view[i as int] == mid_table(done, x)[i as int]);
                        assert(receivers(u)[i as int] == r);
                        assert(receivers(u).contains(r));
                    }
                    acc.tx_count = acc.tx_count + 1;
                    acc.unspent_count = acc.unspent_count + 1;
                    acc.total_unspent_atomic = acc.total_unspent_atomic.saturating_add(o.amount);
                    if !acc.baseline_set {
                        acc.baseline_unspent_atomic = acc.baseline_unspent_atomic.saturating_add(
                            o.amount,
                        );
                    }
                    table.set(i, (key, acc));
                    proof {
                        assert(receivers(u.push(o@)) == receivers(u));
                        assert forall|k: int| 0 <= k < receivers(u).len() implies
                            #[trigger] accounts_view(table@)[k] == mid_table(done, x2)[k] by {
                            assert(old_view[k] == mid_table(done, x)[k]);
                            if k != i {
                                assert(receivers(u)[k] != receivers(u)[i as int]);
                            }
                        }
                        assert(accounts_view(table@) =~= mid_table(done, x2));
                    }
                },
                None => {
                    let acc = Account {
                        tx_count: 1,
                        unspent_count: 1,
                        spent_count: 0,
                        total_unspent_atomic: o.amount,
                        baseline_unspent_atomic: o.amount,
                        baseline_set: false,
                    };
                    table.push((o.receiver.clone(), acc));
                    proof {
                        lemma_absent_receiver(u, r);
                        lemma_receivers_concat(unspent(p), unspent(x), r);
                        lemma_absent_receiver(unspent(x), r);
                        assert(receivers(u.push(o@)) == receivers(u).push(r));
                        assert forall|k: int| 0 <= k < receivers(u).len() implies
                            #[trigger] accounts_view(table@)[k] == mid_table(done, x2)[k] by {
                            assert(receivers(u).contains(receivers(u)[k]));
                            assert(accounts_view(table@)[k] == mid_table(done, x)[k]);
                        }
                        assert(accounts_view(table@) =~= mid_table(done, x2));
                    }
                },
            }
        },
    }
}


/// Marks the receiver of an output slot of the entry just counted as seen.
fn mark_slot(
    table: &mut Vec<(String, Account)>,
    slot: &Option<OutputRecord>,
    Ghost(done): Ghost<Seq<TxModel>>,
    Ghost(cur): Ghost<Seq<Option<OutputModel>>>,
    Ghost(y): Ghost<Seq<Option<OutputModel>>>,
)
    requires
        accounts_view(old(table)@) == marked_table(done, cur, y),
    ensures
        accounts_view(final(table)@) == marked_table(done, cur, y.push(slot_model(*slot))),
{
    let ghost y2 = y.push(slot_model(*slot));
    let ghost u = unspent(all_slots(done) + cur);
    proof {
        assert(y2.drop_last() =~= y);
        assert(table@ == old(table)@);
        assert(accounts_view(table@) == marked_table(done, cur, y));
        assert(accounts_view(table@).len() == table@.len());
        lemma_receivers(u);
    }
    match slot {
        None => {
            proof {
                assert(unspent(y2) == unspent(y));
                assert(marked_table(done, cur, y2) =~= marked_table(done, cur, y));
            }
        },
        Some(o) => {
            let ghost r = o.receiver@;
            proof {
                assert(unspent(y2) == unspent(y).push(o@));
                assert(unspent(y).push(o@).drop_last() =~= unspent(y));
                assert forall|x: Seq<char>| #[trigger] receivers(unspent(y2)).contains(x) <==> (
                receivers(unspent(y)).contains(x) || x == r) by {
                    lemma_receivers(unspent(y2));
                    lemma_receivers(unspent(y));
                    let w = unspent(y2);
                    if receivers(unspent(y)).contains(x) {
                        let i = choose|i: int|
                            0 <= i < unspent(y).len() && (#[trigger] unspent(y)[i]).receiver == x;
                        assert(w[i] == unspent(y)[i]);
                    }
                    if x == r {
                        assert(w[w.len() - 1].receiver == x);
                    }
                    if receivers(w).contains(x) {
                        let i = choose|i: int| 0 <= i < w.len() && (#[trigger] w[i]).receiver == x;
                        if i < w.len() - 1 {
                            assert(unspent(y)[i] == w[i]);
                        }
                    }
                }
                assert forall|k: int| 0 <= k < table@.len() implies key_seq(table@)[k]
                    == receivers(u)[k] by {
                    assert(accounts_view(table@)[k] == marked_table(done, cur, y)[k]);
                }
            }
            match find_key(table, &o.receiver) {
                Some(i) => {
                    let ghost old_view = accounts_view(table@);
                    let mut acc: Account = table[i].1;
                    let key = table[i].0.clone();
                    acc.baseline_set = true;
                    table.set(i, (key, acc));
                    proof {
                        assert(receivers(u)[i as int] == r);
                        assert forall|k: int| 0 <= k < receivers(u).len() implies
                            #[trigger] accounts_view(table@)[k] == marked_table(done, cur, y2)[k] by {
                            assert(old_view[k] == marked_table(done, cur, y)[k]);
                            if k != i {
                                assert(receivers(u)[k] != receivers(u)[i as int]);
                            }
                        }
                        assert(accounts_view(table@) =~= marked_table(done, cur, y2));
                    }
                },
                None => {
                    proof {
                        assert(key_seq(table@) =~= receivers(u));
                        assert forall|k: int| 0 <= k < receivers(u).len() implies
                            #[trigger] accounts_view(table@)[k] == marked_table(done, cur, y2)[k] by {
                            assert(receivers(u).contains(receivers(u)[k]));
                            assert(accounts_view(table@)[k] == marked_table(done, cur, y)[k]);
                        }
                        assert(accounts_view(table@) =~= marked_table(done, cur, y2));
                    }
                },
            }
        },
    }
}

/// The slots of the first `i` entries are the flattened first `i` slot lists.
proof fn lemma_all_slots_take(em: Seq<TxModel>, i: int)
    requires
        0 <= i <= em.len(),
    ensures
        all_slots(em.take(i)) == flatten(entry_slots(em).take(i)),
{
    assert(entry_slots(em.take(i)) =~= entry_slots(em).take(i));
}

/// Before an entry is counted, the table of the entries scanned so far is its mid table.
proof fn lemma_mid_start(done: Seq<TxModel>)
    ensures
        account_table(done) == mid_table(done, seq![]),
{
    let p = all_slots(done);
    assert(p + Seq::<Option<OutputModel>>::empty() =~= p);
    lemma_receivers(unspent(p));
    assert forall|k: int| 0 <= k < receivers(unspent(p)).len() implies #[trigger] account_table(
        done,
    )[k] == mid_table(done, seq![])[k] by {
        let r = receivers(unspent(p))[k];
        assert(receivers(unspent(p)).contains(r));
    }
    assert(account_table(done) =~= mid_table(done, seq![]));
}

/// Once the entry is counted, its mid table is its marked table with nothing marked yet.
proof fn lemma_mark_start(done: Seq<TxModel>, cur: Seq<Option<OutputModel>>)
    ensures
        mid_table(done, cur) == marked_table(done, cur, seq![]),
{
    let e = Seq::<Option<OutputModel>>::empty();
    assert(unspent(e) == Seq::<OutputModel>::empty());
    assert(receivers(unspent(e)) == Seq::<Seq<char>>::empty());
    assert(mid_table(done, cur) =~= marked_table(done, cur, seq![]));
}

/// Once every receiver of the entry is marked, the table is that of the entries scanned so
/// far together with this entry.
proof fn lemma_mark_end(em: Seq<TxModel>, i: int)
    requires
        0 <= i < em.len(),
    ensures
        marked_table(em.take(i), em[i].outputs, em[i].outputs) == account_table(em.take(i + 1)),
{
    let done = em.take(i);
    let next = em.take(i + 1);
    let cur = em[i].outputs;
    let l = entry_slots(em);
    lemma_all_slots_take(em, i);
    lemma_all_slots_take(em, i + 1);
    lemma_flatten_step(l, i);
    assert(l[i] == cur);
    let p = all_slots(done);
    assert(all_slots(next) == p + cur);
    assert(next.drop_last() =~= done);
    assert(next.last() == em[i]);
    lemma_unspent_concat(p, cur);
    let u = unspent(p + cur);
    assert forall|k: int| 0 <= k < receivers(u).len() implies #[trigger] marked_table(
        done,
        cur,
        cur,
    )[k] == account_table(next)[k] by {
        let r = receivers(u)[k];
        lemma_receivers(u);
        assert(receivers(u).contains(r));
        lemma_receivers_concat(unspent(p), unspent(cur), r);
    }
    assert(marked_table(done, cur, cur) =~= account_table(next));
}

/// The tally of every receiver of an unspent output among the entries.
pub fn tally_accounts(entries: &[TxEntry]) -> (table: Vec<(String, Account)>)
    requires
        counts_fit(entries_model(entries@)),
    ensures
        accounts_view(table@) == account_table(entries_model(entries@)),
{
    let ghost em = entries_model(entries@);
    let ghost l = entry_slots(em);
    let mut table: Vec<(String, Account)> = Vec::new();
    let n = entries.len();
    proof {
        assert(em.take(0) =~= Seq::<TxModel>::empty());
        assert(accounts_view(table@) =~= account_table(em.take(0)));
    }
    for i in 0..n
        invariant
            n == entries@.len(),
            em == entries_model(entries@),
            l == entry_slots(em),
            flatten(l).len() <= u64::MAX,
            accounts_view(table@) == account_table(em.take(i as int)),
    {
        let ghost done = em.take(i as int);
        let ghost cur = em[i as int].outputs;
        let outs = &entries[i].outputs;
        let m = outs.len();
        proof {
            lemma_mid_start(done);
            lemma_all_slots_take(em, i as int);
            lemma_flatten_step(l, i as int);
            lemma_flatten_take_len(l, i + 1);
            assert(l[i as int] == cur);
            assert(cur == slots_model(outs@));
            assert(cur.take(0) =~= Seq::<Option<OutputModel>>::empty());
        }
        for j in 0..m
            invariant
                m == outs@.len(),
                cur == slots_model(outs@),
                all_slots(done).len() + m <= u64::MAX,
                accounts_view(table@) == mid_table(done, cur.take(j as int)),
        {
            proof {
                assert(cur.take(j as int).push(slot_model(outs@[j as int])) =~= cur.take(j + 1));
            }
            count_slot(&mut table, &outs[j], Ghost(done), Ghost(cur.take(j as int)));
        }
        proof {
            assert(cur.take(m as int) =~= cur);
            lemma_mark_start(done, cur);
        }
        for j in 0..m
            invariant
                m == outs@.len(),
                cur == slots_model(outs@),
                accounts_view(table@) == marked_table(done, cur, cur.take(j as int)),
        {
            proof {
                assert(cur.take(j as int).push(slot_model(outs@[j as int])) =~= cur.take(j + 1));
            }
            mark_slot(&mut table, &outs[j], Ghost(done), Ghost(cur), Ghost(cur.take(j as int)));
        }
        proof {
            assert(cur.take(m as int) =~= cur);
            lemma_mark_end(em, i as int);
        }
    }
    proof {
        assert(em.take(n as int) =~= em);
    }
    table
}


/// The outputs of `outs`, each paired with the transaction id `txid`.
pub open spec fn tag(txid: Seq<char>, outs: Seq<OutputModel>) -> Seq<(Seq<char>, OutputModel)> {
    outs.map_values(|o: OutputModel| (txid, o))
}

/// Every unspent output of the entries, in order, paired with its transaction id.
pub open spec fn tagged_unspent(entries: Seq<TxModel>) -> Seq<(Seq<char>, OutputModel)>
    decreases entries.len(),
{
    if entries.len() == 0 {
        seq![]
    } else {
        tagged_unspent(entries.drop_last()) + tag(
            entries.last().txid,
            unspent(entries.last().outputs),
        )
    }
}

/// `amount` is the largest amount among the tagged outputs (0 where there are none);
/// where it is positive, `txid` and `receiver` are those of the first output with it,
/// and otherwise both are empty.
pub open spec fn describes_largest(
    amount: u64,
    txid: Seq<char>,
    receiver: Seq<char>,
    t: Seq<(Seq<char>, OutputModel)>,
) -> bool {
    &&& forall|k: int| 0 <= k < t.len() ==> (#[trigger] t[k]).1.amount <= amount
    &&& amount == 0 ==> txid.len() == 0 && receiver.len() == 0
    &&& amount > 0 ==> exists|k: int|
        0 <= k < t.len() && (#[trigger] t[k]).1.amount == amount && t[k].0 == txid
            && t[k].1.receiver == receiver && forall|k2: int|
            0 <= k2 < k ==> (#[trigger] t[k2]).1.amount < amount
}

/// The largest unspent output of the entries, with its transaction id and receiver.
pub fn largest_output(entries: &[TxEntry]) -> (r: (u64, String, String))
    ensures
        describes_largest(r.0, r.1@, r.2@, tagged_unspent(entries_model(entries@))),
{
    let ghost em = entries_model(entries@);
    let mut amount: u64 = 0;
    let mut txid = String::new();
    let mut receiver = String::new();
    let n = entries.len();
    proof {
        assert(em.take(0) =~= Seq::<TxModel>::empty());
    }
    for i in 0..n
        invariant
            n == entries@.len(),
            em == entries_model(entries@),
            describes_largest(amount, txid@, receiver@, tagged_unspent(em.take(i as int))),
    {
        let e = &entries[i];
        let ghost base = tagged_unspent(em.take(i as int));
        let ghost cur = em[i as int].outputs;
        let m = e.outputs.len();
        proof {
            assert(cur == slots_model(e.outputs@));
            assert(cur.take(0) =~= Seq::<Option<OutputModel>>::empty());
            assert(base + tag(e.txid@, unspent(cur.take(0))) =~= base);
        }
        for j in 0..m
            invariant
                m == e.outputs@.len(),
                cur == slots_model(e.outputs@),
                describes_largest(
                    amount,
                    txid@,
                    receiver@,
                    base + tag(e.txid@, unspent(cur.take(j as int))),
                ),
        {
            let ghost t0 = base + tag(e.txid@, unspent(cur.take(j as int)));
            let ghost t1 = base + tag(e.txid@, unspent(cur.take(j + 1)));
            proof {
                assert(cur.take(j + 1).drop_last() =~= cur.take(j as int));
                assert(cur.take(j + 1).last() == slot_model(e.outputs@[j as int]));
            }
            match &e.outputs[j] {
                Some(o) => {
                    proof {
                        assert(unspent(cur.take(j + 1)) == unspent(cur.take(j as int)).push(o@));
                        assert(t1 =~= t0.push((e.txid@, o@)));
                    }
                    if o.amount > amount {
                        amount = o.amount;
                        txid = e.txid.clone();
                        receiver = o.receiver.clone();
                        proof {
                            let k = t0.len() as int;
                            assert(t1[k].1.amount == amount);
                            assert forall|k2: int| 0 <= k2 < k implies (#[trigger] t1[k2]).1.amount
                                < amount by {
                                assert(t1[k2] == t0[k2]);
                            }
                        }
                    } else {
                        proof {
                            assert forall|k: int| 0 <= k < t1.len() implies (#[trigger] t1[k]).1.amount
                                <= amount by {
                                if k < t0.len() {
                                    assert(t1[k] == t0[k]);
                                }
                            }
                            if amount > 0 {
                                let k = choose|k: int|
                                    0 <= k < t0.len() && (#[trigger] t0[k]).1.amount == amount
                                        && t0[k].0 == txid@ && t0[k].1.receiver == receiver@
                                        && forall|k2: int|
                                        0 <= k2 < k ==> (#[trigger] t0[k2]).1.amount < amount;
                                assert(t1[k] == t0[k]);
                                assert forall|k2: int| 0 <= k2 < k implies (#[trigger] t1[k2]).1.amount
                                    < amount by {
                                    assert(t1[k2] == t0[k2]);
                                }
                            }
                        }
                    }
                },
                None => {
                    proof {
                        assert(unspent(cur.take(j + 1)) == unspent(cur.take(j as int)));
                        assert(t1 == t0);
                    }
                },
            }
        }
        proof {
            assert(cur.take(m as int) =~= cur);
            assert(em.take(i + 1).drop_last() =~= em.take(i as int));
            assert(em.take(i + 1).last() == em[i as int]);
            assert(em[i as int].txid == e.txid@);
        }
    }
    proof {
        assert(em.take(n as int) =~= em);
    }
    (amount, txid, receiver)
}


/// `x` read as an `i64` (two's complement), as `x as i64` does.
pub open spec fn wrap64(x: u64) -> int {
    if x <= i64::MAX {
        x as int
    } else {
        x - 0x1_0000_0000_0000_0000int
    }
}

/// How much an account grew since the first entry that paid it: its unspent total less
/// its baseline, both read as `i64`.
pub open spec fn growth(a: Account) -> int {
    wrap64(a.total_unspent_atomic) - wrap64(a.baseline_unspent_atomic)
}

/// The value fits in an `i64`.
pub open spec fn fits_i64(v: int) -> bool {
    i64::MIN <= v <= i64::MAX
}

/// The growth of `r`'s account over the entries.
pub open spec fn address_growth(entries: Seq<TxModel>, r: Seq<char>) -> int {
    growth(account_model(entries, r))
}

/// Every receiver's growth fits in an `i64`.
pub open spec fn growth_fits(entries: Seq<TxModel>) -> bool {
    forall|r: Seq<char>|
        #[trigger] receiver_set(unspent(all_slots(entries))).contains(r) ==> fits_i64(
            address_growth(entries, r),
        )
}

/// The output slots an account has seen.
pub open spec fn slot_total(a: Account) -> int {
    a.unspent_count + a.spent_count
}

/// The growth of an account.
fn growth_of(a: &Account) -> (g: i128)
    ensures
        g == growth(*a),
        a.total_unspent_atomic <= i64::MAX && a.baseline_unspent_atomic <= i64::MAX ==> g
            == a.total_unspent_atomic - a.baseline_unspent_atomic,
        g == (if a.total_unspent_atomic <= i64::MAX {
            a.total_unspent_atomic as int
        } else {
            a.total_unspent_atomic - 0x1_0000_0000_0000_0000int
        }) - (if a.baseline_unspent_atomic <= i64::MAX {
            a.baseline_unspent_atomic as int
        } else {
            a.baseline_unspent_atomic - 0x1_0000_0000_0000_0000int
        }),
{
    let t: i128 = if a.total_unspent_atomic <= 9223372036854775807u64 {
        a.total_unspent_atomic as i128
    } else {
        a.total_unspent_atomic as i128 - 18446744073709551616i128
    };
    let b: i128 = if a.baseline_unspent_atomic <= 9223372036854775807u64 {
        a.baseline_unspent_atomic as i128
    } else {
        a.baseline_unspent_atomic as i128 - 18446744073709551616i128
    };
    t - b
}

/// The last row with the most recorded outputs.
fn last_max_tx_count(t: &Vec<(String, Account)>) -> (best: usize)
    requires
        t@.len() > 0,
    ensures
        best < t@.len(),
        forall|k: int| 0 <= k < t@.len() ==> (#[trigger] t@[k]).1.tx_count <= t@[best as int].1.tx_count,
        forall|k: int| best < k < t@.len() ==> (#[trigger] t@[k]).1.tx_count < t@[best as int].1.tx_count,
{
    let mut best: usize = 0;
    let n = t.len();
    for i in 1..n
        invariant
            n == t@.len(),
            best < i,
            forall|k: int| 0 <= k < i ==> (#[trigger] t@[k]).1.tx_count <= t@[best as int].1.tx_count,
            forall|k: int| best < k < i ==> (#[trigger] t@[k]).1.tx_count < t@[best as int].1.tx_count,
    {
        if t[i].1.tx_count >= t[best].1.tx_count {
            best = i;
        }
    }
    best
}

/// The last row with the most unspent outputs.
fn last_max_unspent_count(t: &Vec<(String, Account)>) -> (best: usize)
    requires
        t@.len() > 0,
    ensures
        best < t@.len(),
        forall|k: int| 0 <= k < t@.len() ==> (#[trigger] t@[k]).1.unspent_count <= t@[best as int].1.unspent_count,
        forall|k: int| best < k < t@.len() ==> (#[trigger] t@[k]).1.unspent_count < t@[best as int].1.unspent_count,
{
    let mut best: usize = 0;
    let n = t.len();
    for i in 1..n
        invariant
            n == t@.len(),
            best < i,
            forall|k: int| 0 <= k < i ==> (#[trigger] t@[k]).1.unspent_count <= t@[best as int].1.unspent_count,
            forall|k: int| best < k < i ==> (#[trigger] t@[k]).1.unspent_count < t@[best as int].1.unspent_count,
    {
        if t[i].1.unspent_count >= t[best].1.unspent_count {
            best = i;
        }
    }
    best
}

/// The last row with the largest growth.
fn last_max_growth(t: &Vec<(String, Account)>) -> (best: usize)
    requires
        t@.len() > 0,
    ensures
        best < t@.len(),
        forall|k: int| 0 <= k < t@.len() ==> growth((#[trigger] t@[k]).1) <= growth(t@[best as int].1),
{
    let mut best: usize = 0;
    let mut best_growth = growth_of(&t[0].1);
    let n = t.len();
    for i in 1..n
        invariant
            n == t@.len(),
            best < i,
            best_growth == growth(t@[best as int].1),
            forall|k: int| 0 <= k < i ==> growth((#[trigger] t@[k]).1) <= best_growth,
    {
        let g = growth_of(&t[i].1);
        if g >= best_growth {
            best = i;
            best_growth = g;
        }
    }
    best
}

/// If `a/b <= c/d` and `c/d <= e/f` (positive denominators) then `a/b <= e/f`.
proof fn lemma_rate_order(a: int, b: int, c: int, d: int, e: int, f: int)
    by (nonlinear_arith)
    requires
        b > 0,
        d > 0,
        f > 0,
        a * d <= c * b,
        c * f <= e * d,
    ensures
        a * f <= e * b,
{
    assert(a * d * f <= c * b * f);
    assert(c * f * b <= e * d * b);
    assert(d * (a * f) <= d * (e * b));
}

/// The product of two `u64` values fits in a `u128`.
proof fn lemma_u64_product(x: u64, y: u64)
    ensures
        (x as int) * (y as int) <= u128::MAX,
{
    assert((x as int) * (y as int) <= (u64::MAX as int) * (u64::MAX as int)) by (nonlinear_arith)
        requires
            x <= u64::MAX,
            y <= u64::MAX,
            x >= 0,
            y >= 0,
    ;
}

/// The last row with the highest share of spent outputs among rows that saw any output.
fn last_max_spend_rate(t: &Vec<(String, Account)>) -> (r: Option<usize>)
    requires
        forall|k: int| 0 <= k < t@.len() ==> slot_total((#[trigger] t@[k]).1) <= u64::MAX,
    ensures
        r is None ==> forall|k: int| 0 <= k < t@.len() ==> slot_total((#[trigger] t@[k]).1) == 0,
        r matches Some(b) ==> {
            &&& b < t@.len()
            &&& slot_total(t@[b as int].1) > 0
            &&& forall|k: int|
                0 <= k < t@.len() && slot_total((#[trigger] t@[k]).1) > 0 ==> t@[k].1.spent_count
                    * slot_total(t@[b as int].1) <= t@[b as int].1.spent_count * slot_total(t@[k].1)
        },
{
    let mut best: Option<usize> = None;
    let n = t.len();
    for i in 0..n
        invariant
            n == t@.len(),
            forall|k: int| 0 <= k < t@.len() ==> slot_total((#[trigger] t@[k]).1) <= u64::MAX,
            best is None ==> forall|k: int| 0 <= k < i ==> slot_total((#[trigger] t@[k]).1) == 0,
            best matches Some(b) ==> {
                &&& b < i
                &&& slot_total(t@[b as int].1) > 0
                &&& forall|k: int|
                    0 <= k < i && slot_total((#[trigger] t@[k]).1) > 0 ==> t@[k].1.spent_count
                        * slot_total(t@[b as int].1) <= t@[b as int].1.spent_count * slot_total(
                        t@[k].1,
                    )
            },
    {
        let a = t[i].1;
        let total = a.unspent_count + a.spent_count;
        if total > 0 {
            match best {
                None => {
                    best = Some(i);
                    proof {
                        assert forall|k: int|
                            0 <= k < i + 1 && slot_total((#[trigger] t@[k]).1) > 0 implies t@[k].1.spent_count
                                * slot_total(t@[i as int].1) <= t@[i as int].1.spent_count
                                * slot_total(t@[k].1) by {
                            if k < i {
                            }
                        }
                    }
                },
                Some(b) => {
                    let c = t[b].1;
                    let c_total = c.unspent_count + c.spent_count;
                    proof {
                        lemma_u64_product(a.spent_count, c_total);
                        lemma_u64_product(c.spent_count, total);
                    }
                    let lhs: u128 = (a.spent_count as u128) * (c_total as u128);
                    let rhs: u128 = (c.spent_count as u128) * (total as u128);
                    if lhs >= rhs {
                        best = Some(i);
                        proof {
                            assert forall|k: int|
                                0 <= k < i + 1 && slot_total((#[trigger] t@[k]).1) > 0 implies t@[k].1.spent_count
                                    * slot_total(t@[i as int].1) <= t@[i as int].1.spent_count
                                    * slot_total(t@[k].1) by {
                                if k < i {
                                    lemma_rate_order(
                                        t@[k].1.spent_count as int,
                                        slot_total(t@[k].1),
                                        c.spent_count as int,
                                        c_total as int,
                                        a.spent_count as int,
                                        total as int,
                                    );
                                } else {
                                    assert(k == i);
                                }
                            }
                        }
                    }
                },
            }
        }
    }
    best
}


/// Which addresses stand out in the store. The share of spent outputs of the
/// highest-spend-rate address is `highest_spend_rate_spent / highest_spend_rate_total`.
pub struct WalletIntelligence {
    pub most_active_address: String,
    pub most_active_tx_count: u64,
    pub most_fragmented_address: String,
    pub most_fragmented_unspent: u64,
    pub fastest_growing_address: String,
    pub fastest_growing_delta: i64,
    pub highest_spend_rate_address: String,
    pub highest_spend_rate_spent: u64,
    pub highest_spend_rate_total: u64,
    pub largest_output_amount: u64,
    pub largest_output_txid: String,
    pub largest_output_receiver: String,
}

/// `w` describes the entries: the most active address holds the most unspent outputs (the
/// most fragmented address is the same one); the fastest growing address has the largest
/// growth; the highest-spend-rate address is a receiver with no spent output counted, out
/// of all the outputs it holds; and the largest output is as `describes_largest` says.
pub open spec fn describes_intelligence(w: WalletIntelligence, entries: Seq<TxModel>) -> bool {
    let u = unspent(all_slots(entries));
    let set = receiver_set(u);
    &&& set.contains(w.most_active_address@)
    &&& w.most_active_tx_count == count_to(u, w.most_active_address@)
    &&& forall|r: Seq<char>| #[trigger] set.contains(r) ==> count_to(u, r) <= w.most_active_tx_count
    &&& w.most_fragmented_address@ == w.most_active_address@
    &&& w.most_fragmented_unspent == w.most_active_tx_count
    &&& set.contains(w.fastest_growing_address@)
    &&& w.fastest_growing_delta == address_growth(entries, w.fastest_growing_address@)
    &&& forall|r: Seq<char>|
        #[trigger] set.contains(r) ==> address_growth(entries, r) <= w.fastest_growing_delta
    &&& set.contains(w.highest_spend_rate_address@)
    &&& w.highest_spend_rate_spent == 0
    &&& w.highest_spend_rate_total == count_to(u, w.highest_spend_rate_address@)
    &&& describes_largest(
        w.largest_output_amount,
        w.largest_output_txid@,
        w.largest_output_receiver@,
        tagged_unspent(entries),
    )
}

/// `r` is what the wallet statistics of the entries are: `NoData` exactly where no output
/// is unspent, and otherwise statistics that `describes_intelligence`.
pub open spec fn intelligence_result(r: Result<WalletIntelligence, StatsError>, entries: Seq<TxModel>) -> bool {
    let u = unspent(all_slots(entries));
    match r {
        Ok(w) => u.len() > 0 && describes_intelligence(w, entries),
        Err(e) => u.len() == 0 && e == StatsError::NoData,
    }
}

/// Facts about the rows of the table of the entries.
proof fn lemma_table_rows(entries: Seq<TxModel>, k: int)
    requires
        counts_fit(entries),
        0 <= k < account_table(entries).len(),
    ensures
        ({
            let u = unspent(all_slots(entries));
            let r = receivers(u)[k];
            &&& account_table(entries)[k] == (r, account_model(entries, r))
            &&& receiver_set(u).contains(r)
            &&& count_to(u, r) >= 1
            &&& count_to(u, r) <= u64::MAX
            &&& account_model(entries, r).tx_count == count_to(u, r)
            &&& account_model(entries, r).unspent_count == count_to(u, r)
        }),
{
    let s = all_slots(entries);
    let u = unspent(s);
    let r = receivers(u)[k];
    lemma_receiver_count(u);
    assert(receivers(u).contains(r));
    lemma_count_bounds(u, r);
    lemma_unspent_len(s);
}

/// Every receiver is a row of the table of the entries.
proof fn lemma_table_covers(entries: Seq<TxModel>, r: Seq<char>) -> (k: int)
    requires
        receiver_set(unspent(all_slots(entries))).contains(r),
    ensures
        0 <= k < account_table(entries).len(),
        receivers(unspent(all_slots(entries)))[k] == r,
{
    let u = unspent(all_slots(entries));
    lemma_receiver_count(u);
    assert(receivers(u).contains(r));
    choose|k: int| 0 <= k < receivers(u).len() && receivers(u)[k] == r
}

/// The statistics of the entries, given their table of accounts.
pub fn intelligence_from_table(entries: &[TxEntry], table: &Vec<(String, Account)>) -> (r: Result<
    WalletIntelligence,
    StatsError,
>)
    requires
        counts_fit(entries_model(entries@)),
        accounts_view(table@) == account_table(entries_model(entries@)),
        forall|k: int| 0 <= k < table@.len() ==> fits_i64(growth((#[trigger] table@[k]).1)),
    ensures
        intelligence_result(r, entries_model(entries@)),
{
    let ghost em = entries_model(entries@);
    let ghost u = unspent(all_slots(em));
    let ghost at = account_table(em);
    proof {
        lemma_receivers(u);
        assert forall|k: int| 0 <= k < table@.len() implies (#[trigger] table@[k]).0@ == at[k].0
            && table@[k].1 == at[k].1 by {
            assert(accounts_view(table@)[k] == at[k]);
        }
    }
    if table.len() == 0 {
        proof {
            if u.len() > 0 {
                assert(receivers(u).contains(u[0].receiver));
                assert(at.len() == 0);
            }
        }
        return Err(StatsError::NoData);
    }
    proof {
        assert forall|k: int| 0 <= k < table@.len() implies slot_total((#[trigger] table@[k]).1)
            <= u64::MAX && table@[k].1.tx_count == table@[k].1.unspent_count && table@[k].1.spent_count
            == 0 && slot_total(table@[k].1) > 0 by {
            lemma_table_rows(em, k);
        }
    }
    let a = last_max_tx_count(table);
    let f = last_max_unspent_count(table);
    let g = last_max_growth(table);
    let h = match last_max_spend_rate(table) {
        Some(h) => h,
        None => {
            proof {
                assert(slot_total(table@[0].1) > 0);
            }
            return Err(StatsError::NoData);
        },
    };
    proof {
        if a < f {
            assert(table@[f as int].1.tx_count < table@[a as int].1.tx_count);
        } else if f < a {
            assert(table@[a as int].1.unspent_count < table@[f as int].1.unspent_count);
        }
        assert(a == f);
        lemma_table_rows(em, a as int);
        lemma_table_rows(em, g as int);
        lemma_table_rows(em, h as int);
        assert(u.len() > 0) by {
            lemma_count_bounds(u, receivers(u)[0]);
        }
        assert forall|r: Seq<char>| #[trigger] receiver_set(u).contains(r) implies count_to(u, r)
            <= table@[a as int].1.tx_count && address_growth(em, r) <= growth(table@[g as int].1) by {
            let k = lemma_table_covers(em, r);
            lemma_table_rows(em, k);
            assert(table@[k].1 == account_model(em, r));
        }
    }
    let (amount, txid, receiver) = largest_output(entries);
    let grow = growth_of(&table[g].1);
    let spent = table[h].1;
    let w = WalletIntelligence {
        most_active_address: table[a].0.clone(),
        most_active_tx_count: table[a].1.tx_count,
        most_fragmented_address: table[f].0.clone(),
        most_fragmented_unspent: table[f].1.unspent_count,
        fastest_growing_address: table[g].0.clone(),
        fastest_growing_delta: grow as i64,
        highest_spend_rate_address: table[h].0.clone(),
        highest_spend_rate_spent: spent.spent_count,
        highest_spend_rate_total: spent.unspent_count + spent.spent_count,
        largest_output_amount: amount,
        largest_output_txid: txid,
        largest_output_receiver: receiver,
    };
    Ok(w)
}

/// Whether every account's growth fits in an `i64`.
fn table_growth_fits(table: &Vec<(String, Account)>) -> (r: bool)
    ensures
        r == forall|k: int| 0 <= k < table@.len() ==> fits_i64(growth((#[trigger] table@[k]).1)),
{
    let n = table.len();
    for i in 0..n
        invariant
            n == table@.len(),
            forall|k: int| 0 <= k < i ==> fits_i64(growth((#[trigger] table@[k]).1)),
    {
        let g = growth_of(&table[i].1);
        if g < -9223372036854775808i128 || g > 9223372036854775807i128 {
            return false;
        }
    }
    true
}

/// The table's growths fit exactly when every receiver's growth does.
proof fn lemma_growth_fits_table(entries: Seq<TxModel>, table: Seq<(String, Account)>)
    requires
        counts_fit(entries),
        accounts_view(table) == account_table(entries),
    ensures
        (forall|k: int| 0 <= k < table.len() ==> fits_i64(growth((#[trigger] table[k]).1)))
            == growth_fits(entries),
{
    let u = unspent(all_slots(entries));
    if growth_fits(entries) {
        assert forall|k: int| 0 <= k < table.len() implies fits_i64(growth((#[trigger] table[k]).1)) by {
            assert(accounts_view(table)[k] == account_table(entries)[k]);
            lemma_table_rows(entries, k);
        }
    }
    if forall|k: int| 0 <= k < table.len() ==> fits_i64(growth((#[trigger] table[k]).1)) {
        assert forall|r: Seq<char>| #[trigger] receiver_set(u).contains(r) implies fits_i64(
            address_growth(entries, r),
        ) by {
            let k = lemma_table_covers(entries, r);
            lemma_table_rows(entries, k);
            assert(accounts_view(table)[k] == account_table(entries)[k]);
            assert(fits_i64(growth(table[k].1)));
        }
    }
}

/// Whether every receiver's growth fits in an `i64`.
pub fn growth_computable(entries: &[TxEntry]) -> (r: bool)
    requires
        counts_fit(entries_model(entries@)),
    ensures
        r == growth_fits(entries_model(entries@)),
{
    let table = tally_accounts(entries);
    proof {
        lemma_growth_fits_table(entries_model(entries@), table@);
    }
    table_growth_fits(&table)
}

/// The wallet statistics of the given entries.
pub fn wallet_intelligence_of(entries: &[TxEntry]) -> (r: Result<WalletIntelligence, StatsError>)
    requires
        counts_fit(entries_model(entries@)),
        growth_fits(entries_model(entries@)),
    ensures
        intelligence_result(r, entries_model(entries@)),
{
    let table = tally_accounts(entries);
    proof {
        lemma_growth_fits_table(entries_model(entries@), table@);
    }
    intelligence_from_table(entries, &table)
}

/// The wallet statistics of the transaction entries among the pairs: those whose key is a
/// transaction id and whose value decodes. Besides `NoData` where no output is unspent, it
/// fails where the entries hold more output slots than a `u64` can count, and where some
/// address's growth does not fit in an `i64`.
pub fn wallet_intelligence(raws: &[RawEntry]) -> (r: Result<WalletIntelligence, StatsError>)
    ensures
        ({
            let e = scanned(raws_model(raws@));
            &&& (r == Err::<WalletIntelligence, StatsError>(StatsError::TooManyOutputs)) == !counts_fit(e)
            &&& (r == Err::<WalletIntelligence, StatsError>(StatsError::GrowthOverflow)) == (counts_fit(e)
                && !growth_fits(e))
            &&& counts_fit(e) && growth_fits(e) ==> intelligence_result(r, e)
        }),
{
    let entries = scan_entries(raws);
    if !slots_fit(entries.as_slice()) {
        return Err(StatsError::TooManyOutputs);
    }
    if !growth_computable(entries.as_slice()) {
        return Err(StatsError::GrowthOverflow);
    }
    wallet_intelligence_of(entries.as_slice())
}


/// What `r` received in its first entry is part of what it holds overall.
proof fn lemma_first_entry_le(entries: Seq<TxModel>, r: Seq<char>)
    ensures
        first_entry_amount(entries, r) <= amount_to(unspent(all_slots(entries)), r),
    decreases entries.len(),
{
    if entries.len() > 0 {
        let pre = entries.drop_last();
        assert(entry_slots(entries).drop_last() =~= entry_slots(pre));
        assert(all_slots(entries) == all_slots(pre) + entries.last().outputs);
        lemma_unspent_concat(all_slots(pre), entries.last().outputs);
        lemma_amount_to_concat(unspent(all_slots(pre)), unspent(entries.last().outputs), r);
        lemma_first_entry_le(pre, r);
    }
}

/// The fastest growing address's delta is its unspent total less what it received in the
/// first entry that paid it, where that total fits in an `i64`; and no address whose total
/// fits in an `i64` grew by more than that delta.
pub proof fn law_fastest_growth_is_total_less_first_entry(entries: Seq<TxModel>, w: WalletIntelligence)
    requires
        describes_intelligence(w, entries),
    ensures
        ({
            let u = unspent(all_slots(entries));
            let f = w.fastest_growing_address@;
            &&& amount_to(u, f) <= i64::MAX ==> w.fastest_growing_delta == amount_to(u, f)
                - first_entry_amount(entries, f)
            &&& forall|r: Seq<char>|
                #[trigger] receiver_set(u).contains(r) && amount_to(u, r) <= i64::MAX ==> amount_to(
                    u,
                    r,
                ) - first_entry_amount(entries, r) <= w.fastest_growing_delta
        }),
{
    let u = unspent(all_slots(entries));
    let f = w.fastest_growing_address@;
    lemma_first_entry_le(entries, f);
    assert forall|r: Seq<char>|
        #[trigger] receiver_set(u).contains(r) && amount_to(u, r) <= i64::MAX implies amount_to(u, r)
            - first_entry_amount(entries, r) <= w.fastest_growing_delta by {
        lemma_first_entry_le(entries, r);
        assert(address_growth(entries, r) <= w.fastest_growing_delta);
    }
}

/// An address holds an unspent output of the entries exactly when one of the entries pays
/// it one.
proof fn lemma_paid_by_some_entry(entries: Seq<TxModel>, r: Seq<char>)
    ensures
        receivers(unspent(all_slots(entries))).contains(r) <==> exists|i: int|
            0 <= i < entries.len() && receivers(unspent((#[trigger] entries[i]).outputs)).contains(r),
    decreases entries.len(),
{
    if entries.len() == 0 {
        assert(all_slots(entries) =~= seq![]);
        assert(receivers(unspent(all_slots(entries))) =~= seq![]);
    } else {
        let pre = entries.drop_last();
        let last = entries.last();
        lemma_paid_by_some_entry(pre, r);
        assert(entry_slots(entries).drop_last() =~= entry_slots(pre));
        assert(all_slots(entries) == all_slots(pre) + last.outputs);
        lemma_unspent_concat(all_slots(pre), last.outputs);
        lemma_receivers_concat(unspent(all_slots(pre)), unspent(last.outputs), r);
        if receivers(unspent(all_slots(pre))).contains(r) {
            let i = choose|i: int|
                0 <= i < pre.len() && receivers(unspent((#[trigger] pre[i]).outputs)).contains(r);
            assert(entries[i] == pre[i]);
        } else if receivers(unspent(last.outputs)).contains(r) {
            assert(entries[entries.len() - 1] == last);
        } else {
            assert forall|i: int| 0 <= i < entries.len() implies !receivers(
                unspent((#[trigger] entries[i]).outputs),
            ).contains(r) by {
                if i < pre.len() {
                    assert(entries[i] == pre[i]);
                }
            }
        }
    }
}

/// What an address received in its first entry is what the earliest entry that pays it an
/// unspent output pays it.
pub proof fn law_first_entry_amount(entries: Seq<TxModel>, r: Seq<char>, j: int)
    requires
        0 <= j < entries.len(),
        receivers(unspent(entries[j].outputs)).contains(r),
        forall|i: int| 0 <= i < j ==> !receivers(unspent((#[trigger] entries[i]).outputs)).contains(r),
    ensures
        first_entry_amount(entries, r) == amount_to(unspent(entries[j].outputs), r),
    decreases entries.len(),
{
    let pre = entries.drop_last();
    if j == entries.len() - 1 {
        lemma_paid_by_some_entry(pre, r);
        assert forall|i: int| 0 <= i < pre.len() implies !receivers(
            unspent((#[trigger] pre[i]).outputs),
        ).contains(r) by {
            assert(entries[i] == pre[i]);
        }
    } else {
        lemma_paid_by_some_entry(pre, r);
        assert(pre[j] == entries[j]);
        assert forall|i: int| 0 <= i < j implies !receivers(unspent((#[trigger] pre[i]).outputs)).contains(r) by {
            assert(entries[i] == pre[i]);
        }
        law_first_entry_amount(pre, r, j);
    }
}

/// An address that no entry pays an unspent output received nothing in a first entry.
pub proof fn law_first_entry_amount_unpaid(entries: Seq<TxModel>, r: Seq<char>)
    requires
        forall|i: int|
            0 <= i < entries.len() ==> !receivers(unspent((#[trigger] entries[i]).outputs)).contains(r),
    ensures
        first_entry_amount(entries, r) == 0,
{
    if entries.len() > 0 {
        let pre = entries.drop_last();
        lemma_paid_by_some_entry(pre, r);
        assert forall|i: int| 0 <= i < pre.len() implies !receivers(
            unspent((#[trigger] pre[i]).outputs),
        ).contains(r) by {
            assert(entries[i] == pre[i]);
        }
        assert(entries[entries.len() - 1] == entries.last());
        lemma_absent_receiver(unspent(entries.last().outputs), r);
    }
}

/// An address whose unspent total fits in an `i64` has not shrunk since the first entry
/// that paid it: its growth is never negative.
pub proof fn law_growth_nonnegative(entries: Seq<TxModel>, r: Seq<char>)
    requires
        account_model(entries, r).total_unspent_atomic <= i64::MAX,
    ensures
        address_growth(entries, r) >= 0,
{
    lemma_first_entry_le(entries, r);
}

} // verus!
