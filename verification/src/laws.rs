use vstd::prelude::*;
use vstd::utf8::{decode_utf8, valid_utf8};
use crate::intelligence::{describes_intelligence, tag, tagged_unspent, WalletIntelligence};
use crate::ledger::{
    decoded_values, entry_model, key_txid, lemma_entry_source, scanned, value_slots,
    OutputModel, TxModel,
};
use crate::metrics::{describes_metrics, describes_snapshot, GlobalMetrics, SnapshotRecord};
use crate::tally::{
    all_slots, amount_to, amount_total, balance_table, entry_slots, flatten,
    lemma_amount_to_concat, lemma_amount_to_le_total, lemma_amount_total_concat,
    lemma_receiver_count, lemma_receivers_concat, lemma_spent_count_concat,
    lemma_total_of_balance_table, lemma_unspent_concat, pairs_view, receiver_set, receivers,
    saturate, spent_count, total_of, unspent,
};
use crate::top::is_top;

verus! {

/// `s` is `a` and `b` merged: both in their own order, each element of `s` taken from one
/// of them (as a store is two stores' pairs merged in key order).
pub open spec fn interleaves<A>(s: Seq<A>, a: Seq<A>, b: Seq<A>) -> bool
    decreases s.len(),
{
    if s.len() == 0 {
        a.len() == 0 && b.len() == 0
    } else {
        ||| (a.len() > 0 && a.last() == s.last() && interleaves(s.drop_last(), a.drop_last(), b))
        ||| (b.len() > 0 && b.last() == s.last() && interleaves(s.drop_last(), a, b.drop_last()))
    }
}

/// A sequence merged with nothing is itself.
pub proof fn lemma_interleaves_empty<A>(s: Seq<A>)
    ensures
        interleaves(s, s, Seq::<A>::empty()),
    decreases s.len(),
{
    if s.len() > 0 {
        lemma_interleaves_empty(s.drop_last());
    }
}

/// Only itself is a sequence merged with nothing.
pub proof fn lemma_interleaves_empty_is<A>(s: Seq<A>, a: Seq<A>)
    requires
        interleaves(s, a, Seq::<A>::empty()),
    ensures
        s == a,
    decreases s.len(),
{
    if s.len() == 0 {
        assert(s =~= a);
    } else {
        lemma_interleaves_empty_is(s.drop_last(), a.drop_last());
        assert(s =~= a.drop_last().push(a.last()));
        assert(a =~= a.drop_last().push(a.last()));
    }
}

/// Inserting `x` anywhere merges the sequence with `x` alone.
pub proof fn lemma_insert_interleaves<A>(s: Seq<A>, p: int, x: A)
    requires
        0 <= p <= s.len(),
    ensures
        interleaves(s.insert(p, x), s, seq![x]),
    decreases s.len(),
{
    let t = s.insert(p, x);
    s.insert_ensures(p, x);
    if p == s.len() {
        lemma_interleaves_empty(s);
        assert(t.drop_last() =~= s);
        assert(seq![x].drop_last() =~= Seq::<A>::empty());
    } else {
        let pre = s.drop_last();
        lemma_insert_interleaves(pre, p, x);
        assert(t.drop_last() =~= pre.insert(p, x));
        assert(t.last() == s.last());
    }
}

/// The well-formed entries of merged pairs are the merged well-formed entries.
pub proof fn lemma_scanned_interleaves(
    r: Seq<(Seq<u8>, Seq<u8>)>,
    r1: Seq<(Seq<u8>, Seq<u8>)>,
    r2: Seq<(Seq<u8>, Seq<u8>)>,
)
    requires
        interleaves(r, r1, r2),
    ensures
        interleaves(scanned(r), scanned(r1), scanned(r2)),
    decreases r.len(),
{
    if r.len() > 0 {
        let x = r.last();
        let s0 = scanned(r.drop_last());
        if r1.len() > 0 && r1.last() == x && interleaves(r.drop_last(), r1.drop_last(), r2) {
            lemma_scanned_interleaves(r.drop_last(), r1.drop_last(), r2);
            match entry_model(x) {
                Some(t) => {
                    assert(s0.push(t).drop_last() =~= s0);
                    assert(scanned(r1.drop_last()).push(t).drop_last() =~= scanned(r1.drop_last()));
                },
                None => {},
            }
        } else {
            lemma_scanned_interleaves(r.drop_last(), r1, r2.drop_last());
            match entry_model(x) {
                Some(t) => {
                    assert(s0.push(t).drop_last() =~= s0);
                    assert(scanned(r2.drop_last()).push(t).drop_last() =~= scanned(r2.drop_last()));
                },
                None => {},
            }
        }
    }
}

/// The decoding values of merged pairs are the merged decoding values.
pub proof fn lemma_decoded_interleaves(
    r: Seq<(Seq<u8>, Seq<u8>)>,
    r1: Seq<(Seq<u8>, Seq<u8>)>,
    r2: Seq<(Seq<u8>, Seq<u8>)>,
)
    requires
        interleaves(r, r1, r2),
    ensures
        interleaves(decoded_values(r), decoded_values(r1), decoded_values(r2)),
    decreases r.len(),
{
    if r.len() > 0 {
        let x = r.last();
        let s0 = decoded_values(r.drop_last());
        if r1.len() > 0 && r1.last() == x && interleaves(r.drop_last(), r1.drop_last(), r2) {
            lemma_decoded_interleaves(r.drop_last(), r1.drop_last(), r2);
            match value_slots(x.1) {
                Some(t) => {
                    assert(s0.push(t).drop_last() =~= s0);
                    assert(decoded_values(r1.drop_last()).push(t).drop_last() =~= decoded_values(
                        r1.drop_last(),
                    ));
                },
                None => {},
            }
        } else {
            lemma_decoded_interleaves(r.drop_last(), r1, r2.drop_last());
            match value_slots(x.1) {
                Some(t) => {
                    assert(s0.push(t).drop_last() =~= s0);
                    assert(decoded_values(r2.drop_last()).push(t).drop_last() =~= decoded_values(
                        r2.drop_last(),
                    ));
                },
                None => {},
            }
        }
    }
}

/// The slot lists of merged entries are the merged slot lists.
pub proof fn lemma_entry_slots_interleaves(e: Seq<TxModel>, a: Seq<TxModel>, b: Seq<TxModel>)
    requires
        interleaves(e, a, b),
    ensures
        interleaves(entry_slots(e), entry_slots(a), entry_slots(b)),
    decreases e.len(),
{
    if e.len() > 0 {
        assert(entry_slots(e).drop_last() =~= entry_slots(e.drop_last()));
        if a.len() > 0 && a.last() == e.last() && interleaves(e.drop_last(), a.drop_last(), b) {
            lemma_entry_slots_interleaves(e.drop_last(), a.drop_last(), b);
            assert(entry_slots(a).drop_last() =~= entry_slots(a.drop_last()));
        } else {
            lemma_entry_slots_interleaves(e.drop_last(), a, b.drop_last());
            assert(entry_slots(b).drop_last() =~= entry_slots(b.drop_last()));
        }
    }
}

/// Every count and sum over the slots of merged lists is that of the two lists together.
pub proof fn lemma_flatten_interleaves(
    l: Seq<Seq<Option<OutputModel>>>,
    la: Seq<Seq<Option<OutputModel>>>,
    lb: Seq<Seq<Option<OutputModel>>>,
)
    requires
        interleaves(l, la, lb),
    ensures
        ({
            let (s, sa, sb) = (flatten(l), flatten(la), flatten(lb));
            &&& s.len() == sa.len() + sb.len()
            &&& unspent(s).len() == unspent(sa).len() + unspent(sb).len()
            &&& spent_count(s) == spent_count(sa) + spent_count(sb)
            &&& amount_total(unspent(s)) == amount_total(unspent(sa)) + amount_total(unspent(sb))
            &&& forall|r: Seq<char>|
                #[trigger] amount_to(unspent(s), r) == amount_to(unspent(sa), r) + amount_to(
                    unspent(sb),
                    r,
                )
            &&& forall|r: Seq<char>|
                #[trigger] receivers(unspent(s)).contains(r) <==> receivers(unspent(sa)).contains(r)
                    || receivers(unspent(sb)).contains(r)
        }),
    decreases l.len(),
{
    if l.len() > 0 {
        let x = l.last();
        let from_a = la.len() > 0 && la.last() == x && interleaves(l.drop_last(), la.drop_last(), lb);
        let (l0, la0, lb0) = if from_a {
            (l.drop_last(), la.drop_last(), lb)
        } else {
            (l.drop_last(), la, lb.drop_last())
        };
        lemma_flatten_interleaves(l0, la0, lb0);
        // the list that gave up `x` is its shorter list followed by `x`
        let (p, q) = if from_a { (la0, la) } else { (lb0, lb) };
        assert(flatten(q) == flatten(p) + x);
        assert(flatten(l) == flatten(l0) + x);
        let (s0, p0) = (flatten(l0), flatten(p));
        lemma_unspent_concat(s0, x);
        lemma_unspent_concat(p0, x);
        lemma_spent_count_concat(s0, x);
        lemma_spent_count_concat(p0, x);
        lemma_amount_total_concat(unspent(s0), unspent(x));
        lemma_amount_total_concat(unspent(p0), unspent(x));
        assert forall|r: Seq<char>| #[trigger] amount_to(unspent(flatten(l)), r) == amount_to(
            unspent(flatten(la)),
            r,
        ) + amount_to(unspent(flatten(lb)), r) by {
            lemma_amount_to_concat(unspent(s0), unspent(x), r);
            lemma_amount_to_concat(unspent(p0), unspent(x), r);
        }
        assert forall|r: Seq<char>| #[trigger] receivers(unspent(flatten(l))).contains(r)
            <==> receivers(unspent(flatten(la))).contains(r) || receivers(
            unspent(flatten(lb)),
        ).contains(r) by {
            lemma_receivers_concat(unspent(s0), unspent(x), r);
            lemma_receivers_concat(unspent(p0), unspent(x), r);
        }
    }
}

/// The receivers of merged entries are those of either.
proof fn lemma_receiver_set_union(
    s: Seq<Option<OutputModel>>,
    sa: Seq<Option<OutputModel>>,
    sb: Seq<Option<OutputModel>>,
)
    requires
        forall|r: Seq<char>|
            #[trigger] receivers(unspent(s)).contains(r) <==> receivers(unspent(sa)).contains(r)
                || receivers(unspent(sb)).contains(r),
    ensures
        receiver_set(unspent(s)) == receiver_set(unspent(sa)).union(receiver_set(unspent(sb))),
{
    lemma_receiver_count(unspent(s));
    lemma_receiver_count(unspent(sa));
    lemma_receiver_count(unspent(sb));
    assert(receiver_set(unspent(s)) =~= receiver_set(unspent(sa)).union(
        receiver_set(unspent(sb)),
    ));
}

/// The global metrics of a store merged from two stores add up: entries, slots, unspent and
/// spent outputs and, where the merged total is below `u64::MAX`, the unspent total are the
/// sums of the two; the wallets are at least those of either and at most both together.
pub proof fn law_metrics_of_merged_store(
    raws: Seq<(Seq<u8>, Seq<u8>)>,
    raws1: Seq<(Seq<u8>, Seq<u8>)>,
    raws2: Seq<(Seq<u8>, Seq<u8>)>,
    g: GlobalMetrics,
    g1: GlobalMetrics,
    g2: GlobalMetrics,
)
    requires
        interleaves(raws, raws1, raws2),
        describes_metrics(g, scanned(raws)),
        describes_metrics(g1, scanned(raws1)),
        describes_metrics(g2, scanned(raws2)),
        g.utxo_total_unspent_atomic < u64::MAX,
    ensures
        g.tx_entries_scanned == g1.tx_entries_scanned + g2.tx_entries_scanned,
        g.outputs_total == g1.outputs_total + g2.outputs_total,
        g.outputs_unspent == g1.outputs_unspent + g2.outputs_unspent,
        g.outputs_spent == g1.outputs_spent + g2.outputs_spent,
        g.utxo_total_unspent_atomic == g1.utxo_total_unspent_atomic + g2.utxo_total_unspent_atomic,
        g1.wallets_with_unspent <= g.wallets_with_unspent,
        g2.wallets_with_unspent <= g.wallets_with_unspent,
        g.wallets_with_unspent <= g1.wallets_with_unspent + g2.wallets_with_unspent,
{
    broadcast use vstd::seq_lib::seq_to_set_is_finite;

    let (e, e1, e2) = (scanned(raws), scanned(raws1), scanned(raws2));
    lemma_scanned_interleaves(raws, raws1, raws2);
    lemma_interleaves_len(e, e1, e2);
    lemma_entry_slots_interleaves(e, e1, e2);
    lemma_flatten_interleaves(entry_slots(e), entry_slots(e1), entry_slots(e2));
    let (s, s1, s2) = (all_slots(e), all_slots(e1), all_slots(e2));
    lemma_receiver_set_union(s, s1, s2);
    let (w1, w2) = (receiver_set(unspent(s1)), receiver_set(unspent(s2)));
    vstd::set_lib::lemma_len_union(w1, w2);
    vstd::set_lib::lemma_len_union_ind(w1, w2);
}

/// Merged sequences are as long as both together.
pub proof fn lemma_interleaves_len<A>(s: Seq<A>, a: Seq<A>, b: Seq<A>)
    requires
        interleaves(s, a, b),
    ensures
        s.len() == a.len() + b.len(),
    decreases s.len(),
{
    if s.len() > 0 {
        if a.len() > 0 && a.last() == s.last() && interleaves(s.drop_last(), a.drop_last(), b) {
            lemma_interleaves_len(s.drop_last(), a.drop_last(), b);
        } else {
            lemma_interleaves_len(s.drop_last(), a, b.drop_last());
        }
    }
}

/// Adding a well-formed pair (a transaction id and a value that decodes to `outs`) to a
/// store, at any place, adds one entry, its slots, its unspent outputs and their amounts to
/// the snapshot; where the new circulation is below `u64::MAX`, every address's balance
/// grows by what the new entry pays it.
pub proof fn law_snapshot_after_adding_entry(
    raws: Seq<(Seq<u8>, Seq<u8>)>,
    p: int,
    pair: (Seq<u8>, Seq<u8>),
    outs: Seq<Option<OutputModel>>,
    r: SnapshotRecord,
    t: u64,
    r2: SnapshotRecord,
    t2: u64,
)
    requires
        0 <= p <= raws.len(),
        key_txid(pair.0) is Some,
        value_slots(pair.1) == Some(outs),
        describes_snapshot(r, scanned(raws), t),
        describes_snapshot(r2, scanned(raws.insert(p, pair)), t2),
        r2.circulation < u64::MAX,
    ensures
        r2.tx_count == r.tx_count + 1,
        r2.outputs_total == r.outputs_total + outs.len(),
        r2.outputs_unspent == r.outputs_unspent + unspent(outs).len(),
        r2.circulation == r.circulation + amount_total(unspent(outs)),
        forall|a: Seq<char>|
            #[trigger] total_of(pairs_view(r2.balances@), a) == total_of(pairs_view(r.balances@), a)
                + amount_to(unspent(outs), a),
{
    let raws2 = raws.insert(p, pair);
    let one = seq![pair];
    lemma_insert_interleaves(raws, p, pair);
    lemma_scanned_interleaves(raws2, raws, one);
    let (e2, e, e1) = (scanned(raws2), scanned(raws), scanned(one));
    assert(one.drop_last() =~= Seq::<(Seq<u8>, Seq<u8>)>::empty());
    let x = entry_model(pair).unwrap();
    assert(one.last() == pair);
    assert(scanned(one.drop_last()) =~= Seq::<TxModel>::empty());
    assert(e1 =~= seq![x]);
    lemma_interleaves_len(e2, e, e1);
    lemma_entry_slots_interleaves(e2, e, e1);
    lemma_flatten_interleaves(entry_slots(e2), entry_slots(e), entry_slots(e1));
    assert(entry_slots(e1) =~= seq![outs]);
    assert(seq![outs].drop_last() =~= Seq::<Seq<Option<OutputModel>>>::empty());
    assert(flatten(seq![outs].drop_last()) =~= Seq::<Option<OutputModel>>::empty());
    assert(flatten(seq![outs]) =~= outs);
    assert(all_slots(e1) =~= outs);
    let (u2, u) = (unspent(all_slots(e2)), unspent(all_slots(e)));
    assert forall|a: Seq<char>| #[trigger] total_of(pairs_view(r2.balances@), a) == total_of(
        pairs_view(r.balances@),
        a,
    ) + amount_to(unspent(outs), a) by {
        lemma_total_of_balance_table(u2, a);
        lemma_total_of_balance_table(u, a);
        lemma_amount_to_le_total(u2, a);
        assert(amount_to(u2, a) == amount_to(u, a) + amount_to(unspent(outs), a));
    }
}

/// A pair whose key is no transaction id leaves the snapshot's entries as they are.
pub proof fn law_snapshot_ignores_pair_without_txid(
    raws: Seq<(Seq<u8>, Seq<u8>)>,
    p: int,
    pair: (Seq<u8>, Seq<u8>),
)
    requires
        0 <= p <= raws.len(),
        key_txid(pair.0) is None,
    ensures
        scanned(raws.insert(p, pair)) == scanned(raws),
{
    let one = seq![pair];
    lemma_insert_interleaves(raws, p, pair);
    lemma_scanned_interleaves(raws.insert(p, pair), raws, one);
    assert(one.drop_last() =~= Seq::<(Seq<u8>, Seq<u8>)>::empty());
    assert(one.last() == pair);
    assert(scanned(one.drop_last()) =~= Seq::<TxModel>::empty());
    assert(scanned(one) =~= Seq::<TxModel>::empty());
    lemma_interleaves_empty_is(scanned(raws.insert(p, pair)), scanned(raws));
}

/// The balances over every value of the pairs that decodes, whatever its key.
pub open spec fn all_value_balances(raws: Seq<(Seq<u8>, Seq<u8>)>) -> Seq<(Seq<char>, u64)> {
    balance_table(unspent(flatten(decoded_values(raws))))
}

/// Adding a pair whose value decodes to `outs`, at any place and whatever its key (a key
/// that is no transaction id too), adds to each receiver's total among the top receivers
/// what the pair pays it, where the limits list every receiver and no total reaches
/// `u64::MAX`.
pub proof fn law_top_counts_pair_whatever_its_key(
    raws: Seq<(Seq<u8>, Seq<u8>)>,
    p: int,
    pair: (Seq<u8>, Seq<u8>),
    outs: Seq<Option<OutputModel>>,
    rows: Seq<(Seq<char>, u64)>,
    limit: int,
    rows2: Seq<(Seq<char>, u64)>,
    limit2: int,
)
    requires
        0 <= p <= raws.len(),
        value_slots(pair.1) == Some(outs),
        is_top(rows, all_value_balances(raws), limit),
        limit >= all_value_balances(raws).len(),
        is_top(rows2, all_value_balances(raws.insert(p, pair)), limit2),
        limit2 >= all_value_balances(raws.insert(p, pair)).len(),
        forall|i: int| 0 <= i < rows2.len() ==> (#[trigger] rows2[i]).1 < u64::MAX,
    ensures
        forall|a: Seq<char>|
            #[trigger] total_of(rows2, a) == total_of(rows, a) + amount_to(unspent(outs), a),
{
    let raws2 = raws.insert(p, pair);
    let one = seq![pair];
    lemma_insert_interleaves(raws, p, pair);
    lemma_decoded_interleaves(raws2, raws, one);
    assert(one.drop_last() =~= Seq::<(Seq<u8>, Seq<u8>)>::empty());
    assert(one.last() == pair);
    assert(decoded_values(one.drop_last()) =~= Seq::<Seq<Option<OutputModel>>>::empty());
    assert(decoded_values(one) =~= seq![outs]);
    lemma_flatten_interleaves(decoded_values(raws2), decoded_values(raws), seq![outs]);
    assert(seq![outs].drop_last() =~= Seq::<Seq<Option<OutputModel>>>::empty());
    assert(flatten(seq![outs].drop_last()) =~= Seq::<Option<OutputModel>>::empty());
    assert(flatten(seq![outs]) =~= outs);
    let (u2, u) = (unspent(flatten(decoded_values(raws2))), unspent(flatten(decoded_values(raws))));
    assert forall|a: Seq<char>| #[trigger] total_of(rows2, a) == total_of(rows, a) + amount_to(
        unspent(outs),
        a,
    ) by {
        lemma_top_total(rows, u, a, limit);
        lemma_top_total(rows2, u2, a, limit2);
        lemma_total_of_balance_table(u2, a);
        lemma_total_of_balance_table(u, a);
        assert(amount_to(u2, a) == amount_to(u, a) + amount_to(unspent(outs), a));
        if amount_to(u2, a) > 0 {
            lemma_balance_row(u2, a);
            let i = choose|i: int| 0 <= i < rows2.len() && rows2[i].0 == a;
            assert(rows2[i].1 < u64::MAX);
        }
    }
}

/// A receiver that got something has a row in the balance table.
proof fn lemma_balance_row(u: Seq<OutputModel>, a: Seq<char>)
    requires
        amount_to(u, a) > 0,
    ensures
        exists|i: int|
            0 <= i < balance_table(u).len() && balance_table(u)[i] == (
                a,
                saturate(amount_to(u, a) as int),
            ),
{
    if !receivers(u).contains(a) {
        crate::tally::lemma_absent_receiver(u, a);
    }
    let i = choose|i: int| 0 <= i < receivers(u).len() && receivers(u)[i] == a;
    assert(balance_table(u)[i] == (a, saturate(amount_to(u, a) as int)));
}

/// The complete top receivers list for each address the amount the balance table does.
proof fn lemma_top_total(rows: Seq<(Seq<char>, u64)>, u: Seq<OutputModel>, a: Seq<char>, limit: int)
    requires
        is_top(rows, balance_table(u), limit),
        limit >= balance_table(u).len(),
    ensures
        total_of(rows, a) == total_of(balance_table(u), a),
        amount_to(u, a) > 0 ==> exists|i: int| 0 <= i < rows.len() && rows[i].0 == a,
{
    let b = balance_table(u);
    crate::tally::lemma_receivers(u);
    assert forall|x: int, y: int| 0 <= x < b.len() && 0 <= y < b.len() && x != y implies b[x].0
        != b[y].0 by {
        assert(receivers(u)[x] != receivers(u)[y]);
    }
    crate::top::law_top_lists_every_balance(rows, b, limit);
    crate::tally::lemma_total_of_row(rows, a);
    crate::tally::lemma_total_of_row(b, a);
    if exists|j: int| 0 <= j < b.len() && b[j].0 == a {
        let j = choose|j: int| 0 <= j < b.len() && b[j].0 == a;
        assert(rows.contains(b[j]));
        let i = choose|i: int| 0 <= i < rows.len() && rows[i] == b[j];
    } else {
        assert forall|i: int| 0 <= i < rows.len() implies rows[i].0 != a by {
            assert(b.contains(rows[i]));
        }
    }
    if amount_to(u, a) > 0 {
        lemma_balance_row(u, a);
    }
}

/// The `k`-th unspent output among the slots stands in one of them.
proof fn lemma_unspent_source(s: Seq<Option<OutputModel>>, k: int) -> (m: int)
    requires
        0 <= k < unspent(s).len(),
    ensures
        0 <= m < s.len(),
        s[m] == Some(unspent(s)[k]),
    decreases s.len(),
{
    let pre = s.drop_last();
    if k < unspent(pre).len() {
        let m = lemma_unspent_source(pre, k);
        assert(s[m] == pre[m]);
        m
    } else {
        s.len() - 1
    }
}

/// The `k`-th tagged output is an unspent output of one of the entries, tagged with that
/// entry's id.
proof fn lemma_tagged_source(entries: Seq<TxModel>, k: int) -> (p: (int, int))
    requires
        0 <= k < tagged_unspent(entries).len(),
    ensures
        0 <= p.0 < entries.len(),
        0 <= p.1 < entries[p.0].outputs.len(),
        tagged_unspent(entries)[k].0 == entries[p.0].txid,
        entries[p.0].outputs[p.1] == Some(tagged_unspent(entries)[k].1),
    decreases entries.len(),
{
    let pre = entries.drop_last();
    let last = entries.last();
    if k < tagged_unspent(pre).len() {
        let p = lemma_tagged_source(pre, k);
        assert(entries[p.0] == pre[p.0]);
        p
    } else {
        let t = tag(last.txid, unspent(last.outputs));
        let q = k - tagged_unspent(pre).len();
        assert(tagged_unspent(entries)[k] == t[q]);
        let m = lemma_unspent_source(last.outputs, q);
        assert(entries[entries.len() - 1] == last);
        (entries.len() - 1, m)
    }
}

/// Where the store holds a positive unspent output, the wallet statistics' largest output
/// stands in one of its pairs: the transaction id reported is the whole text of that pair's
/// key, and the pair's value holds an unspent output of that amount to that receiver.
pub proof fn law_largest_output_is_in_a_pair(raws: Seq<(Seq<u8>, Seq<u8>)>, w: WalletIntelligence)
    requires
        describes_intelligence(w, scanned(raws)),
        w.largest_output_amount > 0,
    ensures
        exists|j: int|
            0 <= j < raws.len() && valid_utf8((#[trigger] raws[j]).0) && w.largest_output_txid@
                == decode_utf8(raws[j].0) && (value_slots(raws[j].1) matches Some(s) && exists|m: int|
                0 <= m < s.len() && ((#[trigger] s[m]) matches Some(o) && o.amount == w.largest_output_amount
                    && o.receiver == w.largest_output_receiver@)),
{
    let e = scanned(raws);
    let t = tagged_unspent(e);
    let k = choose|k: int|
        0 <= k < t.len() && (#[trigger] t[k]).1.amount == w.largest_output_amount && t[k].0
            == w.largest_output_txid@ && t[k].1.receiver == w.largest_output_receiver@ && forall|
            k2: int,
        |
            0 <= k2 < k ==> (#[trigger] t[k2]).1.amount < w.largest_output_amount;
    let p = lemma_tagged_source(e, k);
    let j = lemma_entry_source(raws, p.0);
    let s = value_slots(raws[j].1)->Some_0;
    assert(s[p.1] == Some(t[k].1));
}

} // verus!
