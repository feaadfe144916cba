use vstd::prelude::*;
use crate::ledger::{
    decode_values, decoded_values, entry_model, key_txid, raws_model, scanned, slot_lists_model,
    slot_model, slots_model, OutputModel, OutputRecord, RawEntry,
};
use crate::metrics::{describes_snapshot, SnapshotRecord};
use crate::tally::{
    all_slots, balance_table, credit, entry_slots, flatten, lemma_flatten_step, lemma_receivers,
    pairs_view, receivers, unspent,
};

verus! {

/// A receiver's address and the sum of what it holds unspent.
pub struct TopReceiverRow {
    pub receiver_base36: String,
    pub total_unspent: u64,
}

/// Model of a list of rows.
pub open spec fn rows_view(rows: Seq<TopReceiverRow>) -> Seq<(Seq<char>, u64)> {
    rows.map_values(|r: TopReceiverRow| (r.receiver_base36@, r.total_unspent))
}

/// `rows` are `limit` of the balances (all of them where there are fewer), largest first,
/// each address once, and no balance left out is larger than the last row's.
pub open spec fn is_top(rows: Seq<(Seq<char>, u64)>, balances: Seq<(Seq<char>, u64)>, limit: int) -> bool {
    &&& rows.len() == if limit < balances.len() { limit } else { balances.len() as int }
    &&& forall|x: int, y: int| 0 <= x < y < rows.len() ==> rows[x].1 >= rows[y].1
    &&& forall|x: int, y: int|
        0 <= x < rows.len() && 0 <= y < rows.len() && x != y ==> rows[x].0 != rows[y].0
    &&& forall|x: int| 0 <= x < rows.len() ==> balances.contains(#[trigger] rows[x])
    &&& forall|j: int|
        0 <= j < balances.len() && !rows.contains(#[trigger] balances[j]) && rows.len() > 0
            ==> balances[j].1 <= rows.last().1
}

/// Every receiver's balance over the slot lists.
fn tally_lists(lists: &[Vec<Option<OutputRecord>>]) -> (t: Vec<(String, u64)>)
    ensures
        pairs_view(t@) == balance_table(unspent(flatten(slot_lists_model(lists@)))),
{
    let ghost l = slot_lists_model(lists@);
    let mut t: Vec<(String, u64)> = Vec::new();
    let n = lists.len();
    proof {
        assert(l.take(0) =~= Seq::<Seq<Option<OutputModel>>>::empty());
        assert(pairs_view(t@) =~= balance_table(unspent(flatten(l.take(0)))));
    }
    for i in 0..n
        invariant
            n == lists@.len(),
            l == slot_lists_model(lists@),
            pairs_view(t@) == balance_table(unspent(flatten(l.take(i as int)))),
    {
        let ghost p = flatten(l.take(i as int));
        let slots = &lists[i];
        let ghost cur = slots_model(slots@);
        let m = slots.len();
        proof {
            lemma_flatten_step(l, i as int);
            assert(l[i as int] == cur);
            assert(cur.take(0) =~= Seq::<Option<OutputModel>>::empty());
            assert(p + cur.take(0) =~= p);
        }
        for j in 0..m
            invariant
                m == slots@.len(),
                cur == slots_model(slots@),
                pairs_view(t@) == balance_table(unspent(p + cur.take(j as int))),
        {
            let ghost s0 = p + cur.take(j as int);
            let ghost s1 = p + cur.take(j + 1);
            proof {
                assert(s1.drop_last() =~= s0);
                assert(s1.last() == slot_model(slots@[j as int]));
            }
            match &slots[j] {
                Some(o) => {
                    credit(&mut t, o, Ghost(unspent(s0)));
                    assert(unspent(s1) == unspent(s0).push(o@));
                },
                None => {
                    assert(unspent(s1) == unspent(s0));
                },
            }
        }
        proof {
            assert(cur.take(m as int) =~= cur);
        }
    }
    proof {
        assert(l.take(n as int) =~= l);
    }
    t
}

/// The amounts never increase along the rows.
#[verifier::opaque]
pub open spec fn descending(s: Seq<(Seq<char>, u64)>) -> bool {
    forall|a: int, b: int| 0 <= a < b < s.len() ==> s[a].1 >= s[b].1
}

/// Every row is one of the first `i` pairs of `t`.
#[verifier::opaque]
pub open spec fn drawn_from(s: Seq<(Seq<char>, u64)>, t: Seq<(Seq<char>, u64)>, i: int) -> bool {
    forall|x: int| 0 <= x < s.len() ==> exists|j: int| 0 <= j < i && #[trigger] s[x] == t[j]
}

/// Each of the first `i` pairs of `t` is a row.
#[verifier::opaque]
pub open spec fn covers(s: Seq<(Seq<char>, u64)>, t: Seq<(Seq<char>, u64)>, i: int) -> bool {
    forall|j: int| 0 <= j < i ==> exists|x: int| 0 <= x < s.len() && s[x] == #[trigger] t[j]
}

/// No address appears twice.
#[verifier::opaque]
pub open spec fn distinct_keys(s: Seq<(Seq<char>, u64)>) -> bool {
    forall|x: int, y: int| 0 <= x < s.len() && 0 <= y < s.len() && x != y ==> s[x].0 != s[y].0
}

/// Inserting the next pair before the first smaller row keeps the rows descending and
/// makes them exactly the pairs seen so far.
proof fn lemma_insert_row(
    sv: Seq<(Seq<char>, u64)>,
    tv: Seq<(Seq<char>, u64)>,
    i: int,
    p: int,
)
    requires
        0 <= i < tv.len(),
        sv.len() == i,
        0 <= p <= i,
        descending(sv),
        drawn_from(sv, tv, i),
        covers(sv, tv, i),
        distinct_keys(sv),
        distinct_keys(tv),
        forall|k: int| 0 <= k < p ==> sv[k].1 >= tv[i].1,
        p < i ==> sv[p].1 < tv[i].1,
    ensures
        descending(sv.insert(p, tv[i])),
        distinct_keys(sv.insert(p, tv[i])),
        drawn_from(sv.insert(p, tv[i]), tv, i + 1),
        covers(sv.insert(p, tv[i]), tv, i + 1),
{
    reveal(descending);
    reveal(drawn_from);
    reveal(covers);
    reveal(distinct_keys);
    let x = tv[i];
    let sv2 = sv.insert(p, x);
    sv.insert_ensures(p, x);
    assert forall|k: int| p <= k < sv.len() implies sv[k].1 < x.1 by {
        assert(sv[p].1 < x.1);
    }
    assert forall|a: int, b: int| 0 <= a < b < sv2.len() implies sv2[a].1 >= sv2[b].1 by {
        if b < p {
        } else if b == p {
        } else if a < p {
            assert(sv2[b] == sv[b - 1]);
        } else if a == p {
            assert(sv2[b] == sv[b - 1]);
        } else {
            assert(sv2[a] == sv[a - 1]);
            assert(sv2[b] == sv[b - 1]);
        }
    }
    assert forall|k: int| 0 <= k < sv.len() implies sv[k].0 != x.0 by {
        let j = choose|j: int| 0 <= j < i && #[trigger] sv[k] == tv[j];
    }
    assert forall|a: int, b: int|
        0 <= a < sv2.len() && 0 <= b < sv2.len() && a != b implies sv2[a].0 != sv2[b].0 by {
        if a != p && b != p {
            let a1 = if a < p { a } else { a - 1 };
            let b1 = if b < p { b } else { b - 1 };
            assert(sv2[a] == sv[a1]);
            assert(sv2[b] == sv[b1]);
        } else if a == p {
            let b1 = if b < p { b } else { b - 1 };
            assert(sv2[b] == sv[b1]);
        } else {
            let a1 = if a < p { a } else { a - 1 };
            assert(sv2[a] == sv[a1]);
        }
    }
    assert forall|a: int| 0 <= a < sv2.len() implies exists|j: int|
        0 <= j < i + 1 && #[trigger] sv2[a] == tv[j] by {
        if a < p {
            assert(sv2[a] == sv[a]);
        } else if a == p {
            assert(sv2[a] == tv[i]);
        } else {
            assert(sv2[a] == sv[a - 1]);
        }
    }
    assert forall|j: int| 0 <= j < i + 1 implies exists|a: int|
        0 <= a < sv2.len() && sv2[a] == #[trigger] tv[j] by {
        if j == i {
            assert(sv2[p] == tv[j]);
        } else {
            let a = choose|a: int| 0 <= a < sv.len() && sv[a] == #[trigger] tv[j];
            if a < p {
                assert(sv2[a] == tv[j]);
            } else {
                assert(sv2[a + 1] == tv[j]);
            }
        }
    }
}

/// The rows of the table, largest balance first (balances that tie keep table order).
fn sort_rows(table: &Vec<(String, u64)>) -> (sorted: Vec<TopReceiverRow>)
    requires
        distinct_keys(pairs_view(table@)),
    ensures
        distinct_keys(rows_view(sorted@)),
        rows_view(sorted@).len() == table@.len(),
        descending(rows_view(sorted@)),
        drawn_from(rows_view(sorted@), pairs_view(table@), table@.len() as int),
        covers(rows_view(sorted@), pairs_view(table@), table@.len() as int),
{
    let ghost tv = pairs_view(table@);
    let mut sorted: Vec<TopReceiverRow> = Vec::new();
    let n = table.len();
    proof {
        reveal(descending);
        reveal(drawn_from);
        reveal(covers);
        reveal(distinct_keys);
    }
    for i in 0..n
        invariant
            n == table@.len(),
            tv == pairs_view(table@),
            distinct_keys(tv),
            distinct_keys(rows_view(sorted@)),
            rows_view(sorted@).len() == i,
            descending(rows_view(sorted@)),
            drawn_from(rows_view(sorted@), tv, i as int),
            covers(rows_view(sorted@), tv, i as int),
    {
        let ghost sv = rows_view(sorted@);
        let amount = table[i].1;
        let mut p: usize = 0;
        while p < sorted.len() && sorted[p].total_unspent >= amount
            invariant
                p <= sorted@.len(),
                sv == rows_view(sorted@),
                forall|k: int| 0 <= k < p ==> sv[k].1 >= amount,
            decreases sorted@.len() - p,
        {
            p = p + 1;
        }
        let row = TopReceiverRow { receiver_base36: table[i].0.clone(), total_unspent: amount };
        proof {
            assert((row.receiver_base36@, row.total_unspent) == tv[i as int]);
            lemma_insert_row(sv, tv, i as int, p as int);
        }
        sorted.insert(p, row);
        proof {
            assert(rows_view(sorted@) =~= sv.insert(p as int, tv[i as int]));
        }
    }
    sorted
}

/// The `limit` receivers holding the most over the slot lists, largest first.
#[verifier::rlimit(40)]
pub fn top_receivers_of(lists: &[Vec<Option<OutputRecord>>], limit: usize) -> (rows: Vec<
    TopReceiverRow,
>)
    ensures
        is_top(
            rows_view(rows@),
            balance_table(unspent(flatten(slot_lists_model(lists@)))),
            limit as int,
        ),
{
    let table = tally_lists(lists);
    let ghost u = unspent(flatten(slot_lists_model(lists@)));
    let ghost b = balance_table(u);
    proof {
        reveal(distinct_keys);
        lemma_receivers(u);
        assert forall|x: int, y: int|
            0 <= x < b.len() && 0 <= y < b.len() && x != y implies b[x].0 != b[y].0 by {
            assert(receivers(u)[x] != receivers(u)[y]);
        }
        assert(pairs_view(table@) == b);
    }
    let mut rows = sort_rows(&table);
    let ghost sv = rows_view(rows@);
    rows.truncate(limit);
    proof {
        reveal(descending);
        reveal(drawn_from);
        reveal(covers);
        reveal(distinct_keys);
        let tv = pairs_view(table@);
        let rv = rows_view(rows@);
        let len = if (limit as int) < sv.len() { limit as int } else { sv.len() as int };
        assert(rv =~= sv.take(len));
        assert forall|j: int|
            0 <= j < b.len() && !rv.contains(#[trigger] b[j]) && rv.len() > 0 implies b[j].1
                <= rv.last().1 by {
            let k = choose|k: int| 0 <= k < sv.len() && sv[k] == #[trigger] tv[j];
            if k < len {
                assert(rv[k] == b[j]);
            } else {
                assert(sv[len - 1].1 >= sv[k].1);
            }
        }
        assert forall|x: int| 0 <= x < rv.len() implies b.contains(#[trigger] rv[x]) by {
            assert(rv[x] == sv[x]);
            let j = choose|j: int| 0 <= j < tv.len() && #[trigger] sv[x] == tv[j];
        }
        assert forall|x: int, y: int|
            0 <= x < rv.len() && 0 <= y < rv.len() && x != y implies rv[x].0 != rv[y].0 by {
            assert(rv[x] == sv[x]);
            assert(rv[y] == sv[y]);
        }
    }
    rows
}

/// The `limit` receivers holding the most unspent, over every value among the pairs that
/// decodes (whatever its key), largest first.
pub fn top_receivers(raws: &[RawEntry], limit: usize) -> (rows: Vec<TopReceiverRow>)
    ensures
        is_top(
            rows_view(rows@),
            balance_table(unspent(flatten(decoded_values(raws_model(raws@))))),
            limit as int,
        ),
{
    let lists = decode_values(raws);
    top_receivers_of(lists.as_slice(), limit)
}


/// Where the limit is at least the number of balances, the rows list every balance: they
/// are the balances, largest first.
pub proof fn law_top_lists_every_balance(
    rows: Seq<(Seq<char>, u64)>,
    balances: Seq<(Seq<char>, u64)>,
    limit: int,
)
    requires
        is_top(rows, balances, limit),
        limit >= balances.len(),
    ensures
        rows.len() == balances.len(),
        forall|j: int| 0 <= j < balances.len() ==> rows.contains(#[trigger] balances[j]),
{
    broadcast use vstd::seq_lib::seq_to_set_is_finite;

    assert forall|j: int| 0 <= j < balances.len() implies rows.contains(#[trigger] balances[j]) by {
        if !rows.contains(balances[j]) {
            let b = balances[j];
            assert(rows.no_duplicates()) by {
                assert forall|x: int, y: int|
                    0 <= x < rows.len() && 0 <= y < rows.len() && x != y implies rows[x] != rows[y] by {
                    assert(rows[x].0 != rows[y].0);
                }
            }
            rows.unique_seq_to_set();
            balances.lemma_cardinality_of_set();
            assert(balances.to_set().contains(b));
            assert(rows.to_set().subset_of(balances.to_set().remove(b))) by {
                assert forall|e: (Seq<char>, u64)| rows.to_set().contains(e) implies balances.to_set().remove(
                    b,
                ).contains(e) by {
                    let x = choose|x: int| 0 <= x < rows.len() && rows[x] == e;
                    assert(balances.contains(rows[x]));
                }
            }
            vstd::set_lib::lemma_len_subset(rows.to_set(), balances.to_set().remove(b));
        }
    }
}

/// Where every key is a transaction id, the values that decode are exactly the entries'.
proof fn lemma_decoded_are_entries(raws: Seq<(Seq<u8>, Seq<u8>)>)
    requires
        forall|i: int| 0 <= i < raws.len() ==> (#[trigger] key_txid(raws[i].0)) is Some,
    ensures
        decoded_values(raws) == entry_slots(scanned(raws)),
    decreases raws.len(),
{
    if raws.len() > 0 {
        let pre = raws.drop_last();
        assert forall|i: int| 0 <= i < pre.len() implies (#[trigger] key_txid(pre[i].0)) is Some by {
            assert(pre[i] == raws[i]);
        }
        lemma_decoded_are_entries(pre);
        assert(key_txid(raws[raws.len() - 1].0) is Some);
        match entry_model(raws.last()) {
            Some(t) => {
                assert(entry_slots(scanned(pre).push(t)) =~= entry_slots(scanned(pre)).push(t.outputs));
            },
            None => {},
        }
    }
}

/// Where every key is a transaction id and the limit is at least the number of wallets,
/// the top receivers are the snapshot's balances, largest first.
pub proof fn law_top_matches_snapshot(
    raws: Seq<(Seq<u8>, Seq<u8>)>,
    rows: Seq<(Seq<char>, u64)>,
    limit: int,
    s: SnapshotRecord,
    timestamp: u64,
)
    requires
        forall|i: int| 0 <= i < raws.len() ==> (#[trigger] key_txid(raws[i].0)) is Some,
        is_top(rows, balance_table(unspent(flatten(decoded_values(raws)))), limit),
        describes_snapshot(s, scanned(raws), timestamp),
        limit >= s.balances@.len(),
    ensures
        rows.len() == s.balances@.len(),
        forall|j: int|
            0 <= j < s.balances@.len() ==> rows.contains(#[trigger] pairs_view(s.balances@)[j]),
{
    lemma_decoded_are_entries(raws);
    let b = pairs_view(s.balances@);
    assert(b == balance_table(unspent(all_slots(scanned(raws)))));
    law_top_lists_every_balance(rows, b, limit);
}


/// Among `i + 1` distinct rows drawn from the balances, one has an amount no larger than
/// the `i`-th amount of a top list of them.
proof fn lemma_top_bound(
    r1: Seq<(Seq<char>, u64)>,
    r2: Seq<(Seq<char>, u64)>,
    balances: Seq<(Seq<char>, u64)>,
    k2: int,
    i: int,
)
    requires
        is_top(r2, balances, k2),
        0 <= i < r2.len(),
        i < r1.len(),
        forall|x: int, y: int| 0 <= x < r1.len() && 0 <= y < r1.len() && x != y ==> r1[x].0 != r1[y].0,
        forall|x: int| 0 <= x < r1.len() ==> balances.contains(#[trigger] r1[x]),
    ensures
        exists|x: int| 0 <= x <= i && (#[trigger] r1[x]).1 <= r2[i].1,
{
    broadcast use vstd::seq_lib::seq_to_set_is_finite;

    if !exists|x: int| 0 <= x <= i && (#[trigger] r1[x]).1 <= r2[i].1 {
        let xs = r1.take(i + 1);
        let ys = r2.take(i);
        assert(xs.no_duplicates()) by {
            assert forall|x: int, y: int| 0 <= x < xs.len() && 0 <= y < xs.len() && x != y implies xs[x]
                != xs[y] by {
                assert(r1[x].0 != r1[y].0);
            }
        }
        xs.unique_seq_to_set();
        ys.lemma_cardinality_of_set();
        assert(xs.to_set().subset_of(ys.to_set())) by {
            assert forall|e: (Seq<char>, u64)| xs.to_set().contains(e) implies ys.to_set().contains(e) by {
                let x = choose|x: int| 0 <= x < xs.len() && xs[x] == e;
                assert(xs[x] == r1[x]);
                assert(balances.contains(r1[x]));
                let j = choose|j: int| 0 <= j < balances.len() && balances[j] == e;
                if !r2.contains(balances[j]) {
                    assert(balances[j].1 <= r2.last().1);
                    assert(r2[i].1 >= r2[r2.len() - 1].1);
                } else {
                    let k = choose|k: int| 0 <= k < r2.len() && r2[k] == e;
                    if k >= i {
                        if k > i {
                            assert(r2[i].1 >= r2[k].1);
                        }
                    } else {
                        assert(ys[k] == e);
                    }
                }
            }
        }
        vstd::set_lib::lemma_len_subset(xs.to_set(), ys.to_set());
    }
}

/// On the same balances, the top list for a smaller limit is no longer than that for a
/// larger one, and its amounts are the first amounts of the larger list (with limit 0 it is
/// empty).
pub proof fn law_top_prefix(
    r1: Seq<(Seq<char>, u64)>,
    r2: Seq<(Seq<char>, u64)>,
    balances: Seq<(Seq<char>, u64)>,
    k1: int,
    k2: int,
)
    requires
        0 <= k1 <= k2,
        is_top(r1, balances, k1),
        is_top(r2, balances, k2),
    ensures
        r1.len() <= r2.len(),
        forall|i: int| 0 <= i < r1.len() ==> (#[trigger] r1[i]).1 == r2[i].1,
        k1 == 0 ==> r1.len() == 0,
{
    assert forall|i: int| 0 <= i < r1.len() implies (#[trigger] r1[i]).1 == r2[i].1 by {
        if r1[i].1 > r2[i].1 {
            lemma_top_bound(r1, r2, balances, k2, i);
            let x = choose|x: int| 0 <= x <= i && (#[trigger] r1[x]).1 <= r2[i].1;
            if x < i {
                assert(r1[x].1 >= r1[i].1);
            }
        } else if r1[i].1 < r2[i].1 {
            lemma_top_bound(r2, r1, balances, k1, i);
            let x = choose|x: int| 0 <= x <= i && (#[trigger] r2[x]).1 <= r1[i].1;
            if x < i {
                assert(r2[x].1 >= r2[i].1);
            }
        }
    }
}

} // verus!
