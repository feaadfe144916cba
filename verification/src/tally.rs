use vstd::prelude::*;
use crate::ledger::{entries_model, slot_model, slots_model, OutputModel, OutputRecord, TxEntry, TxModel};

verus! {

/// All output slots of the lists, in order.
pub open spec fn flatten(lists: Seq<Seq<Option<OutputModel>>>) -> Seq<Option<OutputModel>>
    decreases lists.len(),
{
    if lists.len() == 0 {
        seq![]
    } else {
        flatten(lists.drop_last()) + lists.last()
    }
}

/// The slot lists of the entries.
pub open spec fn entry_slots(entries: Seq<TxModel>) -> Seq<Seq<Option<OutputModel>>> {
    entries.map_values(|e: TxModel| e.outputs)
}

/// All output slots of the entries, in order.
pub open spec fn all_slots(entries: Seq<TxModel>) -> Seq<Option<OutputModel>> {
    flatten(entry_slots(entries))
}

/// The unspent outputs among the slots, in order.
pub open spec fn unspent(slots: Seq<Option<OutputModel>>) -> Seq<OutputModel>
    decreases slots.len(),
{
    if slots.len() == 0 {
        seq![]
    } else {
        let rest = unspent(slots.drop_last());
        match slots.last() {
            Some(o) => rest.push(o),
            None => rest,
        }
    }
}

/// The number of spent slots.
pub open spec fn spent_count(slots: Seq<Option<OutputModel>>) -> nat
    decreases slots.len(),
{
    if slots.len() == 0 {
        0
    } else {
        spent_count(slots.drop_last()) + if slots.last() is None { 1nat } else { 0nat }
    }
}

/// The sum of the amounts of the outputs.
pub open spec fn amount_total(outs: Seq<OutputModel>) -> nat
    decreases outs.len(),
{
    if outs.len() == 0 {
        0
    } else {
        amount_total(outs.drop_last()) + outs.last().amount as nat
    }
}

/// The sum of the amounts of the outputs paid to `r`.
pub open spec fn amount_to(outs: Seq<OutputModel>, r: Seq<char>) -> nat
    decreases outs.len(),
{
    if outs.len() == 0 {
        0
    } else {
        amount_to(outs.drop_last(), r) + if outs.last().receiver == r {
            outs.last().amount as nat
        } else {
            0nat
        }
    }
}

/// The number of the outputs paid to `r`.
pub open spec fn count_to(outs: Seq<OutputModel>, r: Seq<char>) -> nat
    decreases outs.len(),
{
    if outs.len() == 0 {
        0
    } else {
        count_to(outs.drop_last(), r) + if outs.last().receiver == r { 1nat } else { 0nat }
    }
}

/// The receivers of the outputs, each once, in order of first appearance.
pub open spec fn receivers(outs: Seq<OutputModel>) -> Seq<Seq<char>>
    decreases outs.len(),
{
    if outs.len() == 0 {
        seq![]
    } else {
        let rs = receivers(outs.drop_last());
        if rs.contains(outs.last().receiver) {
            rs
        } else {
            rs.push(outs.last().receiver)
        }
    }
}

/// The set of receivers of the outputs.
pub open spec fn receiver_set(outs: Seq<OutputModel>) -> Set<Seq<char>> {
    outs.map_values(|o: OutputModel| o.receiver).to_set()
}

/// `n`, or `u64::MAX` where `n` is larger.
pub open spec fn saturate(n: int) -> u64 {
    if n > u64::MAX {
        u64::MAX
    } else {
        n as u64
    }
}

/// Each receiver, in order of first appearance, with the saturated sum of what it received.
pub open spec fn balance_table(outs: Seq<OutputModel>) -> Seq<(Seq<char>, u64)> {
    receivers(outs).map_values(|r: Seq<char>| (r, saturate(amount_to(outs, r) as int)))
}

/// Model of a list of (address, amount) pairs.
pub open spec fn pairs_view(t: Seq<(String, u64)>) -> Seq<(Seq<char>, u64)> {
    t.map_values(|p: (String, u64)| (p.0@, p.1))
}

/// The addresses of a table keyed by address.
pub open spec fn key_seq<V>(t: Seq<(String, V)>) -> Seq<Seq<char>> {
    t.map_values(|p: (String, V)| p.0@)
}

/// The receivers are distinct, and they are exactly those of the outputs.
pub proof fn lemma_receivers(outs: Seq<OutputModel>)
    ensures
        receivers(outs).no_duplicates(),
        forall|r: Seq<char>|
            receivers(outs).contains(r) <==> exists|i: int|
                0 <= i < outs.len() && (#[trigger] outs[i]).receiver == r,
    decreases outs.len(),
{
    broadcast use vstd::seq_lib::lemma_seq_contains_after_push;

    if outs.len() > 0 {
        let pre = outs.drop_last();
        let rs = receivers(pre);
        let x = outs.last().receiver;
        lemma_receivers(pre);
        if !rs.contains(x) {
            assert(receivers(outs) == rs.push(x));
            assert forall|a: int, b: int|
                0 <= a < rs.push(x).len() && 0 <= b < rs.push(x).len() && a != b implies
                rs.push(x)[a] != rs.push(x)[b] by {
                if a < rs.len() && b < rs.len() {
                } else if a < rs.len() {
                    assert(rs.contains(rs[a]));
                } else if b < rs.len() {
                    assert(rs.contains(rs[b]));
                }
            }
        } else {
            assert(receivers(outs) == rs);
        }
        assert forall|r: Seq<char>|
            receivers(outs).contains(r) <==> exists|i: int|
                0 <= i < outs.len() && (#[trigger] outs[i]).receiver == r by {
            if rs.contains(r) {
                let i = choose|i: int| 0 <= i < pre.len() && (#[trigger] pre[i]).receiver == r;
                assert(outs[i] == pre[i]);
            }
            if r == x {
                assert(outs[outs.len() - 1].receiver == r);
            }
            if exists|i: int| 0 <= i < outs.len() && (#[trigger] outs[i]).receiver == r {
                let i = choose|i: int| 0 <= i < outs.len() && (#[trigger] outs[i]).receiver == r;
                if i < outs.len() - 1 {
                    assert(pre[i] == outs[i]);
                }
            }
        }
    }
}

/// The number of distinct receivers is the size of the receiver set.
pub proof fn lemma_receiver_count(outs: Seq<OutputModel>)
    ensures
        receivers(outs).len() == receiver_set(outs).len(),
        receivers(outs).to_set() == receiver_set(outs),
        forall|r: Seq<char>| receivers(outs).contains(r) <==> receiver_set(outs).contains(r),
{
    lemma_receivers(outs);
    let m = outs.map_values(|o: OutputModel| o.receiver);
    assert forall|r: Seq<char>| receivers(outs).contains(r) <==> receiver_set(outs).contains(r) by {
        if receiver_set(outs).contains(r) {
            assert(m.contains(r));
            let i = choose|i: int| 0 <= i < m.len() && m[i] == r;
            assert(outs[i].receiver == r);
        }
        if receivers(outs).contains(r) {
            let i = choose|i: int| 0 <= i < outs.len() && (#[trigger] outs[i]).receiver == r;
            assert(m[i] == r);
            assert(m.contains(r));
        }
    }
    assert(receivers(outs).to_set() =~= receiver_set(outs));
    receivers(outs).unique_seq_to_set();
}

/// A receiver that never appears received nothing.
pub proof fn lemma_absent_receiver(outs: Seq<OutputModel>, r: Seq<char>)
    requires
        !receivers(outs).contains(r),
    ensures
        amount_to(outs, r) == 0,
        count_to(outs, r) == 0,
    decreases outs.len(),
{
    broadcast use vstd::seq_lib::lemma_seq_contains_after_push;

    if outs.len() > 0 {
        let pre = outs.drop_last();
        if receivers(pre).contains(r) {
            assert(receivers(outs).contains(r));
        }
        if outs.last().receiver == r {
            assert(receivers(outs).contains(r));
        }
        lemma_absent_receiver(pre, r);
    }
}

/// Every slot is either spent or unspent.
pub proof fn lemma_slot_split(s: Seq<Option<OutputModel>>)
    ensures
        unspent(s).len() + spent_count(s) == s.len(),
    decreases s.len(),
{
    if s.len() > 0 {
        lemma_slot_split(s.drop_last());
    }
}

/// A prefix of the lists has no more slots than all of them.
pub proof fn lemma_flatten_take_len(l: Seq<Seq<Option<OutputModel>>>, i: int)
    requires
        0 <= i <= l.len(),
    ensures
        flatten(l.take(i)).len() <= flatten(l).len(),
    decreases l.len(),
{
    if i < l.len() {
        assert(l.drop_last().take(i) =~= l.take(i));
        lemma_flatten_take_len(l.drop_last(), i);
    } else {
        assert(l.take(i) =~= l);
    }
}

/// The slots of the first `i + 1` lists are those of the first `i` and then list `i`.
pub proof fn lemma_flatten_step(l: Seq<Seq<Option<OutputModel>>>, i: int)
    requires
        0 <= i < l.len(),
    ensures
        flatten(l.take(i + 1)) == flatten(l.take(i)) + l[i],
{
    assert(l.take(i + 1).drop_last() =~= l.take(i));
}

/// The unspent outputs of two runs of slots are those of the first and then the second.
pub proof fn lemma_unspent_concat(a: Seq<Option<OutputModel>>, b: Seq<Option<OutputModel>>)
    ensures
        unspent(a + b) == unspent(a) + unspent(b),
    decreases b.len(),
{
    if b.len() == 0 {
        assert(a + b =~= a);
        assert(unspent(a) + unspent(b) =~= unspent(a));
    } else {
        lemma_unspent_concat(a, b.drop_last());
        assert((a + b).drop_last() =~= a + b.drop_last());
        assert((a + b).last() == b.last());
        match b.last() {
            Some(o) => {
                assert(unspent(a) + unspent(b) =~= (unspent(a) + unspent(b.drop_last())).push(o));
            },
            None => {},
        }
    }
}

/// A receiver appears in the outputs of two runs exactly when it appears in one of them.
pub proof fn lemma_receivers_concat(a: Seq<OutputModel>, b: Seq<OutputModel>, r: Seq<char>)
    ensures
        receivers(a + b).contains(r) <==> receivers(a).contains(r) || receivers(b).contains(r),
{
    lemma_receivers(a);
    lemma_receivers(b);
    lemma_receivers(a + b);
    let c = a + b;
    if receivers(a).contains(r) {
        let i = choose|i: int| 0 <= i < a.len() && (#[trigger] a[i]).receiver == r;
        assert(c[i] == a[i]);
    }
    if receivers(b).contains(r) {
        let i = choose|i: int| 0 <= i < b.len() && (#[trigger] b[i]).receiver == r;
        assert(c[a.len() + i] == b[i]);
    }
    if receivers(c).contains(r) {
        let i = choose|i: int| 0 <= i < c.len() && (#[trigger] c[i]).receiver == r;
        if i < a.len() {
            assert(a[i] == c[i]);
        } else {
            assert(b[i - a.len()] == c[i]);
        }
    }
}

/// No receiver is paid more often than there are outputs, and every listed receiver is
/// paid at least once.
pub proof fn lemma_count_bounds(u: Seq<OutputModel>, r: Seq<char>)
    ensures
        count_to(u, r) <= u.len(),
        receivers(u).contains(r) ==> count_to(u, r) >= 1,
    decreases u.len(),
{
    broadcast use vstd::seq_lib::lemma_seq_contains_after_push;

    if u.len() > 0 {
        lemma_count_bounds(u.drop_last(), r);
    }
}

/// There are no more unspent outputs than slots.
pub proof fn lemma_unspent_len(s: Seq<Option<OutputModel>>)
    ensures
        unspent(s).len() <= s.len(),
{
    lemma_slot_split(s);
}

/// The first position of `key` in the table, if it is there.
pub fn find_key<V>(table: &Vec<(String, V)>, key: &String) -> (r: Option<usize>)
    ensures
        match r {
            Some(i) => i < table@.len() && table@[i as int].0@ == key@ && forall|k: int|
                0 <= k < i ==> table@[k].0@ != key@,
            None => !key_seq(table@).contains(key@),
        },
{
    let n = table.len();
    for i in 0..n
        invariant
            n == table@.len(),
            forall|k: int| 0 <= k < i ==> table@[k].0@ != key@,
    {
        if table[i].0 == *key {
            return Some(i);
        }
    }
    assert forall|k: int| 0 <= k < key_seq(table@).len() implies key_seq(table@)[k] != key@ by {
        assert(key_seq(table@)[k] == table@[k].0@);
    }
    None
}

/// Credits an output to its receiver in a balance table.
pub(crate) fn credit(
    table: &mut Vec<(String, u64)>,
    o: &OutputRecord,
    Ghost(outs): Ghost<Seq<OutputModel>>,
)
    requires
        pairs_view(old(table)@) == balance_table(outs),
    ensures
        pairs_view(final(table)@) == balance_table(outs.push(o@)),
{
    let ghost after = outs.push(o@);
    let ghost r = o.receiver@;
    proof {
        assert(after.drop_last() =~= outs);
        assert(table@ == old(table)@);
        assert(pairs_view(table@) == balance_table(outs));
        assert(pairs_view(table@).len() == table@.len());
        lemma_receivers(outs);
        assert forall|k: int| 0 <= k < table@.len() implies key_seq(table@)[k]
            == receivers(outs)[k] by {
            assert(pairs_view(table@)[k] == balance_table(outs)[k]);
        }
        assert(key_seq(table@) =~= receivers(outs));
        assert forall|x: Seq<char>| x != r implies amount_to(after, x) == amount_to(outs, x) by {}
        assert(amount_to(after, r) == amount_to(outs, r) + o.amount);
    }
    match find_key(table, &o.receiver) {
        Some(i) => {
            let cur = table[i].1;
            let key = table[i].0.clone();
            let ghost old_view = pairs_view(table@);
            table.set(i, (key, cur.saturating_add(o.amount)));
            proof {
                assert(receivers(outs).contains(r)) by {
                    assert(receivers(outs)[i as int] == r);
                }
                assert(receivers(after) == receivers(outs));
                assert(old_view[i as int] == balance_table(outs)[i as int]);
                assert forall|k: int| 0 <= k < receivers(outs).len() implies
                    #[trigger] pairs_view(table@)[k] == balance_table(after)[k] by {
                    assert(old_view[k] == balance_table(outs)[k]);
                    if k != i {
                        assert(receivers(outs)[k] != receivers(outs)[i as int]);
                    }
                }
                assert(pairs_view(table@) =~= balance_table(after));
            }
        },
        None => {
            table.push((o.receiver.clone(), o.amount));
            proof {
                lemma_absent_receiver(outs, r);
                assert(!receivers(outs).contains(r));
                assert(receivers(after) == receivers(outs).push(r));
                assert forall|k: int| 0 <= k < receivers(outs).len() implies
                    #[trigger] pairs_view(table@)[k] == balance_table(after)[k] by {
                    assert(receivers(outs).contains(receivers(outs)[k]));
                    assert(pairs_view(table@)[k] == balance_table(outs)[k]);
                }
                assert(pairs_view(table@) =~= balance_table(after));
            }
        },
    }
}

/// Counters and balances over a run of output slots.
pub struct Totals {
    pub outputs_total: u64,
    pub outputs_unspent: u64,
    pub outputs_spent: u64,
    pub circulation: u64,
    pub balances: Vec<(String, u64)>,
}

/// The totals are those of the slots `s`.
pub open spec fn totals_match(t: Totals, s: Seq<Option<OutputModel>>) -> bool {
    &&& t.outputs_total == s.len()
    &&& t.outputs_unspent == unspent(s).len()
    &&& t.outputs_spent == spent_count(s)
    &&& t.circulation == saturate(amount_total(unspent(s)) as int)
    &&& pairs_view(t.balances@) == balance_table(unspent(s))
}

/// Adds a list of slots to the totals.
pub(crate) fn absorb_slots(
    t: &mut Totals,
    slots: &Vec<Option<OutputRecord>>,
    Ghost(prior): Ghost<Seq<Option<OutputModel>>>,
)
    requires
        totals_match(*old(t), prior),
        prior.len() + slots@.len() <= u64::MAX,
    ensures
        totals_match(*final(t), prior + slots_model(slots@)),
{
    let n = slots.len();
    t.outputs_total = t.outputs_total + n as u64;
    let ghost sm = slots_model(slots@);
    for j in 0..n
        invariant
            n == slots@.len(),
            sm == slots_model(slots@),
            prior.len() + n <= u64::MAX,
            t.outputs_total == prior.len() + n,
            ({
                let s = prior + sm.take(j as int);
                &&& t.outputs_unspent == unspent(s).len()
                &&& t.outputs_spent == spent_count(s)
                &&& t.circulation == saturate(amount_total(unspent(s)) as int)
                &&& pairs_view(t.balances@) == balance_table(unspent(s))
            }),
    {
        let ghost s0 = prior + sm.take(j as int);
        let ghost s1 = prior + sm.take(j + 1);
        proof {
            assert(s1.drop_last() =~= s0);
            assert(s1.last() == slot_model(slots@[j as int]));
            lemma_slot_split(s0);
        }
        match &slots[j] {
            Some(o) => {
                t.outputs_unspent = t.outputs_unspent + 1;
                t.circulation = t.circulation.saturating_add(o.amount);
                credit(&mut t.balances, o, Ghost(unspent(s0)));
                assert(unspent(s1) == unspent(s0).push(o@));
                assert(unspent(s0).push(o@).drop_last() =~= unspent(s0));
                assert(amount_total(unspent(s1)) == amount_total(unspent(s0)) + o.amount);
                assert(spent_count(s1) == spent_count(s0));
            },
            None => {
                t.outputs_spent = t.outputs_spent + 1;
                assert(unspent(s1) == unspent(s0));
                assert(spent_count(s1) == spent_count(s0) + 1);
            },
        }
    }
    assert(sm.take(n as int) =~= sm);
}

/// Empty totals.
pub(crate) fn empty_totals() -> (t: Totals)
    ensures
        totals_match(t, seq![]),
{
    let t = Totals {
        outputs_total: 0,
        outputs_unspent: 0,
        outputs_spent: 0,
        circulation: 0,
        balances: Vec::new(),
    };
    assert(pairs_view(t.balances@) =~= balance_table(seq![]));
    t
}

/// The totals over all slots of the entries.
pub(crate) fn totals_of(entries: &[TxEntry]) -> (t: Totals)
    requires
        all_slots(entries_model(entries@)).len() <= u64::MAX,
    ensures
        totals_match(t, all_slots(entries_model(entries@))),
{
    let ghost l = entry_slots(entries_model(entries@));
    let mut t = empty_totals();
    let n = entries.len();
    proof {
        assert(l.take(0) =~= Seq::<Seq<Option<OutputModel>>>::empty());
    }
    for i in 0..n
        invariant
            n == entries@.len(),
            l == entry_slots(entries_model(entries@)),
            flatten(l).len() <= u64::MAX,
            totals_match(t, flatten(l.take(i as int))),
    {
        proof {
            lemma_flatten_step(l, i as int);
            lemma_flatten_take_len(l, i + 1);
            assert(l[i as int] == slots_model(entries@[i as int].outputs@));
        }
        absorb_slots(&mut t, &entries[i].outputs, Ghost(flatten(l.take(i as int))));
    }
    proof {
        assert(l.take(n as int) =~= l);
    }
    t
}

/// Whether the entries hold at most `u64::MAX` output slots.
pub fn slots_fit(entries: &[TxEntry]) -> (r: bool)
    ensures
        r == (all_slots(entries_model(entries@)).len() <= u64::MAX),
{
    let ghost l = entry_slots(entries_model(entries@));
    let mut acc: u64 = 0;
    let n = entries.len();
    proof {
        assert(l.take(0) =~= Seq::<Seq<Option<OutputModel>>>::empty());
    }
    for i in 0..n
        invariant
            n == entries@.len(),
            l == entry_slots(entries_model(entries@)),
            acc == flatten(l.take(i as int)).len(),
    {
        proof {
            lemma_flatten_step(l, i as int);
            assert(l[i as int].len() == entries@[i as int].outputs@.len());
        }
        let len = entries[i].outputs.len();
        if (acc as u128) + (len as u128) > (u64::MAX as u128) {
            proof {
                lemma_flatten_take_len(l, i + 1);
            }
            return false;
        }
        acc = acc + len as u64;
    }
    proof {
        assert(l.take(n as int) =~= l);
    }
    true
}


/// What two runs of outputs paid to `r` together is what each paid.
pub proof fn lemma_amount_to_concat(a: Seq<OutputModel>, b: Seq<OutputModel>, r: Seq<char>)
    ensures
        amount_to(a + b, r) == amount_to(a, r) + amount_to(b, r),
    decreases b.len(),
{
    if b.len() == 0 {
        assert(a + b =~= a);
    } else {
        lemma_amount_to_concat(a, b.drop_last(), r);
        assert((a + b).drop_last() =~= a + b.drop_last());
        assert((a + b).last() == b.last());
    }
}

/// No receiver got more than all outputs together.
pub proof fn lemma_amount_to_le_total(u: Seq<OutputModel>, r: Seq<char>)
    ensures
        amount_to(u, r) <= amount_total(u),
    decreases u.len(),
{
    if u.len() > 0 {
        lemma_amount_to_le_total(u.drop_last(), r);
    }
}

/// The sum of what the `keys` received.
pub open spec fn amount_to_all(keys: Seq<Seq<char>>, u: Seq<OutputModel>) -> nat
    decreases keys.len(),
{
    if keys.len() == 0 {
        0
    } else {
        amount_to_all(keys.drop_last(), u) + amount_to(u, keys.last())
    }
}

/// The sum of the amounts of a table of pairs.
pub open spec fn pairs_sum(t: Seq<(Seq<char>, u64)>) -> nat
    decreases t.len(),
{
    if t.len() == 0 {
        0
    } else {
        pairs_sum(t.drop_last()) + t.last().1 as nat
    }
}

/// One more output adds its amount to the sum of what distinct keys received, where its
/// receiver is one of them.
pub proof fn lemma_amount_to_all_push(keys: Seq<Seq<char>>, u: Seq<OutputModel>, o: OutputModel)
    requires
        keys.no_duplicates(),
    ensures
        amount_to_all(keys, u.push(o)) == amount_to_all(keys, u) + if keys.contains(o.receiver) {
            o.amount as nat
        } else {
            0nat
        },
    decreases keys.len(),
{
    broadcast use vstd::seq_lib::lemma_seq_contains_after_push;

    assert(u.push(o).drop_last() =~= u);
    if keys.len() > 0 {
        let pre = keys.drop_last();
        assert(pre.no_duplicates()) by {
            assert forall|a: int, b: int| 0 <= a < pre.len() && 0 <= b < pre.len() && a != b implies pre[a]
                != pre[b] by {
                assert(pre[a] == keys[a]);
                assert(pre[b] == keys[b]);
            }
        }
        lemma_amount_to_all_push(pre, u, o);
        assert(keys =~= pre.push(keys.last()));
        if keys.last() == o.receiver {
            assert(!pre.contains(o.receiver)) by {
                if pre.contains(o.receiver) {
                    let a = choose|a: int| 0 <= a < pre.len() && pre[a] == o.receiver;
                    assert(keys[a] == keys[keys.len() - 1]);
                }
            }
        }
    }
}

/// What all receivers received is what all outputs sum to.
pub proof fn lemma_amount_to_all_receivers(u: Seq<OutputModel>)
    ensures
        amount_to_all(receivers(u), u) == amount_total(u),
    decreases u.len(),
{
    if u.len() > 0 {
        let pre = u.drop_last();
        let o = u.last();
        assert(pre.push(o) =~= u);
        lemma_amount_to_all_receivers(pre);
        lemma_receivers(pre);
        lemma_amount_to_all_push(receivers(pre), pre, o);
        if !receivers(pre).contains(o.receiver) {
            lemma_absent_receiver(pre, o.receiver);
            assert(receivers(u) == receivers(pre).push(o.receiver));
            assert(receivers(u).drop_last() =~= receivers(pre));
            assert(amount_to(u, o.receiver) == amount_to(pre, o.receiver) + o.amount);
        }
    }
}

/// Where no sum is held at `u64::MAX`, the amounts of a table of saturated sums add up to
/// what the keys received.
pub proof fn lemma_pairs_sum_keys(keys: Seq<Seq<char>>, u: Seq<OutputModel>)
    requires
        amount_total(u) <= u64::MAX,
    ensures
        pairs_sum(keys.map_values(|r: Seq<char>| (r, saturate(amount_to(u, r) as int))))
            == amount_to_all(keys, u),
    decreases keys.len(),
{
    let t = keys.map_values(|r: Seq<char>| (r, saturate(amount_to(u, r) as int)));
    if keys.len() > 0 {
        let pre = keys.drop_last();
        lemma_pairs_sum_keys(pre, u);
        assert(t.drop_last() =~= pre.map_values(
            |r: Seq<char>| (r, saturate(amount_to(u, r) as int)),
        ));
        lemma_amount_to_le_total(u, keys.last());
    }
}

/// Where the unspent total fits in a `u64`, the balances add up to it.
pub proof fn lemma_balances_add_up(u: Seq<OutputModel>)
    requires
        amount_total(u) <= u64::MAX,
    ensures
        pairs_sum(balance_table(u)) == amount_total(u),
{
    lemma_pairs_sum_keys(receivers(u), u);
    lemma_amount_to_all_receivers(u);
}


/// The spent slots of two runs are those of each.
pub proof fn lemma_spent_count_concat(a: Seq<Option<OutputModel>>, b: Seq<Option<OutputModel>>)
    ensures
        spent_count(a + b) == spent_count(a) + spent_count(b),
    decreases b.len(),
{
    if b.len() == 0 {
        assert(a + b =~= a);
    } else {
        lemma_spent_count_concat(a, b.drop_last());
        assert((a + b).drop_last() =~= a + b.drop_last());
        assert((a + b).last() == b.last());
    }
}

/// The amounts of two runs of outputs sum to what each sums to.
pub proof fn lemma_amount_total_concat(a: Seq<OutputModel>, b: Seq<OutputModel>)
    ensures
        amount_total(a + b) == amount_total(a) + amount_total(b),
    decreases b.len(),
{
    if b.len() == 0 {
        assert(a + b =~= a);
    } else {
        lemma_amount_total_concat(a, b.drop_last());
        assert((a + b).drop_last() =~= a + b.drop_last());
        assert((a + b).last() == b.last());
    }
}

/// The amount a table of pairs lists for `a`: that of its last pair with key `a`, or 0.
pub open spec fn total_of(t: Seq<(Seq<char>, u64)>, a: Seq<char>) -> nat
    decreases t.len(),
{
    if t.len() == 0 {
        0
    } else if t.last().0 == a {
        t.last().1 as nat
    } else {
        total_of(t.drop_last(), a)
    }
}

/// In a table whose keys are distinct, the amount listed for a key is that of its row.
pub proof fn lemma_total_of_row(t: Seq<(Seq<char>, u64)>, a: Seq<char>)
    requires
        forall|x: int, y: int| 0 <= x < t.len() && 0 <= y < t.len() && x != y ==> t[x].0 != t[y].0,
    ensures
        forall|i: int| 0 <= i < t.len() && t[i].0 == a ==> total_of(t, a) == t[i].1,
        (forall|i: int| 0 <= i < t.len() ==> t[i].0 != a) ==> total_of(t, a) == 0,
    decreases t.len(),
{
    if t.len() > 0 {
        let pre = t.drop_last();
        assert forall|x: int, y: int|
            0 <= x < pre.len() && 0 <= y < pre.len() && x != y implies pre[x].0 != pre[y].0 by {
            assert(pre[x] == t[x]);
            assert(pre[y] == t[y]);
        }
        lemma_total_of_row(pre, a);
        assert forall|i: int| 0 <= i < t.len() && t[i].0 == a implies total_of(t, a) == t[i].1 by {
            if i < t.len() - 1 {
                assert(pre[i] == t[i]);
                assert(t.last().0 != a);
            }
        }
        if forall|i: int| 0 <= i < t.len() ==> t[i].0 != a {
            assert(t[t.len() - 1].0 != a);
            assert forall|i: int| 0 <= i < pre.len() implies pre[i].0 != a by {
                assert(pre[i] == t[i]);
            }
        }
    }
}

/// The amount a balance table lists for `a` is what `a` received, held at `u64::MAX`.
pub proof fn lemma_total_of_balance_table(u: Seq<OutputModel>, a: Seq<char>)
    ensures
        total_of(balance_table(u), a) == saturate(amount_to(u, a) as int),
{
    let t = balance_table(u);
    lemma_receivers(u);
    assert forall|x: int, y: int| 0 <= x < t.len() && 0 <= y < t.len() && x != y implies t[x].0
        != t[y].0 by {
        assert(receivers(u)[x] != receivers(u)[y]);
    }
    lemma_total_of_row(t, a);
    if receivers(u).contains(a) {
        let i = choose|i: int| 0 <= i < receivers(u).len() && receivers(u)[i] == a;
        assert(t[i].0 == a);
    } else {
        lemma_absent_receiver(u, a);
        assert forall|i: int| 0 <= i < t.len() implies t[i].0 != a by {
            assert(receivers(u).contains(receivers(u)[i]));
        }
    }
}

} // verus!
