use vstd::prelude::*;
use vstd::utf8::{decode_utf8, valid_utf8};
use crate::codec::{
    bincode_outputs, decode_outputs, parse_txid, raw_slots_view, receiver_base36, utf8_text,
};
use crate::frame::{law_prefix_in_bounds, length_prefix, length_prefix_in_bounds, prefix_in_bounds};
use crate::numerals::{accepts_txid, base36_text, be_value};

verus! {

/// One key/value pair as read from the store.
pub struct RawEntry {
    pub key: Vec<u8>,
    pub value: Vec<u8>,
}

/// An unspent output: its amount in atomic units and its receiver's base-36 address.
pub struct OutputRecord {
    pub amount: u64,
    pub receiver: String,
}

/// A transaction's entry: its id and its output slots, `None` where the output is spent.
pub struct TxEntry {
    pub txid: String,
    pub outputs: Vec<Option<OutputRecord>>,
}

/// Model of an unspent output.
pub struct OutputModel {
    pub amount: u64,
    pub receiver: Seq<char>,
}

/// Model of a transaction's entry.
pub struct TxModel {
    pub txid: Seq<char>,
    pub outputs: Seq<Option<OutputModel>>,
}

impl View for RawEntry {
    type V = (Seq<u8>, Seq<u8>);

    open spec fn view(&self) -> (Seq<u8>, Seq<u8>) {
        (self.key@, self.value@)
    }
}

impl View for OutputRecord {
    type V = OutputModel;

    open spec fn view(&self) -> OutputModel {
        OutputModel { amount: self.amount, receiver: self.receiver@ }
    }
}

/// Model of one output slot.
pub open spec fn slot_model(o: Option<OutputRecord>) -> Option<OutputModel> {
    match o {
        Some(r) => Some(r@),
        None => None,
    }
}

/// Model of a list of output slots.
pub open spec fn slots_model(v: Seq<Option<OutputRecord>>) -> Seq<Option<OutputModel>> {
    v.map_values(|o: Option<OutputRecord>| slot_model(o))
}

impl View for TxEntry {
    type V = TxModel;

    open spec fn view(&self) -> TxModel {
        TxModel { txid: self.txid@, outputs: slots_model(self.outputs@) }
    }
}

/// Model of a list of entries.
pub open spec fn entries_model(v: Seq<TxEntry>) -> Seq<TxModel> {
    v.map_values(|e: TxEntry| e@)
}

/// Model of a list of raw pairs.
pub open spec fn raws_model(v: Seq<RawEntry>) -> Seq<(Seq<u8>, Seq<u8>)> {
    v.map_values(|r: RawEntry| r@)
}

/// Model of lists of output slots.
pub open spec fn slot_lists_model(v: Seq<Vec<Option<OutputRecord>>>) -> Seq<Seq<Option<OutputModel>>> {
    v.map_values(|l: Vec<Option<OutputRecord>>| slots_model(l@))
}

/// A decoded slot, with the receiver named by its base-36 address.
pub open spec fn decoded_slot(o: Option<(u64, Seq<u8>)>) -> Option<OutputModel> {
    match o {
        Some(p) => Some(OutputModel { amount: p.0, receiver: base36_text(be_value(p.1)) }),
        None => None,
    }
}

/// The output slots that a stored value holds; `None` where it does not decode
/// (or declares more elements than its bytes could hold).
pub open spec fn value_slots(value: Seq<u8>) -> Option<Seq<Option<OutputModel>>> {
    if !length_prefix_in_bounds(value) {
        None
    } else {
        match bincode_outputs(value) {
            Some(s) => Some(s.map_values(|o: Option<(u64, Seq<u8>)>| decoded_slot(o))),
            None => None,
        }
    }
}

/// The transaction id that a key names: the key's text, where it is UTF-8 and accepted
/// as a transaction id.
pub open spec fn key_txid(key: Seq<u8>) -> Option<Seq<char>> {
    if valid_utf8(key) && accepts_txid(decode_utf8(key)) {
        Some(decode_utf8(key))
    } else {
        None
    }
}

/// The entry that a key/value pair stands for, if both parts are well formed.
pub open spec fn entry_model(raw: (Seq<u8>, Seq<u8>)) -> Option<TxModel> {
    match (key_txid(raw.0), value_slots(raw.1)) {
        (Some(t), Some(s)) => Some(TxModel { txid: t, outputs: s }),
        _ => None,
    }
}

/// The well-formed entries among the pairs, in order.
pub open spec fn scanned(raws: Seq<(Seq<u8>, Seq<u8>)>) -> Seq<TxModel>
    decreases raws.len(),
{
    if raws.len() == 0 {
        seq![]
    } else {
        let rest = scanned(raws.drop_last());
        match entry_model(raws.last()) {
            Some(t) => rest.push(t),
            None => rest,
        }
    }
}

/// The slot lists of all values that decode, in order, whatever their keys.
pub open spec fn decoded_values(raws: Seq<(Seq<u8>, Seq<u8>)>) -> Seq<Seq<Option<OutputModel>>>
    decreases raws.len(),
{
    if raws.len() == 0 {
        seq![]
    } else {
        let rest = decoded_values(raws.drop_last());
        match value_slots(raws.last().1) {
            Some(s) => rest.push(s),
            None => rest,
        }
    }
}

/// The output records of decoded slots: each amount kept, each receiver key written as its
/// base-36 address.
pub fn records_from_slots(raw: &Vec<Option<(u64, [u8; 32])>>) -> (out: Vec<Option<OutputRecord>>)
    ensures
        slots_model(out@) == raw_slots_view(raw@).map_values(
            |o: Option<(u64, Seq<u8>)>| decoded_slot(o),
        ),
        out@.len() == raw@.len(),
        forall|i: int|
            0 <= i < raw@.len() ==> match #[trigger] raw@[i] {
                Some(p) => out@[i] matches Some(o) && o.amount == p.0 && o.receiver@ == base36_text(
                    be_value(p.1@),
                ),
                None => out@[i] is None,
            },
{
    let ghost decoded = raw_slots_view(raw@).map_values(|o: Option<(u64, Seq<u8>)>| decoded_slot(o));
    let mut out: Vec<Option<OutputRecord>> = Vec::new();
    let n = raw.len();
    for i in 0..n
        invariant
            n == raw.len(),
            out.len() == i,
            decoded == raw_slots_view(raw@).map_values(
                |o: Option<(u64, Seq<u8>)>| decoded_slot(o),
            ),
            forall|k: int| #![auto] 0 <= k < i ==> slot_model(out@[k]) == decoded[k],
            forall|k: int|
                0 <= k < i ==> match #[trigger] raw@[k] {
                    Some(p) => out@[k] matches Some(o) && o.amount == p.0 && o.receiver@
                        == base36_text(be_value(p.1@)),
                    None => out@[k] is None,
                },
    {
        let ghost before = out@;
        assert(decoded[i as int] == decoded_slot(raw_slots_view(raw@)[i as int]));
        match &raw[i] {
            Some(p) => {
                let receiver = receiver_base36(&p.1);
                out.push(Some(OutputRecord { amount: p.0, receiver }));
            },
            None => {
                out.push(None);
            },
        }
        assert(forall|k: int| #![auto] 0 <= k < i ==> out@[k] == before[k]);
    }
    assert(slots_model(out@) =~= decoded);
    out
}

/// Decodes a stored value into its output slots.
pub fn decode_value(value: &[u8]) -> (r: Option<Vec<Option<OutputRecord>>>)
    ensures
        match r {
            Some(v) => value_slots(value@) == Some(slots_model(v@)),
            None => value_slots(value@) is None,
        },
        r is Some <==> (bincode_outputs(value@) is Some && forall|n: nat|
            length_prefix(value@) == Some(n) ==> n <= value@.len() && 64 * n <= isize::MAX),
        r matches Some(v) ==> bincode_outputs(value@) matches Some(b) && v@.len() == b.len()
            && forall|i: int|
            0 <= i < b.len() ==> match #[trigger] b[i] {
                Some(p) => v@[i] matches Some(o) && o.amount == p.0 && o.receiver@ == base36_text(
                    be_value(p.1),
                ),
                None => v@[i] is None,
            },
{
    if !prefix_in_bounds(value) {
        return None;
    }
    let raw = match decode_outputs(value) {
        Some(raw) => raw,
        None => return None,
    };
    let v = records_from_slots(&raw);
    proof {
        let b = raw_slots_view(raw@);
        assert forall|i: int| 0 <= i < b.len() implies match #[trigger] b[i] {
            Some(p) => v@[i] matches Some(o) && o.amount == p.0 && o.receiver@ == base36_text(
                be_value(p.1),
            ),
            None => v@[i] is None,
        } by {
            assert(b[i] == match raw@[i] {
                Some(p) => Some((p.0, p.1@)),
                None => None,
            });
        }
    }
    Some(v)
}

/// Reads a key/value pair as a transaction's entry, where the key is a transaction id
/// and the value decodes.
pub fn parse_entry(raw: &RawEntry) -> (r: Option<TxEntry>)
    ensures
        match r {
            Some(e) => entry_model(raw@) == Some(e@),
            None => entry_model(raw@) is None,
        },
        r is Some <==> (valid_utf8(raw.key@) && accepts_txid(decode_utf8(raw.key@))
            && bincode_outputs(raw.value@) is Some && forall|n: nat|
            length_prefix(raw.value@) == Some(n) ==> n <= raw.value@.len() && 64 * n
                <= isize::MAX),
        r matches Some(e) ==> e.txid@ == decode_utf8(raw.key@) && value_slots(raw.value@) == Some(
            slots_model(e.outputs@),
        ),
{
    proof {
        law_value_slots_are_decoded_list(raw.value@);
    }
    let text = match utf8_text(raw.key.as_slice()) {
        Some(t) => t,
        None => return None,
    };
    if parse_txid(text.as_str()).is_none() {
        return None;
    }
    match decode_value(raw.value.as_slice()) {
        Some(outputs) => Some(TxEntry { txid: text, outputs }),
        None => None,
    }
}

/// The slots of a stored value are exactly the list that bincode decodes from it: as many,
/// in the same order, spent where bincode gives no output, and otherwise with the same
/// amount and the receiver written as the base-36 value of all 32 bytes of its key. The
/// value decodes exactly when bincode decodes it and its declared count is in bounds.
pub proof fn law_value_slots_are_decoded_list(value: Seq<u8>)
    ensures
        value_slots(value) is Some <==> (bincode_outputs(value) is Some && forall|n: nat|
            length_prefix(value) == Some(n) ==> n <= value.len() && 64 * n <= isize::MAX),
        value_slots(value) matches Some(s) ==> bincode_outputs(value) matches Some(b) && s.len()
            == b.len() && forall|i: int|
            0 <= i < b.len() ==> match #[trigger] b[i] {
                Some(p) => s[i] matches Some(o) && o.amount == p.0 && o.receiver == base36_text(
                    be_value(p.1),
                ),
                None => s[i] is None,
            },
{
    law_prefix_in_bounds(value);
}

/// A pair is an entry exactly when its key is UTF-8 text accepted as a transaction id and
/// its value decodes; the entry's id is then the whole text of the key, and its slots are
/// those of the value.
pub proof fn law_entry_of_pair(raw: (Seq<u8>, Seq<u8>))
    ensures
        entry_model(raw) is Some <==> (valid_utf8(raw.0) && accepts_txid(decode_utf8(raw.0))
            && value_slots(raw.1) is Some),
        entry_model(raw) matches Some(t) ==> t.txid == decode_utf8(raw.0) && value_slots(raw.1)
            == Some(t.outputs),
{
}

/// The pair that the `k`-th entry comes from.
pub proof fn lemma_entry_source(raws: Seq<(Seq<u8>, Seq<u8>)>, k: int) -> (j: int)
    requires
        0 <= k < scanned(raws).len(),
    ensures
        0 <= j < raws.len(),
        valid_utf8(raws[j].0),
        scanned(raws)[k].txid == decode_utf8(raws[j].0),
        value_slots(raws[j].1) == Some(scanned(raws)[k].outputs),
    decreases raws.len(),
{
    let pre = raws.drop_last();
    if k < scanned(pre).len() {
        let j = lemma_entry_source(pre, k);
        assert(raws[j] == pre[j]);
        j
    } else {
        let j = raws.len() - 1;
        assert(raws[j] == raws.last());
        j
    }
}

/// There are no more entries than pairs, and each entry comes from one of the pairs: its
/// id is the whole text of that pair's key, and its slots are those of that pair's value.
pub proof fn law_scanned_entries_come_from_pairs(raws: Seq<(Seq<u8>, Seq<u8>)>)
    ensures
        scanned(raws).len() <= raws.len(),
        forall|k: int|
            #![trigger scanned(raws)[k]]
            0 <= k < scanned(raws).len() ==> exists|j: int|
                0 <= j < raws.len() && valid_utf8((#[trigger] raws[j]).0) && scanned(raws)[k].txid
                    == decode_utf8(raws[j].0) && value_slots(raws[j].1) == Some(
                    scanned(raws)[k].outputs,
                ),
    decreases raws.len(),
{
    if raws.len() > 0 {
        law_scanned_entries_come_from_pairs(raws.drop_last());
    }
    assert forall|k: int|
        #![trigger scanned(raws)[k]]
        0 <= k < scanned(raws).len() implies exists|j: int|
        0 <= j < raws.len() && valid_utf8((#[trigger] raws[j]).0) && scanned(raws)[k].txid
            == decode_utf8(raws[j].0) && value_slots(raws[j].1) == Some(scanned(raws)[k].outputs) by {
        let j = lemma_entry_source(raws, k);
        assert(valid_utf8(raws[j].0));
    }
}

/// Every pair that is an entry is among the scanned entries.
pub proof fn law_scanned_keeps_every_entry(raws: Seq<(Seq<u8>, Seq<u8>)>)
    ensures
        forall|j: int|
            0 <= j < raws.len() && #[trigger] entry_model(raws[j]) is Some ==> scanned(raws).contains(
                entry_model(raws[j])->Some_0,
            ),
    decreases raws.len(),
{
    if raws.len() > 0 {
        let pre = raws.drop_last();
        law_scanned_keeps_every_entry(pre);
        assert forall|j: int|
            0 <= j < raws.len() && #[trigger] entry_model(raws[j]) is Some implies scanned(raws).contains(
                entry_model(raws[j])->Some_0,
            ) by {
            let t = entry_model(raws[j])->Some_0;
            if j < pre.len() {
                assert(raws[j] == pre[j]);
                assert(entry_model(pre[j]) is Some);
                let k = choose|k: int| 0 <= k < scanned(pre).len() && scanned(pre)[k] == t;
                assert(scanned(raws)[k] == t);
            } else {
                assert(raws[j] == raws.last());
                assert(scanned(raws).last() == t);
            }
        }
    }
}

/// The `k`-th decoded slot list is the slots of one of the pairs' values.
proof fn lemma_decoded_source(raws: Seq<(Seq<u8>, Seq<u8>)>, k: int) -> (j: int)
    requires
        0 <= k < decoded_values(raws).len(),
    ensures
        0 <= j < raws.len(),
        value_slots(raws[j].1) == Some(decoded_values(raws)[k]),
    decreases raws.len(),
{
    let pre = raws.drop_last();
    if k < decoded_values(pre).len() {
        let j = lemma_decoded_source(pre, k);
        assert(raws[j] == pre[j]);
        j
    } else {
        raws.len() - 1
    }
}

/// The decoded slot lists are those of the pairs' values that decode, whatever the keys:
/// no more lists than pairs, each the slots of some pair's value, and the slots of every
/// value that decodes among them.
pub proof fn law_decoded_values_are_the_pairs_slots(raws: Seq<(Seq<u8>, Seq<u8>)>)
    ensures
        decoded_values(raws).len() <= raws.len(),
        forall|k: int|
            #![trigger decoded_values(raws)[k]]
            0 <= k < decoded_values(raws).len() ==> exists|j: int|
                0 <= j < raws.len() && value_slots((#[trigger] raws[j]).1) == Some(
                    decoded_values(raws)[k],
                ),
        forall|j: int|
            0 <= j < raws.len() && #[trigger] value_slots(raws[j].1) is Some ==> decoded_values(
                raws,
            ).contains(value_slots(raws[j].1)->Some_0),
    decreases raws.len(),
{
    if raws.len() > 0 {
        let pre = raws.drop_last();
        law_decoded_values_are_the_pairs_slots(pre);
        assert forall|j: int|
            0 <= j < raws.len() && #[trigger] value_slots(raws[j].1) is Some implies decoded_values(
                raws,
            ).contains(value_slots(raws[j].1)->Some_0) by {
            let s = value_slots(raws[j].1)->Some_0;
            if j < pre.len() {
                assert(raws[j] == pre[j]);
                assert(value_slots(pre[j].1) is Some);
                let k = choose|k: int| 0 <= k < decoded_values(pre).len() && decoded_values(pre)[k] == s;
                assert(decoded_values(raws)[k] == s);
            } else {
                assert(raws[j] == raws.last());
                assert(decoded_values(raws).last() == s);
            }
        }
    }
    assert forall|k: int|
        #![trigger decoded_values(raws)[k]]
        0 <= k < decoded_values(raws).len() implies exists|j: int|
        0 <= j < raws.len() && value_slots((#[trigger] raws[j]).1) == Some(decoded_values(raws)[k]) by {
        let j = lemma_decoded_source(raws, k);
        assert(value_slots(raws[j].1) == Some(decoded_values(raws)[k]));
    }
}

/// The well-formed entries among the pairs, in order.
pub fn scan_entries(raws: &[RawEntry]) -> (r: Vec<TxEntry>)
    ensures
        entries_model(r@) == scanned(raws_model(raws@)),
{
    let mut out: Vec<TxEntry> = Vec::new();
    let n = raws.len();
    for i in 0..n
        invariant
            n == raws@.len(),
            entries_model(out@) == scanned(raws_model(raws@).take(i as int)),
    {
        let ghost before = out@;
        let parsed = parse_entry(&raws[i]);
        let ghost pre = raws_model(raws@).take(i as int);
        let ghost post = raws_model(raws@).take(i + 1);
        assert(post.drop_last() =~= pre);
        assert(post.last() == raws@[i as int]@);
        match parsed {
            Some(e) => {
                out.push(e);
                assert(entries_model(out@) =~= entries_model(before).push(e@));
            },
            None => {},
        }
    }
    assert(raws_model(raws@).take(n as int) =~= raws_model(raws@));
    out
}

/// The slot lists of all values that decode, in order, whatever their keys.
pub fn decode_values(raws: &[RawEntry]) -> (r: Vec<Vec<Option<OutputRecord>>>)
    ensures
        slot_lists_model(r@) == decoded_values(raws_model(raws@)),
{
    let mut out: Vec<Vec<Option<OutputRecord>>> = Vec::new();
    let n = raws.len();
    for i in 0..n
        invariant
            n == raws@.len(),
            slot_lists_model(out@) == decoded_values(raws_model(raws@).take(i as int)),
    {
        let ghost before = out@;
        let decoded = decode_value(raws[i].value.as_slice());
        let ghost pre = raws_model(raws@).take(i as int);
        let ghost post = raws_model(raws@).take(i + 1);
        assert(post.drop_last() =~= pre);
        assert(post.last() == raws@[i as int]@);
        match decoded {
            Some(v) => {
                out.push(v);
                assert(slot_lists_model(out@) =~= slot_lists_model(before).push(slots_model(v@)));
            },
            None => {},
        }
    }
    assert(raws_model(raws@).take(n as int) =~= raws_model(raws@));
    out
}

} // verus!
