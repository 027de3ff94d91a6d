//! The in-memory table: an ordered map from key to value or tombstone, held
//! as a vector of entries in strictly increasing key order.
use crate::encoding::compare_keys;
use crate::encoding::key_lt;
use crate::encoding::KeyOrder;
use crate::encoding::lemma_key_order;
use vstd::prelude::*;
use vstd::std_specs::convert::FromSpecImpl;

verus! {

/// What a table holds for a key: a value, or the mark that the key was
/// deleted.
#[derive(Debug, PartialEq, Eq)]
pub enum MemValue {
    Put(String),
    Delete,
}

/// The mathematical value of a [`MemValue`].
pub enum Slot {
    Put(Seq<char>),
    Tombstone,
}

impl Slot {
    /// What a reader is told: the value, or nothing for a tombstone.
    pub open spec fn value(self) -> Option<Seq<char>> {
        match self {
            Slot::Put(v) => Some(v),
            Slot::Tombstone => None,
        }
    }
}

impl View for MemValue {
    type V = Slot;

    open spec fn view(&self) -> Slot {
        match self {
            MemValue::Put(s) => Slot::Put(s@),
            MemValue::Delete => Slot::Tombstone,
        }
    }
}

impl Clone for MemValue {
    fn clone(&self) -> (r: Self)
        ensures
            r@ == self@,
    {
        match self {
            MemValue::Put(s) => MemValue::Put(s.clone()),
            MemValue::Delete => MemValue::Delete,
        }
    }
}

/// A key with what is held for it.
#[derive(Debug, PartialEq, Eq)]
pub struct KeyValue {
    pub key: String,
    pub value: MemValue,
}

/// A key and its slot as mathematical values.
pub type Record = (Seq<char>, Slot);

impl View for KeyValue {
    type V = Record;

    open spec fn view(&self) -> Record {
        (self.key@, self.value@)
    }
}

impl Clone for KeyValue {
    fn clone(&self) -> (r: Self)
        ensures
            r@ == self@,
    {
        KeyValue { key: self.key.clone(), value: self.value.clone() }
    }
}

/// The records of a vector of entries, in order.
pub open spec fn records_of(entries: Seq<KeyValue>) -> Seq<Record> {
    Seq::new(entries.len(), |i: int| entries[i]@)
}

/// Keys strictly increase along the sequence, so none occurs twice.
pub open spec fn strictly_sorted(s: Seq<Record>) -> bool {
    forall|i: int, j: int| 0 <= i < j < s.len() ==> key_lt(#[trigger] s[i].0, #[trigger] s[j].0)
}

/// Some record of `s` has key `k`.
pub open spec fn has_key(s: Seq<Record>, k: Seq<char>) -> bool {
    exists|i: int| 0 <= i < s.len() && (#[trigger] s[i]).0 == k
}

/// A place in `s` where key `k` stands, if there is one.
pub open spec fn position(s: Seq<Record>, k: Seq<char>) -> int {
    choose|i: int| 0 <= i < s.len() && (#[trigger] s[i]).0 == k
}

/// The map that a sequence of records with distinct keys stands for.
pub open spec fn map_of(s: Seq<Record>) -> Map<Seq<char>, Slot> {
    Map::new(|k: Seq<char>| has_key(s, k), |k: Seq<char>| s[position(s, k)].1)
}

/// The records of a table in key order.
pub open spec fn sorted_records(table: Map<Seq<char>, Slot>) -> Seq<Record> {
    choose|s: Seq<Record>| strictly_sorted(s) && map_of(s) == table
}

/// In a strictly sorted sequence a key stands at one place only.
pub proof fn lemma_sorted_unique(s: Seq<Record>, i: int, j: int)
    requires
        strictly_sorted(s),
        0 <= i < s.len(),
        0 <= j < s.len(),
        s[i].0 == s[j].0,
    ensures
        i == j,
{
    lemma_key_order(s[i].0, s[j].0, s[i].0);
}

/// In a strictly sorted sequence an earlier key is before a later one.
pub proof fn lemma_key_order_of_sorted(s: Seq<Record>, i: int, j: int)
    requires
        strictly_sorted(s),
        0 <= i < j <= s.len(),
    ensures
        forall|k: int| j <= k < s.len() ==> key_lt(s[i].0, (#[trigger] s[k]).0),
        strictly_sorted(s.subrange(j, s.len() as int)),
        strictly_sorted(s.subrange(0, i)),
{
    let tail = s.subrange(j, s.len() as int);
    assert forall|a: int, b: int| 0 <= a < b < tail.len() implies key_lt(
        #[trigger] tail[a].0,
        #[trigger] tail[b].0,
    ) by {
        assert(key_lt(s[j + a].0, s[j + b].0));
    }
    let head = s.subrange(0, i);
    assert forall|a: int, b: int| 0 <= a < b < head.len() implies key_lt(
        #[trigger] head[a].0,
        #[trigger] head[b].0,
    ) by {
        assert(key_lt(s[a].0, s[b].0));
    }
}

/// The map of a strictly sorted sequence holds each record's slot under its
/// key.
pub proof fn lemma_map_of_at(s: Seq<Record>, i: int)
    requires
        strictly_sorted(s),
        0 <= i < s.len(),
    ensures
        map_of(s).contains_key(s[i].0),
        map_of(s)[s[i].0] == s[i].1,
{
    assert(has_key(s, s[i].0));
    lemma_sorted_unique(s, i, position(s, s[i].0));
}

/// Two strictly sorted sequences that stand for the same map are the same
/// sequence: the order of a table is determined by its contents.
pub proof fn lemma_sorted_determined(a: Seq<Record>, b: Seq<Record>)
    requires
        strictly_sorted(a),
        strictly_sorted(b),
        map_of(a) == map_of(b),
    ensures
        a == b,
    decreases a.len(),
{
    if a.len() == 0 {
        if b.len() > 0 {
            lemma_map_of_at(b, 0);
            assert(has_key(a, b[0].0));
        }
        assert(a =~= b);
    } else if b.len() == 0 {
        lemma_map_of_at(a, 0);
        assert(has_key(b, a[0].0));
    } else {
        // The smallest keys agree: each head is found in the other sequence,
        // and nothing there is smaller than its own head.
        lemma_map_of_at(a, 0);
        lemma_map_of_at(b, 0);
        assert(has_key(b, a[0].0));
        assert(has_key(a, b[0].0));
        let ib = position(b, a[0].0);
        let ia = position(a, b[0].0);
        lemma_key_order(a[0].0, b[0].0, a[0].0);
        if ib != 0 {
            assert(key_lt(b[0].0, b[ib].0));
        }
        if ia != 0 {
            assert(key_lt(a[0].0, a[ia].0));
        }
        assert(a[0].0 == b[0].0);
        assert(a[0].1 == b[0].1);
        let ta = a.drop_first();
        let tb = b.drop_first();
        assert(strictly_sorted(ta)) by {
            assert forall|i: int, j: int| 0 <= i < j < ta.len() implies key_lt(
                #[trigger] ta[i].0,
                #[trigger] ta[j].0,
            ) by {
                assert(key_lt(a[i + 1].0, a[j + 1].0));
            }
        }
        assert(strictly_sorted(tb)) by {
            assert forall|i: int, j: int| 0 <= i < j < tb.len() implies key_lt(
                #[trigger] tb[i].0,
                #[trigger] tb[j].0,
            ) by {
                assert(key_lt(b[i + 1].0, b[j + 1].0));
            }
        }
        assert(map_of(ta) =~= map_of(tb)) by {
            assert forall|k: Seq<char>| #[trigger] map_of(ta).contains_key(k) implies map_of(
                tb,
            ).contains_key(k) && map_of(ta)[k] == map_of(tb)[k] by {
                lemma_tail_map(a, b, k);
            }
            assert forall|k: Seq<char>| #[trigger] map_of(tb).contains_key(k) implies map_of(
                ta,
            ).contains_key(k) by {
                lemma_tail_map(b, a, k);
            }
        }
        lemma_sorted_determined(ta, tb);
        assert(a =~= b) by {
            assert forall|i: int| 0 <= i < a.len() implies a[i] == b[i] by {
                if i > 0 {
                    assert(ta[i - 1] == a[i]);
                    assert(tb[i - 1] == b[i]);
                }
            }
            assert(a.len() == ta.len() + 1);
            assert(b.len() == tb.len() + 1);
        }
    }
}

proof fn lemma_tail_map(a: Seq<Record>, b: Seq<Record>, k: Seq<char>)
    requires
        strictly_sorted(a),
        strictly_sorted(b),
        map_of(a) == map_of(b),
        a.len() > 0,
        b.len() > 0,
        a[0].0 == b[0].0,
        map_of(a.drop_first()).contains_key(k),
    ensures
        map_of(b.drop_first()).contains_key(k),
        map_of(a.drop_first())[k] == map_of(b.drop_first())[k],
{
    let ta = a.drop_first();
    let tb = b.drop_first();
    let i = position(ta, k);
    assert(ta[i] == a[i + 1]);
    assert(key_lt(a[0].0, a[i + 1].0));
    lemma_key_order(a[0].0, k, a[0].0);
    lemma_map_of_at(a, i + 1);
    assert(has_key(b, k));
    let j = position(b, k);
    lemma_map_of_at(b, j);
    assert(j != 0);
    assert(tb[j - 1] == b[j]);
    assert(has_key(tb, k));
    assert(strictly_sorted(ta)) by {
        assert forall|x: int, y: int| 0 <= x < y < ta.len() implies key_lt(
            #[trigger] ta[x].0,
            #[trigger] ta[y].0,
        ) by {
            assert(key_lt(a[x + 1].0, a[y + 1].0));
        }
    }
    assert(strictly_sorted(tb)) by {
        assert forall|x: int, y: int| 0 <= x < y < tb.len() implies key_lt(
            #[trigger] tb[x].0,
            #[trigger] tb[y].0,
        ) by {
            assert(key_lt(b[x + 1].0, b[y + 1].0));
        }
    }
    lemma_map_of_at(ta, i);
    lemma_map_of_at(tb, j - 1);
}

/// The ordered map under a table: entries in strictly increasing key order.
#[derive(Debug)]
pub struct MemTableBase {
    entries: Vec<KeyValue>,
}

impl View for MemTableBase {
    type V = Map<Seq<char>, Slot>;

    closed spec fn view(&self) -> Map<Seq<char>, Slot> {
        map_of(self.records())
    }
}

impl MemTableBase {
    /// The records in the order in which the map is walked.
    pub closed spec fn records(&self) -> Seq<Record> {
        records_of(self.entries@)
    }

    /// Keys strictly increase along the entries.
    pub closed spec fn wf(&self) -> bool {
        strictly_sorted(self.records())
    }

    /// The records are strictly sorted, the view is their map, they are the
    /// records of the view in key order, and there is one for each key.
    pub proof fn lemma_view(&self)
        requires
            self.wf(),
        ensures
            strictly_sorted(self.records()),
            self@ == map_of(self.records()),
            self.records() == sorted_records(self@),
            self@.dom().finite(),
            self@.len() == self.records().len(),
    {
        lemma_sorted_determined(self.records(), sorted_records(self@));
        lemma_map_of_len(self.records());
    }

    /// An empty map.
    pub fn new() -> (r: Self)
        ensures
            r.wf(),
            r@ == Map::<Seq<char>, Slot>::empty(),
            r.records() == Seq::<Record>::empty(),
    {
        let r = MemTableBase { entries: Vec::new() };
        assert(r.records() =~= Seq::<Record>::empty());
        assert(r@ =~= Map::<Seq<char>, Slot>::empty());
        r
    }

    /// The number of entries.
    pub fn len(&self) -> (n: usize)
        ensures
            n == self.records().len(),
            self.wf() ==> n == self@.len(),
    {
        proof {
            if self.wf() {
                self.lemma_view();
            }
        }
        self.entries.len()
    }

    /// Whether the map holds no entry.
    pub fn is_empty(&self) -> (b: bool)
        ensures
            b == (self.records().len() == 0),
    {
        self.entries.len() == 0
    }

    /// The entry at place `i` of the walk in key order.
    pub fn entry(&self, i: usize) -> (e: &KeyValue)
        requires
            i < self.records().len(),
        ensures
            e@ == self.records()[i as int],
    {
        &self.entries[i]
    }

    /// The entries in key order.
    pub fn into_entries(self) -> (v: Vec<KeyValue>)
        ensures
            records_of(v@) == self.records(),
    {
        self.entries
    }

    /// Where `key` stands, or where it would have to be put.
    fn search(&self, key: &str) -> (r: (bool, usize))
        requires
            self.wf(),
        ensures
            r.1 <= self.records().len(),
            r.0 ==> r.1 < self.records().len() && self.records()[r.1 as int].0 == key@,
            !r.0 ==> forall|i: int| 0 <= i < r.1 ==> key_lt((#[trigger] self.records()[i]).0, key@),
            !r.0 ==> forall|i: int|
                r.1 <= i < self.records().len() ==> key_lt(key@, (#[trigger] self.records()[i]).0),
    {
        let ghost recs = self.records();
        let mut lo: usize = 0;
        let mut hi: usize = self.entries.len();
        while lo < hi
            invariant
                recs == self.records(),
                recs.len() == self.entries@.len(),
                strictly_sorted(recs),
                lo <= hi <= recs.len(),
                forall|i: int| 0 <= i < lo ==> key_lt((#[trigger] recs[i]).0, key@),
                forall|i: int| hi <= i < recs.len() ==> key_lt(key@, (#[trigger] recs[i]).0),
            decreases hi - lo,
        {
            let mid: usize = lo + (hi - lo) / 2;
            let here = &self.entries[mid];
            assert(here@ == recs[mid as int]);
            match compare_keys(here.key.as_str(), key) {
                KeyOrder::Less => {
                    assert forall|i: int| 0 <= i < mid + 1 implies key_lt(
                        (#[trigger] recs[i]).0,
                        key@,
                    ) by {
                        if i < mid {
                            assert(key_lt(recs[i].0, recs[mid as int].0));
                            lemma_key_order(recs[i].0, recs[mid as int].0, key@);
                        }
                    }
                    lo = mid + 1;
                },
                KeyOrder::Equal => {
                    return (true, mid);
                },
                KeyOrder::Greater => {
                    proof {
                        lemma_key_order(key@, recs[mid as int].0, key@);
                    }
                    assert forall|i: int| mid <= i < recs.len() implies key_lt(
                        key@,
                        (#[trigger] recs[i]).0,
                    ) by {
                        if i > mid {
                            assert(key_lt(recs[mid as int].0, recs[i].0));
                            lemma_key_order(key@, recs[mid as int].0, recs[i].0);
                        }
                    }
                    hi = mid;
                },
            }
        }
        (false, lo)
    }

    /// What the map holds for `key`.
    pub fn get(&self, key: &str) -> (r: Option<&MemValue>)
        requires
            self.wf(),
        ensures
            r is Some <==> self@.contains_key(key@),
            r matches Some(v) ==> v@ == self@[key@],
    {
        let (found, at) = self.search(key);
        if found {
            proof {
                lemma_map_of_at(self.records(), at as int);
            }
            Some(&self.entries[at].value)
        } else {
            proof {
                let recs = self.records();
                if has_key(recs, key@) {
                    let i = position(recs, key@);
                    lemma_key_order(key@, key@, key@);
                    assert(key_lt(recs[i].0, key@) || key_lt(key@, recs[i].0));
                }
            }
            None
        }
    }

    /// Puts `value` under `key`, in place of what was there.
    pub fn insert(&mut self, key: String, value: MemValue)
        requires
            old(self).wf(),
        ensures
            final(self).wf(),
            final(self)@ == old(self)@.insert(key@, value@),
    {
        let ghost before = self.records();
        let ghost k = key@;
        let ghost v = value@;
        let (found, at) = self.search(key.as_str());
        if found {
            self.entries.set(at, KeyValue { key, value });
            proof {
                let after = self.records();
                assert(after =~= before.update(at as int, (k, v)));
                lemma_update_map(before, at as int, v);
            }
        } else {
            self.entries.insert(at, KeyValue { key, value });
            proof {
                let after = self.records();
                assert(after =~= before.insert(at as int, (k, v)));
                lemma_insert_map(before, at as int, k, v);
            }
        }
    }

    /// Takes `key` out of the map, if it is there.
    pub fn remove(&mut self, key: &str)
        requires
            old(self).wf(),
        ensures
            final(self).wf(),
            final(self)@ == old(self)@.remove(key@),
    {
        let ghost before = self.records();
        let (found, at) = self.search(key);
        if found {
            let _ = self.entries.remove(at);
            proof {
                let after = self.records();
                assert(after =~= before.remove(at as int));
                lemma_remove_map(before, at as int);
            }
        } else {
            proof {
                if has_key(before, key@) {
                    let i = position(before, key@);
                    lemma_key_order(key@, key@, key@);
                    assert(key_lt(before[i].0, key@) || key_lt(key@, before[i].0));
                }
                assert(self@ =~= self@.remove(key@));
            }
        }
    }
}

/// Replacing the slot at one place of a strictly sorted sequence puts that
/// slot under the key in its map.
pub proof fn lemma_update_map(s: Seq<Record>, at: int, v: Slot)
    requires
        strictly_sorted(s),
        0 <= at < s.len(),
    ensures
        strictly_sorted(s.update(at, (s[at].0, v))),
        map_of(s.update(at, (s[at].0, v))) == map_of(s).insert(s[at].0, v),
{
    let k = s[at].0;
    let t = s.update(at, (k, v));
    assert(strictly_sorted(t)) by {
        assert forall|i: int, j: int| 0 <= i < j < t.len() implies key_lt(
            #[trigger] t[i].0,
            #[trigger] t[j].0,
        ) by {
            assert(key_lt(s[i].0, s[j].0));
        }
    }
    assert(map_of(t) =~= map_of(s).insert(k, v)) by {
        assert forall|x: Seq<char>| #[trigger] map_of(t).contains_key(x) implies map_of(s).insert(
            k,
            v,
        ).contains_key(x) by {
            let i = position(t, x);
            assert(s[i].0 == x);
        }
        assert forall|x: Seq<char>| #[trigger]
            map_of(s).insert(k, v).contains_key(x) implies map_of(t).contains_key(x) && map_of(
            t,
        )[x] == map_of(s).insert(k, v)[x] by {
            if x == k {
                lemma_map_of_at(t, at);
            } else {
                let i = position(s, x);
                assert(t[i] == s[i]);
                lemma_map_of_at(t, i);
                lemma_map_of_at(s, i);
            }
        }
    }
}

/// Putting a new key at its place in a strictly sorted sequence adds it to
/// the map.
pub proof fn lemma_insert_map(s: Seq<Record>, at: int, k: Seq<char>, v: Slot)
    requires
        strictly_sorted(s),
        0 <= at <= s.len(),
        forall|i: int| 0 <= i < at ==> key_lt((#[trigger] s[i]).0, k),
        forall|i: int| at <= i < s.len() ==> key_lt(k, (#[trigger] s[i]).0),
    ensures
        strictly_sorted(s.insert(at, (k, v))),
        map_of(s.insert(at, (k, v))) == map_of(s).insert(k, v),
{
    let t = s.insert(at, (k, v));
    assert(strictly_sorted(t)) by {
        assert forall|i: int, j: int| 0 <= i < j < t.len() implies key_lt(
            #[trigger] t[i].0,
            #[trigger] t[j].0,
        ) by {
            if j < at {
                assert(key_lt(s[i].0, s[j].0));
            } else if j == at {
                assert(key_lt(s[i].0, k));
            } else if i == at {
                assert(key_lt(k, s[j - 1].0));
            } else if i > at {
                assert(key_lt(s[i - 1].0, s[j - 1].0));
            } else {
                assert(key_lt(s[i].0, s[j - 1].0));
            }
        }
    }
    assert(map_of(t) =~= map_of(s).insert(k, v)) by {
        assert forall|x: Seq<char>| #[trigger] map_of(t).contains_key(x) implies map_of(s).insert(
            k,
            v,
        ).contains_key(x) by {
            let i = position(t, x);
            if i < at {
                assert(s[i].0 == x);
            } else if i > at {
                assert(s[i - 1].0 == x);
            }
        }
        assert forall|x: Seq<char>| #[trigger]
            map_of(s).insert(k, v).contains_key(x) implies map_of(t).contains_key(x) && map_of(
            t,
        )[x] == map_of(s).insert(k, v)[x] by {
            if x == k {
                assert(t[at] == (k, v));
                lemma_map_of_at(t, at);
            } else {
                let i = position(s, x);
                lemma_map_of_at(s, i);
                if i < at {
                    assert(t[i] == s[i]);
                    lemma_map_of_at(t, i);
                } else {
                    assert(t[i + 1] == s[i]);
                    lemma_map_of_at(t, i + 1);
                }
            }
        }
    }
}

/// Taking one record out of a strictly sorted sequence takes its key out of
/// the map.
pub proof fn lemma_remove_map(s: Seq<Record>, at: int)
    requires
        strictly_sorted(s),
        0 <= at < s.len(),
    ensures
        strictly_sorted(s.remove(at)),
        map_of(s.remove(at)) == map_of(s).remove(s[at].0),
{
    let k = s[at].0;
    let t = s.remove(at);
    assert(strictly_sorted(t)) by {
        assert forall|i: int, j: int| 0 <= i < j < t.len() implies key_lt(
            #[trigger] t[i].0,
            #[trigger] t[j].0,
        ) by {
            if j < at {
                assert(key_lt(s[i].0, s[j].0));
            } else if i < at {
                assert(key_lt(s[i].0, s[j + 1].0));
            } else {
                assert(key_lt(s[i + 1].0, s[j + 1].0));
            }
        }
    }
    assert(map_of(t) =~= map_of(s).remove(k)) by {
        assert forall|x: Seq<char>| #[trigger] map_of(t).contains_key(x) implies map_of(s).remove(
            k,
        ).contains_key(x) && map_of(t)[x] == map_of(s).remove(k)[x] by {
            let i = position(t, x);
            lemma_map_of_at(t, i);
            if i < at {
                assert(s[i] == t[i]);
                lemma_map_of_at(s, i);
                lemma_sorted_unique(s, i, if x == k { at } else { i });
            } else {
                assert(s[i + 1] == t[i]);
                lemma_map_of_at(s, i + 1);
                lemma_sorted_unique(s, i + 1, if x == k { at } else { i + 1 });
            }
        }
        assert forall|x: Seq<char>| #[trigger]
            map_of(s).remove(k).contains_key(x) implies map_of(t).contains_key(x) by {
            let i = position(s, x);
            if i < at {
                assert(t[i] == s[i]);
            } else {
                assert(i != at);
                assert(t[i - 1] == s[i]);
            }
        }
    }
}

/// A strictly sorted sequence has as many records as its map has keys.
pub proof fn lemma_map_of_len(s: Seq<Record>)
    requires
        strictly_sorted(s),
    ensures
        map_of(s).dom().finite(),
        map_of(s).len() == s.len(),
    decreases s.len(),
{
    if s.len() == 0 {
        assert(map_of(s) =~= Map::<Seq<char>, Slot>::empty());
    } else {
        let n = s.len() as int;
        let head = s.drop_last();
        let last = s.last();
        lemma_key_order_of_sorted(s, n - 1, n);
        assert(head =~= s.subrange(0, n - 1));
        lemma_map_of_len(head);
        assert forall|i: int| 0 <= i < n - 1 implies key_lt((#[trigger] head[i]).0, last.0) by {
            assert(key_lt(s[i].0, s[n - 1].0));
        }
        lemma_insert_map(head, n - 1, last.0, last.1);
        assert(head.insert(n - 1, last) =~= s);
        assert(!map_of(head).contains_key(last.0)) by {
            if has_key(head, last.0) {
                let i = position(head, last.0);
                assert(key_lt(head[i].0, last.0));
                lemma_key_order(head[i].0, last.0, last.0);
            }
        }
        assert(map_of(s).dom() =~= map_of(head).dom().insert(last.0));
    }
}

impl Clone for MemTableBase {
    fn clone(&self) -> (r: Self)
        ensures
            r.records() == self.records(),
            r@ == self@,
            r.wf() == self.wf(),
    {
        let mut entries: Vec<KeyValue> = Vec::with_capacity(self.entries.len());
        let mut i: usize = 0;
        while i < self.entries.len()
            invariant
                i <= self.entries@.len(),
                entries@.len() == i,
                forall|j: int| 0 <= j < i ==> (#[trigger] entries@[j])@ == self.entries@[j]@,
            decreases self.entries@.len() - i,
        {
            entries.push(self.entries[i].clone());
            i += 1;
        }
        let r = MemTableBase { entries };
        assert(r.records() =~= self.records());
        r
    }
}

/// What a reader is told of `key` by a map of slots: the value that was
/// put, and nothing where the key is absent or deleted.
pub open spec fn spec_get(table: Map<Seq<char>, Slot>, key: Seq<char>) -> Option<Seq<char>> {
    if table.contains_key(key) {
        table[key].value()
    } else {
        None
    }
}

/// The text of an optional string.
pub open spec fn text_of(s: Option<String>) -> Option<Seq<char>> {
    match s {
        Some(t) => Some(t@),
        None => None,
    }
}

/// Reads `key` from an ordered map of slots. A tombstone reads as absent.
pub fn memtable_get_inner(base_table: &MemTableBase, key: &str) -> (r: Option<String>)
    requires
        base_table.wf(),
    ensures
        text_of(r) == spec_get(base_table@, key@),
{
    match base_table.get(key) {
        Some(MemValue::Put(text)) => Some(text.clone()),
        Some(MemValue::Delete) => None,
        None => None,
    }
}

/// The table that takes the writes.
#[derive(Debug)]
pub struct MemTable(pub MemTableBase);

/// A table that is only read: the previous writable table, kept while it is
/// on its way to disk.
#[derive(Debug)]
pub struct MemTableReadOnly(pub MemTableBase);

impl View for MemTable {
    type V = Map<Seq<char>, Slot>;

    open spec fn view(&self) -> Map<Seq<char>, Slot> {
        self.0@
    }
}

impl View for MemTableReadOnly {
    type V = Map<Seq<char>, Slot>;

    open spec fn view(&self) -> Map<Seq<char>, Slot> {
        self.0@
    }
}

impl MemTable {
    /// Keys strictly increase along the entries.
    pub open spec fn wf(&self) -> bool {
        self.0.wf()
    }

    /// The records in key order.
    pub open spec fn records(&self) -> Seq<Record> {
        self.0.records()
    }

    /// An empty table.
    pub fn new() -> (r: Self)
        ensures
            r.wf(),
            r@ == Map::<Seq<char>, Slot>::empty(),
            r.records() == Seq::<Record>::empty(),
    {
        MemTable(MemTableBase::new())
    }

    /// The size of the table: its number of entries, tombstones included.
    pub fn len(&self) -> (n: usize)
        ensures
            n == self.records().len(),
            self.wf() ==> n == self@.len(),
    {
        self.0.len()
    }

    /// The ordered map under the table.
    pub fn into_inner(self) -> (base: MemTableBase)
        ensures
            base == self.0,
    {
        self.0
    }

    /// The value last put under `key`, unless the key is absent or deleted.
    pub fn get(&self, key: &str) -> (r: Option<String>)
        requires
            self.wf(),
        ensures
            text_of(r) == spec_get(self@, key@),
    {
        memtable_get_inner(&self.0, key)
    }

    /// What the table holds for `key`, a tombstone included.
    pub fn slot(&self, key: &str) -> (r: Option<&MemValue>)
        requires
            self.wf(),
        ensures
            r is Some <==> self@.contains_key(key@),
            r matches Some(v) ==> v@ == self@[key@],
    {
        self.0.get(key)
    }

    /// Puts `value` under `key`, in place of any earlier slot.
    pub fn put(&mut self, key: String, value: String)
        requires
            old(self).wf(),
        ensures
            final(self).wf(),
            final(self)@ == old(self)@.insert(key@, Slot::Put(value@)),
    {
        self.0.insert(key, MemValue::Put(value));
    }

    /// Marks `key` as deleted, whether or not the table held it.
    pub fn delete(&mut self, key: &str)
        requires
            old(self).wf(),
        ensures
            final(self).wf(),
            final(self)@ == old(self)@.insert(key@, Slot::Tombstone),
    {
        self.0.insert(key.to_owned(), MemValue::Delete);
    }
}

impl MemTableReadOnly {
    /// Keys strictly increase along the entries.
    pub open spec fn wf(&self) -> bool {
        self.0.wf()
    }

    /// The records in key order.
    pub open spec fn records(&self) -> Seq<Record> {
        self.0.records()
    }

    /// The value last put under `key`, unless the key is absent or deleted.
    pub fn get(&self, key: &str) -> (r: Option<String>)
        requires
            self.wf(),
        ensures
            text_of(r) == spec_get(self@, key@),
    {
        memtable_get_inner(&self.0, key)
    }

    /// What the table holds for `key`, a tombstone included.
    pub fn slot(&self, key: &str) -> (r: Option<&MemValue>)
        requires
            self.wf(),
        ensures
            r is Some <==> self@.contains_key(key@),
            r matches Some(v) ==> v@ == self@[key@],
    {
        self.0.get(key)
    }
}

impl Clone for MemTable {
    fn clone(&self) -> (r: Self)
        ensures
            r.records() == self.records(),
            r@ == self@,
            r.wf() == self.wf(),
    {
        MemTable(self.0.clone())
    }
}

impl Clone for MemTableReadOnly {
    fn clone(&self) -> (r: Self)
        ensures
            r.records() == self.records(),
            r@ == self@,
            r.wf() == self.wf(),
    {
        MemTableReadOnly(self.0.clone())
    }
}

impl Default for MemTableBase {
    fn default() -> (r: Self)
        ensures
            r.wf(),
            r@ == Map::<Seq<char>, Slot>::empty(),
            r.records() == Seq::<Record>::empty(),
    {
        MemTableBase::new()
    }
}

impl Default for MemTable {
    fn default() -> (r: Self)
        ensures
            r.wf(),
            r@ == Map::<Seq<char>, Slot>::empty(),
            r.records() == Seq::<Record>::empty(),
    {
        MemTable::new()
    }
}

impl Default for MemTableReadOnly {
    fn default() -> (r: Self)
        ensures
            r.wf(),
            r@ == Map::<Seq<char>, Slot>::empty(),
            r.records() == Seq::<Record>::empty(),
    {
        MemTableReadOnly(MemTableBase::new())
    }
}

impl From<MemTable> for MemTableReadOnly {
    fn from(value: MemTable) -> (r: Self) {
        MemTableReadOnly(value.0)
    }
}

impl FromSpecImpl<MemTable> for MemTableReadOnly {
    open spec fn obeys_from_spec() -> bool {
        true
    }

    open spec fn from_spec(value: MemTable) -> Self {
        MemTableReadOnly(value.0)
    }
}

impl From<MemTableBase> for MemTable {
    fn from(value: MemTableBase) -> (r: Self) {
        MemTable(value)
    }
}

impl FromSpecImpl<MemTableBase> for MemTable {
    open spec fn obeys_from_spec() -> bool {
        true
    }

    open spec fn from_spec(value: MemTableBase) -> Self {
        MemTable(value)
    }
}

} // verus!
