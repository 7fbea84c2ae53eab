//! The write buffer: a sorted table from key to value with a byte budget, and
//! its frozen, read-only form.
use crate::bytes::{
    lemma_lex_irreflexive, lemma_lex_total, lemma_lex_transitive, lex_less, rank, Rank,
};
use crate::types::{is_tombstone, tombstone, tombstone_value, Key, Value};
use vstd::prelude::*;
use vstd::std_specs::iter::IteratorSpec;

verus! {

/// An entry of the table as plain byte strings.
pub type Pair = (Seq<u8>, Seq<u8>);

/// The byte strings that the stored entries hold.
pub open spec fn pairs(entries: Seq<(Key, Value)>) -> Seq<Pair> {
    entries.map_values(|e: (Key, Value)| (e.0@, e.1@))
}

/// Keys strictly ascend in dictionary order.
pub open spec fn ascending(s: Seq<Pair>) -> bool {
    forall|i: int, j: int| 0 <= i < j < s.len() ==> lex_less(#[trigger] s[i].0, #[trigger] s[j].0)
}

/// Whether some entry of `s` has the key `k`.
pub open spec fn has_key(s: Seq<Pair>, k: Seq<u8>) -> bool {
    exists|i: int| 0 <= i < s.len() && (#[trigger] s[i]).0 == k
}

/// The mapping that the entries of `s` stand for.
pub open spec fn map_of(s: Seq<Pair>) -> Map<Seq<u8>, Seq<u8>> {
    Map::new(
        |k: Seq<u8>| has_key(s, k),
        |k: Seq<u8>| s[choose|i: int| 0 <= i < s.len() && (#[trigger] s[i]).0 == k].1,
    )
}

/// In ascending entries each key occurs once, so that the mapping holds each
/// entry's value under its key.
pub proof fn lemma_map_of_entry(s: Seq<Pair>, i: int)
    requires
        ascending(s),
        0 <= i < s.len(),
    ensures
        map_of(s).contains_key(s[i].0),
        map_of(s)[s[i].0] == s[i].1,
{
    // The entry that the mapping picks for this key can only be this one:
    // any other has a key that is below or above it.
    lemma_lex_irreflexive(s[i].0);
}

/// A key that stands between the entries below `at` and those from `at` on is
/// no entry's key.
pub proof fn lemma_absent_between(s: Seq<Pair>, at: int, k: Seq<u8>)
    requires
        0 <= at <= s.len(),
        forall|i: int| 0 <= i < at ==> lex_less((#[trigger] s[i]).0, k),
        forall|i: int| at <= i < s.len() ==> lex_less(k, (#[trigger] s[i]).0),
    ensures
        !has_key(s, k),
        !map_of(s).contains_key(k),
{
    lemma_lex_irreflexive(k);
}

/// Putting a new key at its place keeps the entries ascending and adds the
/// key to the mapping.
pub proof fn lemma_insert_new(s: Seq<Pair>, at: int, k: Seq<u8>, v: Seq<u8>)
    requires
        ascending(s),
        0 <= at <= s.len(),
        forall|i: int| 0 <= i < at ==> lex_less((#[trigger] s[i]).0, k),
        forall|i: int| at <= i < s.len() ==> lex_less(k, (#[trigger] s[i]).0),
    ensures
        ascending(s.insert(at, (k, v))),
        map_of(s.insert(at, (k, v))) == map_of(s).insert(k, v),
{
    let t = s.insert(at, (k, v));
    assert forall|q: Seq<u8>| has_key(t, q) <==> (q == k || has_key(s, q)) by {
        if q == k {
            assert(t[at].0 == k);
        }
        if has_key(s, q) {
            let a = choose|a: int| 0 <= a < s.len() && (#[trigger] s[a]).0 == q;
            let i = if a < at { a } else { a + 1 };
            assert(t[i].0 == q);
        }
    }
    assert forall|q: Seq<u8>| has_key(t, q) implies #[trigger] map_of(t)[q] == map_of(s).insert(
        k,
        v,
    )[q] by {
        let i = choose|i: int| 0 <= i < t.len() && (#[trigger] t[i]).0 == q;
        lemma_map_of_entry(t, i);
        if i != at {
            let a = if i < at { i } else { i - 1 };
            lemma_map_of_entry(s, a);
            lemma_absent_between(s, at, k);
        }
    }
}

/// Replacing the value of an entry keeps the entries ascending and replaces
/// the value in the mapping.
pub proof fn lemma_replace_value(s: Seq<Pair>, at: int, v: Seq<u8>)
    requires
        ascending(s),
        0 <= at < s.len(),
    ensures
        ascending(s.update(at, (s[at].0, v))),
        map_of(s.update(at, (s[at].0, v))) == map_of(s).insert(s[at].0, v),
{
    let k = s[at].0;
    let t = s.update(at, (k, v));
    assert forall|q: Seq<u8>| has_key(t, q) <==> (q == k || has_key(s, q)) by {
        if has_key(s, q) {
            let i = choose|i: int| 0 <= i < s.len() && (#[trigger] s[i]).0 == q;
            assert(t[i].0 == q);
        }
    }
    assert forall|q: Seq<u8>| has_key(t, q) implies #[trigger] map_of(t)[q] == map_of(s).insert(
        k,
        v,
    )[q] by {
        let i = choose|i: int| 0 <= i < t.len() && (#[trigger] t[i]).0 == q;
        lemma_map_of_entry(t, i);
        lemma_map_of_entry(s, i);
        lemma_lex_irreflexive(k);
    }
}

/// What the table is: its entries in ascending order of their keys, its byte
/// budget, and the bytes counted against the budget so far.
pub ghost struct TableView {
    pub entries: Seq<Pair>,
    pub max_size: nat,
    pub size: nat,
}

impl TableView {
    /// The entries ascend by key.
    pub open spec fn wf(self) -> bool {
        ascending(self.entries)
    }

    /// The mapping from key to value.
    pub open spec fn map(self) -> Map<Seq<u8>, Seq<u8>> {
        map_of(self.entries)
    }

    /// Whether the budget is used up.
    pub open spec fn threshold_reached(self) -> bool {
        self.size >= self.max_size
    }
}

/// Where `key` stands among ascending `entries`: the index of the first entry
/// whose key is not below it, and whether that entry has this very key.
fn locate(entries: &Vec<(Key, Value)>, key: &[u8]) -> (at: (usize, bool))
    requires
        ascending(pairs(entries@)),
    ensures
        at.0 <= entries@.len(),
        forall|i: int| 0 <= i < at.0 ==> lex_less((#[trigger] pairs(entries@)[i]).0, key@),
        at.1 ==> at.0 < entries@.len() && pairs(entries@)[at.0 as int].0 == key@,
        !at.1 ==> forall|i: int|
            at.0 <= i < entries@.len() ==> lex_less(key@, (#[trigger] pairs(entries@)[i]).0),
{
    let ghost s = pairs(entries@);
    let mut lo: usize = 0;
    let mut hi: usize = entries.len();
    while lo < hi
        invariant
            s == pairs(entries@),
            ascending(s),
            lo <= hi <= entries@.len(),
            forall|i: int| 0 <= i < lo ==> lex_less((#[trigger] s[i]).0, key@),
            forall|i: int| hi <= i < s.len() ==> lex_less(key@, (#[trigger] s[i]).0),
        decreases hi - lo,
    {
        let mid = lo + (hi - lo) / 2;
        match rank(entries[mid].0.as_slice(), key) {
            Rank::Below => {
                proof {
                    assert forall|i: int| 0 <= i < mid + 1 implies lex_less(
                        (#[trigger] s[i]).0,
                        key@,
                    ) by {
                        if i < mid {
                            lemma_lex_transitive(s[i].0, s[mid as int].0, key@);
                        }
                    }
                }
                lo = mid + 1;
            },
            Rank::Same => {
                proof {
                    assert forall|i: int| 0 <= i < mid implies lex_less(
                        (#[trigger] s[i]).0,
                        key@,
                    ) by {
                        assert(lex_less(s[i].0, s[mid as int].0));
                    }
                }
                return (mid, true);
            },
            Rank::Above => {
                proof {
                    assert forall|i: int| mid <= i < s.len() implies lex_less(
                        key@,
                        (#[trigger] s[i]).0,
                    ) by {
                        if mid < i {
                            lemma_lex_transitive(key@, s[mid as int].0, s[i].0);
                        }
                    }
                }
                hi = mid;
            },
        }
    }
    (lo, false)
}

/// What a successful `set` reports.
#[derive(Debug, PartialEq, Eq, Structural, Copy, Clone)]
pub enum SetRet {
    /// The budget is not used up yet.
    AvailableSpace,
    /// The budget is used up: the table takes no further entry.
    ThresholdReached,
}

/// Why `set` refused an entry.
#[derive(Debug, PartialEq, Eq, Structural, Copy, Clone)]
pub enum SetError {
    /// The key is the tombstone marker.
    TombstoneKey,
    /// The budget was used up before the call.
    ThresholdReached,
}

/// What one call of `set` comes to: `after` is the table that the call leaves
/// and `r` what it returns, for the table `before` and the entry given.
///
/// The tombstone marker is refused as a key, and any entry is refused once the
/// budget is used up; the table then stays as it was. Otherwise the value is
/// stored under the key, the bytes of both are counted, and the result says
/// whether the budget is used up now.
pub open spec fn set_outcome(
    before: TableView,
    key: Seq<u8>,
    value: Seq<u8>,
    after: TableView,
    r: Result<SetRet, SetError>,
) -> bool {
    if key == tombstone() {
        r == Err::<SetRet, SetError>(SetError::TombstoneKey) && after == before
    } else if before.threshold_reached() {
        r == Err::<SetRet, SetError>(SetError::ThresholdReached) && after == before
    } else {
        &&& after.wf()
        &&& after.map() == before.map().insert(key, value)
        &&& after.max_size == before.max_size
        &&& after.size == before.size + key.len() + value.len()
        &&& r == Ok::<SetRet, SetError>(
            if after.threshold_reached() {
                SetRet::ThresholdReached
            } else {
                SetRet::AvailableSpace
            },
        )
    }
}

/// The bytes of the keys and values of `sets`, added up.
pub open spec fn bytes_of(sets: Seq<Pair>) -> nat
    decreases sets.len(),
{
    if sets.len() == 0 {
        0
    } else {
        bytes_of(sets.drop_last()) + sets.last().0.len() + sets.last().1.len()
    }
}

/// Whether `tables` and `results` are what the calls of `set` with the
/// entries `sets`, one after the other, leave and return, from a new table
/// with a budget of `max_size` bytes on.
pub open spec fn is_run(
    max_size: nat,
    sets: Seq<Pair>,
    tables: Seq<TableView>,
    results: Seq<Result<SetRet, SetError>>,
) -> bool {
    &&& tables.len() == sets.len() + 1
    &&& results.len() == sets.len()
    &&& tables[0] == (TableView { entries: Seq::empty(), max_size, size: 0 })
    &&& forall|i: int|
        0 <= i < sets.len() ==> set_outcome(
            tables[i],
            (#[trigger] sets[i]).0,
            sets[i].1,
            tables[i + 1],
            results[i],
        )
}

/// Through a run of sets with keys other than the tombstone marker, the
/// budget stays what it was, and as long as it is not used up the counter is
/// the bytes of all entries so far.
proof fn lemma_run_counts(
    max_size: nat,
    sets: Seq<Pair>,
    tables: Seq<TableView>,
    results: Seq<Result<SetRet, SetError>>,
    n: int,
)
    requires
        is_run(max_size, sets, tables, results),
        forall|i: int| 0 <= i < sets.len() ==> (#[trigger] sets[i]).0 != tombstone(),
        0 <= n <= sets.len(),
    ensures
        tables[n].max_size == max_size,
        tables[n].threshold_reached() || tables[n].size == bytes_of(sets.subrange(0, n)),
    decreases n,
{
    if n > 0 {
        lemma_run_counts(max_size, sets, tables, results, n - 1);
        let step = sets[n - 1];
        assert(set_outcome(tables[n - 1], step.0, step.1, tables[n], results[n - 1]));
        assert(sets.subrange(0, n).drop_last() =~= sets.subrange(0, n - 1));
    }
}

/// Once the entries given to a table, none of them under the tombstone
/// marker, add up to its budget or more, the budget is used up, and every
/// further `set` is refused and leaves the table as it is.
pub proof fn lemma_budget_used_up(
    max_size: nat,
    sets: Seq<Pair>,
    tables: Seq<TableView>,
    results: Seq<Result<SetRet, SetError>>,
)
    requires
        is_run(max_size, sets, tables, results),
        forall|i: int| 0 <= i < sets.len() ==> (#[trigger] sets[i]).0 != tombstone(),
        bytes_of(sets) >= max_size,
    ensures
        tables.last().threshold_reached(),
        forall|key: Seq<u8>, value: Seq<u8>, after: TableView, r: Result<SetRet, SetError>|
            #[trigger] set_outcome(tables.last(), key, value, after, r) ==> r is Err && after
                == tables.last(),
{
    lemma_run_counts(max_size, sets, tables, results, sets.len() as int);
    assert(sets.subrange(0, sets.len() as int) =~= sets);
}

/// A key that was removed reads as the tombstone marker, not as absent:
/// after a `set` of the marker under `key` that was not refused, the mapping
/// holds the marker under `key`.
pub proof fn lemma_removed_reads_tombstone(
    before: TableView,
    key: Seq<u8>,
    after: TableView,
    r: Result<SetRet, SetError>,
)
    requires
        set_outcome(before, key, tombstone(), after, r),
        key != tombstone(),
        !before.threshold_reached(),
    ensures
        r is Ok,
        after.map().contains_key(key),
        after.map()[key] == tombstone(),
{
}

/// Ascending entries hold exactly what their mapping holds: each entry is in
/// the mapping, and each key of the mapping is some entry's key.
pub proof fn lemma_entries_are_the_map(s: Seq<Pair>)
    requires
        ascending(s),
    ensures
        forall|i: int|
            0 <= i < s.len() ==> map_of(s).contains_key((#[trigger] s[i]).0) && map_of(s)[s[i].0]
                == s[i].1,
        forall|k: Seq<u8>| #[trigger]
            map_of(s).contains_key(k) ==> exists|i: int|
                0 <= i < s.len() && (#[trigger] s[i]).0 == k,
{
    assert forall|i: int| 0 <= i < s.len() implies map_of(s).contains_key((#[trigger] s[i]).0)
        && map_of(s)[s[i].0] == s[i].1 by {
        lemma_map_of_entry(s, i);
    }
}

/// Freezing loses nothing: a frozen table with the view of the table it was
/// made from reads every key as that table did, and the entries it walks
/// are, in ascending order of their keys, exactly the entries of that table's
/// mapping.
pub proof fn lemma_freeze_fidelity(table: TableView, frozen: TableView)
    requires
        table.wf(),
        frozen == table,
    ensures
        frozen.map() == table.map(),
        ascending(frozen.entries),
        forall|i: int|
            0 <= i < frozen.entries.len() ==> table.map().contains_key(
                (#[trigger] frozen.entries[i]).0,
            ) && table.map()[frozen.entries[i].0] == frozen.entries[i].1,
        forall|k: Seq<u8>| #[trigger]
            table.map().contains_key(k) ==> exists|i: int|
                0 <= i < frozen.entries.len() && (#[trigger] frozen.entries[i]).0 == k,
{
    lemma_entries_are_the_map(frozen.entries);
}

/// Without its first entry, an ascending sequence stands for the mapping
/// without that entry's key.
proof fn lemma_map_of_rest(s: Seq<Pair>)
    requires
        ascending(s),
        s.len() > 0,
    ensures
        ascending(s.drop_first()),
        map_of(s.drop_first()) == map_of(s).remove(s[0].0),
{
    let rest = s.drop_first();
    lemma_insert_new(rest, 0, s[0].0, s[0].1);
    lemma_absent_between(rest, 0, s[0].0);
    assert(rest.insert(0, s[0]) =~= s);
}

/// A mapping has one ascending sequence of entries only.
pub proof fn lemma_entries_determined(a: Seq<Pair>, b: Seq<Pair>)
    requires
        ascending(a),
        ascending(b),
        map_of(a) == map_of(b),
    ensures
        a == b,
    decreases a.len(),
{
    if a.len() == 0 {
        if b.len() > 0 {
            lemma_map_of_entry(b, 0);
        }
    } else {
        // Each first key is some key of the other sequence, so that neither
        // is below the other: the two first entries are the same.
        lemma_map_of_entry(a, 0);
        lemma_map_of_entry(b, 0);
        lemma_lex_total(a[0].0, b[0].0);
        lemma_map_of_rest(a);
        lemma_map_of_rest(b);
        lemma_entries_determined(a.drop_first(), b.drop_first());
        assert(a =~= seq![a[0]] + a.drop_first());
    }
}

/// A mutable table from key to value, sorted by key, that counts the bytes of
/// every key and value it is given against a budget.
#[derive(Debug)]
pub struct MemTable {
    entries: Vec<(Key, Value)>,
    max_size: usize,
    size: u128,
}

impl View for MemTable {
    type V = TableView;

    closed spec fn view(&self) -> TableView {
        TableView {
            entries: pairs(self.entries@),
            max_size: self.max_size as nat,
            size: self.size as nat,
        }
    }
}

impl MemTable {
    #[verifier::type_invariant]
    spec fn inv(self) -> bool {
        self@.wf()
    }

    /// An empty table with a budget of `max_size` bytes.
    pub fn new(max_size: usize) -> (table: Self)
        ensures
            table@ == (TableView { entries: Seq::empty(), max_size: max_size as nat, size: 0 }),
            table@.wf(),
    {
        let table = MemTable { entries: Vec::new(), max_size, size: 0 };
        assert(pairs(table.entries@) =~= Seq::empty());
        table
    }

    /// Stores `value` under `key`, in place of what was stored there, and
    /// counts the bytes of both against the budget. A key that is the
    /// tombstone marker is refused, and so is any entry once the budget is
    /// used up.
    pub fn set(&mut self, key: Key, value: Value) -> (r: Result<SetRet, SetError>)
        ensures
            set_outcome(old(self)@, key@, value@, final(self)@, r),
    {
        proof {
            use_type_invariant(&*self);
        }
        if is_tombstone(key.as_slice()) {
            return Err(SetError::TombstoneKey);
        }
        if self.is_threshold_reached() {
            return Err(SetError::ThresholdReached);
        }
        let added = key.len() as u128 + value.len() as u128;
        let at = locate(&self.entries, key.as_slice());
        let ghost before = pairs(self.entries@);
        let mut entries: Vec<(Key, Value)> = Vec::new();
        core::mem::swap(&mut self.entries, &mut entries);
        if at.1 {
            proof {
                lemma_replace_value(before, at.0 as int, value@);
            }
            entries.set(at.0, (key, value));
            assert(pairs(entries@) =~= before.update(at.0 as int, (key@, value@)));
        } else {
            proof {
                lemma_insert_new(before, at.0 as int, key@, value@);
            }
            entries.insert(at.0, (key, value));
            assert(pairs(entries@) =~= before.insert(at.0 as int, (key@, value@)));
        }
        self.entries = entries;
        self.size = self.size + added;
        if self.is_threshold_reached() {
            Ok(SetRet::ThresholdReached)
        } else {
            Ok(SetRet::AvailableSpace)
        }
    }

    /// A copy of the value stored under `key`, if there is one. A key that
    /// was removed has the tombstone marker for its value.
    pub fn get(&self, key: &[u8]) -> (value: Option<Value>)
        ensures
            self@.map().contains_key(key@) ==> value is Some && value->0@ == self@.map()[key@],
            !self@.map().contains_key(key@) ==> value is None,
    {
        proof {
            use_type_invariant(self);
        }
        let at = locate(&self.entries, key);
        if at.1 {
            proof {
                lemma_map_of_entry(pairs(self.entries@), at.0 as int);
            }
            Some(self.entries[at.0].1.clone())
        } else {
            proof {
                lemma_absent_between(pairs(self.entries@), at.0 as int, key@);
            }
            None
        }
    }

    /// Marks `key` as deleted: stores the tombstone marker under it.
    pub fn remove(&mut self, key: Key) -> (r: Result<SetRet, SetError>)
        ensures
            set_outcome(old(self)@, key@, tombstone(), final(self)@, r),
    {
        self.set(key, tombstone_value())
    }

    /// Whether the budget is used up.
    pub fn is_threshold_reached(&self) -> (reached: bool)
        ensures
            reached == self@.threshold_reached(),
    {
        self.size >= self.max_size as u128
    }
}

/// A table that was frozen: it can be read and walked in key order, and no
/// longer changed.
#[derive(Debug)]
pub struct ImmutableMemtable {
    entries: Vec<(Key, Value)>,
    max_size: usize,
    size: u128,
}

impl View for ImmutableMemtable {
    type V = TableView;

    closed spec fn view(&self) -> TableView {
        TableView {
            entries: pairs(self.entries@),
            max_size: self.max_size as nat,
            size: self.size as nat,
        }
    }
}

impl From<MemTable> for ImmutableMemtable {
    /// Freezes `memtable`: the frozen table holds the same entries and counters.
    fn from(memtable: MemTable) -> (frozen: Self)
        ensures
            frozen@ == memtable@,
            frozen@.wf(),
    {
        proof {
            use_type_invariant(&memtable);
        }
        ImmutableMemtable {
            entries: memtable.entries,
            max_size: memtable.max_size,
            size: memtable.size,
        }
    }
}

impl vstd::std_specs::convert::FromSpecImpl<MemTable> for ImmutableMemtable {
    open spec fn obeys_from_spec() -> bool {
        true
    }

    closed spec fn from_spec(memtable: MemTable) -> Self {
        ImmutableMemtable {
            entries: memtable.entries,
            max_size: memtable.max_size,
            size: memtable.size,
        }
    }
}

impl ImmutableMemtable {
    #[verifier::type_invariant]
    spec fn inv(self) -> bool {
        self@.wf()
    }

    /// The value stored under `key`, if there is one.
    pub fn get(&self, key: &[u8]) -> (value: Option<&Value>)
        ensures
            self@.map().contains_key(key@) ==> value is Some && value->0@ == self@.map()[key@],
            !self@.map().contains_key(key@) ==> value is None,
    {
        proof {
            use_type_invariant(self);
        }
        let at = locate(&self.entries, key);
        if at.1 {
            proof {
                lemma_map_of_entry(pairs(self.entries@), at.0 as int);
            }
            Some(&self.entries[at.0].1)
        } else {
            proof {
                lemma_absent_between(pairs(self.entries@), at.0 as int, key@);
            }
            None
        }
    }

    /// Walks the entries in ascending order of their keys.
    pub fn iter(&self) -> (walk: core::slice::Iter<'_, (Key, Value)>)
        ensures
            pairs(walk.remaining().unref()) == self@.entries,
            self@.wf(),
    {
        proof {
            use_type_invariant(self);
        }
        let walk = self.entries.iter();
        walk
    }
}

} // verus!
