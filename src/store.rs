//! The log store: records keyed by timestamp, kept in first-insertion order.
use vstd::prelude::*;

use crate::record::{Log, LogView};
use linked_hash_map::LinkedHashMap;

verus! {

#[verifier::external_type_specification]
#[verifier::external_body]
#[verifier::reject_recursive_types(K)]
#[verifier::reject_recursive_types(V)]
#[verifier::reject_recursive_types(S)]
pub struct ExLinkedHashMap<K, V, S>(LinkedHashMap<K, V, S>);

/// The entries of a key-to-position index, in the map's own order.
pub uninterp spec fn index_entries(m: LinkedHashMap<String, usize>) -> Seq<(Seq<char>, usize)>;

/// Relies on `LinkedHashMap::new`: an empty map.
#[verifier::external_body]
fn index_new() -> (r: LinkedHashMap<String, usize>)
    ensures
        index_entries(r) == Seq::<(Seq<char>, usize)>::empty(),
{
    LinkedHashMap::new()
}

/// Some entry of `e` has the key `k`.
pub open spec fn entries_have(e: Seq<(Seq<char>, usize)>, k: Seq<char>) -> bool {
    exists|i: int| 0 <= i < e.len() && e[i].0 == k
}

/// Some entry of `e` is the key `k` with the value `v`.
pub open spec fn entries_map(e: Seq<(Seq<char>, usize)>, k: Seq<char>, v: usize) -> bool {
    exists|i: int| 0 <= i < e.len() && e[i].0 == k && e[i].1 == v
}

/// What `LinkedHashMap::insert` does to the entries `e` when it returns `r`.
pub open spec fn inserted(
    e: Seq<(Seq<char>, usize)>,
    k: Seq<char>,
    v: usize,
    r: Option<usize>,
    e2: Seq<(Seq<char>, usize)>,
) -> bool {
    match r {
        None => !entries_have(e, k) && e2 == e.push((k, v)),
        Some(w) => exists|i: int|
            0 <= i < e.len() && e[i].0 == k && e[i].1 == w && e2 == e.remove(i).push((k, v)),
    }
}

/// Relies on `LinkedHashMap::get`: the value stored under `k`, if any.
#[verifier::external_body]
fn index_get(m: &LinkedHashMap<String, usize>, k: &String) -> (r: Option<usize>)
    ensures
        r is Some == entries_have(index_entries(*m), k@),
        r is Some ==> entries_map(index_entries(*m), k@, r->0),
{
    m.get(k).copied()
}

/// Relies on `LinkedHashMap::insert`: a new key goes to the back; an existing
/// key has its value replaced and is moved to the back; the old value is returned.
#[verifier::external_body]
fn index_insert(m: &mut LinkedHashMap<String, usize>, k: String, v: usize) -> (r: Option<usize>)
    ensures
        inserted(index_entries(*old(m)), k@, v, r, index_entries(*final(m))),
{
    m.insert(k, v)
}

/// The keys of a sequence of records.
pub open spec fn keys(s: Seq<LogView>) -> Seq<Seq<char>> {
    s.map_values(|l: LogView| l.date)
}

/// No two records share a timestamp.
pub open spec fn unique_keys(s: Seq<LogView>) -> bool {
    forall|i: int, j: int| 0 <= i < s.len() && 0 <= j < s.len() && i != j ==> s[i].date != s[j].date
}

/// Some record of `s` has the key `k`.
pub open spec fn has_key(s: Seq<LogView>, k: Seq<char>) -> bool {
    exists|i: int| 0 <= i < s.len() && s[i].date == k
}

/// The position of key `k` in `s`.
pub open spec fn key_pos(s: Seq<LogView>, k: Seq<char>) -> int {
    choose|i: int| 0 <= i < s.len() && s[i].date == k
}

/// Inserting a record: an existing key keeps its place and takes the new
/// record; a new key goes to the back.
pub open spec fn upsert(s: Seq<LogView>, r: LogView) -> Seq<LogView> {
    if has_key(s, r.date) {
        s.update(key_pos(s, r.date), r)
    } else {
        s.push(r)
    }
}

/// Inserting each record of `rs` in turn.
pub open spec fn upsert_all(s: Seq<LogView>, rs: Seq<LogView>) -> Seq<LogView>
    decreases rs.len(),
{
    if rs.len() == 0 {
        s
    } else {
        upsert(upsert_all(s, rs.drop_last()), rs.last())
    }
}

/// Records keyed by timestamp, in the order in which each key first came.
pub struct LogStore {
    index: LinkedHashMap<String, usize>,
    records: Vec<Log>,
}

impl View for LogStore {
    type V = Seq<LogView>;

    closed spec fn view(&self) -> Seq<LogView> {
        self.records@.map_values(|l: Log| l@)
    }
}

impl LogStore {
    /// The index holds each record's key with its position, in the same order.
    pub closed spec fn wf(&self) -> bool {
        let e = index_entries(self.index);
        &&& e.len() == self.records@.len()
        &&& forall|i: int| 0 <= i < e.len() ==> #[trigger] e[i] == (self.records@[i].date@, i as usize)
        &&& unique_keys(self@)
    }

    /// A well-formed store holds each timestamp at most once.
    pub proof fn lemma_keys_unique(&self)
        requires
            self.wf(),
        ensures
            unique_keys(self@),
    {
    }

    /// An empty store.
    pub fn new() -> (r: LogStore)
        ensures
            r.wf(),
            r@ == Seq::<LogView>::empty(),
    {
        let r = LogStore { index: index_new(), records: Vec::new() };
        assert(r@ =~= Seq::<LogView>::empty());
        r
    }

    /// The number of records.
    pub fn len(&self) -> (r: usize)
        ensures
            r == self@.len(),
    {
        self.records.len()
    }

    /// Inserts `log` under its timestamp. A record already stored under that
    /// timestamp is replaced in place; otherwise `log` goes to the back.
    pub fn insert(&mut self, log: Log)
        requires
            old(self).wf(),
            old(self)@.len() < usize::MAX,
        ensures
            final(self).wf(),
            final(self)@ == upsert(old(self)@, log@),
    {
        let ghost s = self@;
        let ghost lv = log@;
        match index_get(&self.index, &log.date) {
            Some(pos) => {
                proof {
                    let e = index_entries(self.index);
                    let i = choose|i: int| 0 <= i < e.len() && e[i].0 == log.date@ && e[i].1 == pos;
                    assert(e[i] == (self.records@[i].date@, i as usize));
                    assert(s[i].date == lv.date);
                    let j = key_pos(s, lv.date);
                    assert(s[j].date == lv.date);
                    assert(j == i);
                }
                self.records.set(pos, log);
                assert(self@ =~= s.update(pos as int, lv));
            },
            None => {
                proof {
                    let e = index_entries(self.index);
                    assert forall|i: int| 0 <= i < s.len() implies s[i].date != lv.date by {
                        assert(e[i] == (self.records@[i].date@, i as usize));
                    }
                    assert(!has_key(s, lv.date));
                }
                let n = self.records.len();
                let key = log.date.clone();
                let ghost e0 = index_entries(self.index);
                let prev = index_insert(&mut self.index, key, n);
                proof {
                    if prev is Some {
                        let i = choose|i: int| 0 <= i < e0.len() && e0[i].0 == lv.date;
                        assert(e0[i] == (self.records@[i].date@, i as usize));
                    }
                }
                self.records.push(log);
                assert(self@ =~= s.push(lv));
                proof {
                    let e = index_entries(self.index);
                    assert forall|i: int| 0 <= i < e.len() implies #[trigger] e[i] == (self.records@[i].date@, i as usize) by {
                        if i < e0.len() {
                            assert(e0[i] == (s[i].date, i as usize));
                        }
                    }
                }
            },
        }
    }

    /// The records in order, as clones of the stored ones.
    pub fn snapshot_values(&self) -> (r: Vec<Log>)
        ensures
            r@.map_values(|l: Log| l@) == self@,
    {
        let mut out: Vec<Log> = Vec::new();
        let mut i: usize = 0;
        while i < self.records.len()
            invariant
                i <= self.records@.len(),
                out@.map_values(|l: Log| l@) =~= self@.subrange(0, i as int),
            decreases self.records@.len() - i,
        {
            let l = self.records[i].clone_log();
            proof {
                assert(out@.push(l).map_values(|l: Log| l@) =~= out@.map_values(|l: Log| l@).push(l@));
                assert(self@.subrange(0, i + 1) =~= self@.subrange(0, i as int).push(self@[i as int]));
            }
            out.push(l);
            i = i + 1;
        }
        assert(self@.subrange(0, self.records@.len() as int) =~= self@);
        out
    }
}

} // verus!
