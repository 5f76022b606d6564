//! The cache of opened files: their parsed entries by cache key (path,
//! modification time and size), so that a file is read, extracted and
//! scanned once. Adding to a cache that holds more than 8 entries empties it
//! first.

use vstd::prelude::*;
use std::sync::Arc;
use crate::commands::StreamEntry;
use crate::text::str_eq;

verus! {

/// Shares an entry: through std's `Arc::clone`, which points to the same
/// allocation, so the shared entry is the entry itself.
#[verifier::external_body]
fn share(a: &Arc<StreamEntry>) -> (r: Arc<StreamEntry>)
    ensures
        r == *a,
{
    Arc::clone(a)
}

/// The entries of a cache, by key: a list whose keys are pairwise distinct.
/// A `HashMap` keyed by `String` would say nothing here, since vstd gives
/// hash-map lookups a meaning only for keys whose hashing it models
/// (integers, `bool`, ...), and `String` is not among them.
pub struct EntryCache {
    entries: Vec<(String, Arc<StreamEntry>)>,
}

/// The map of a list of entries, the later of two with one key winning.
pub open spec fn entries_map(v: Seq<(String, Arc<StreamEntry>)>) -> Map<Seq<char>, Arc<StreamEntry>>
    decreases v.len(),
{
    if v.len() == 0 {
        Map::empty()
    } else {
        entries_map(v.drop_last()).insert(v.last().0@, v.last().1)
    }
}

/// The keys of a list of entries are pairwise distinct.
pub open spec fn distinct_keys(v: Seq<(String, Arc<StreamEntry>)>) -> bool {
    forall|i: int, j: int| 0 <= i < j < v.len() ==> v[i].0@ != v[j].0@
}

/// The cache after adding entry `e` under key `k` to a cache `m`: emptied
/// first when it holds more than 8 entries.
pub open spec fn after_put(m: Map<Seq<char>, Arc<StreamEntry>>, k: Seq<char>, e: Arc<StreamEntry>) -> Map<
    Seq<char>,
    Arc<StreamEntry>,
> {
    if m.dom().len() > 8 {
        Map::<Seq<char>, Arc<StreamEntry>>::empty().insert(k, e)
    } else {
        m.insert(k, e)
    }
}

proof fn lemma_entries_map(v: Seq<(String, Arc<StreamEntry>)>)
    requires
        distinct_keys(v),
    ensures
        entries_map(v).dom().finite(),
        entries_map(v).dom().len() == v.len(),
        forall|i: int| 0 <= i < v.len() ==> #[trigger] entries_map(v).index_opt(v[i].0@) == Some(v[i].1),
        forall|k: Seq<char>| entries_map(v).dom().contains(k) ==> exists|i: int| 0 <= i < v.len() && #[trigger] v[i].0@ == k,
    decreases v.len(),
{
    if v.len() > 0 {
        let w = v.drop_last();
        assert(distinct_keys(w));
        lemma_entries_map(w);
        assert(!entries_map(w).dom().contains(v.last().0@)) by {
            if entries_map(w).dom().contains(v.last().0@) {
                let i = choose|i: int| 0 <= i < w.len() && #[trigger] w[i].0@ == v.last().0@;
                assert(v[i].0@ != v[v.len() - 1].0@);
            }
        }
        assert forall|i: int| 0 <= i < v.len() implies #[trigger] entries_map(v).index_opt(v[i].0@) == Some(v[i].1) by {
            if i < v.len() - 1 {
                assert(w[i] == v[i]);
                assert(v[i].0@ != v[v.len() - 1].0@);
                assert(entries_map(w).index_opt(w[i].0@) == Some(w[i].1));
                assert(entries_map(w).dom().contains(v[i].0@));
                assert(entries_map(v).dom().contains(v[i].0@));
                assert(entries_map(v)[v[i].0@] == entries_map(w)[v[i].0@]);
            } else {
                assert(entries_map(v).dom().contains(v.last().0@));
            }
        }
        assert forall|k: Seq<char>| entries_map(v).dom().contains(k) implies exists|i: int| 0 <= i < v.len() && #[trigger] v[i].0@ == k by {
            if k != v.last().0@ {
                let i = choose|i: int| 0 <= i < w.len() && #[trigger] w[i].0@ == k;
                assert(v[i] == w[i]);
            } else {
                assert(v[v.len() - 1].0@ == k);
            }
        }
    }
}

impl EntryCache {
    /// The cache as a map from keys to entries.
    pub closed spec fn view(&self) -> Map<Seq<char>, Arc<StreamEntry>> {
        entries_map(self.entries@)
    }

    /// One entry per key.
    #[verifier::type_invariant]
    spec fn wf(&self) -> bool {
        distinct_keys(self.entries@)
    }

    pub fn new() -> (r: EntryCache)
        ensures
            r.view() == Map::<Seq<char>, Arc<StreamEntry>>::empty(),
    {
        EntryCache { entries: Vec::new() }
    }

    /// The entry cached under `key`.
    pub fn get(&self, key: &str) -> (r: Option<Arc<StreamEntry>>)
        ensures
            r == self.view().index_opt(key@),
    {
        proof {
            use_type_invariant(self);
            lemma_entries_map(self.entries@);
        }
        let mut i: usize = 0;
        while i < self.entries.len()
            invariant
                i <= self.entries@.len(),
                distinct_keys(self.entries@),
                forall|j: int| 0 <= j < i ==> self.entries@[j].0@ != key@,
            decreases self.entries@.len() - i,
        {
            if str_eq(self.entries[i].0.as_str(), key) {
                proof {
                    lemma_entries_map(self.entries@);
                    assert(self.view().index_opt(self.entries@[i as int].0@) == Some(self.entries@[i as int].1));
                }
                return Some(share(&self.entries[i].1));
            }
            i += 1;
        }
        proof {
            if self.view().dom().contains(key@) {
                let j = choose|j: int| 0 <= j < self.entries@.len() && #[trigger] self.entries@[j].0@ == key@;
            }
        }
        None
    }

    /// Caches `entry` under `key`, emptying the cache first when it holds
    /// more than 8 entries.
    pub fn put(&mut self, key: String, entry: Arc<StreamEntry>)
        ensures
            final(self).view() == after_put(old(self).view(), key@, entry),
    {
        proof {
            use_type_invariant(&*self);
            lemma_entries_map(self.entries@);
        }
        let mut entries = Vec::new();
        std::mem::swap(&mut entries, &mut self.entries);
        if entries.len() > 8 {
            entries.clear();
            assert(entries_map(entries@) =~= Map::<Seq<char>, Arc<StreamEntry>>::empty());
        }
        let ghost kept = entries@;
        let mut i: usize = 0;
        while i < entries.len()
            invariant
                i <= entries@.len(),
                entries@ == kept,
                distinct_keys(kept),
                forall|j: int| 0 <= j < i ==> kept[j].0@ != key@,
            ensures
                i <= kept.len(),
                entries@ == kept,
                forall|j: int| 0 <= j < i ==> kept[j].0@ != key@,
                i < kept.len() ==> kept[i as int].0@ == key@,
            decreases entries@.len() - i,
        {
            if str_eq(entries[i].0.as_str(), key.as_str()) {
                break;
            }
            i += 1;
        }
        if i < entries.len() {
            entries.remove(i);
            proof {
                lemma_entries_map_remove(kept, i as int);
            }
        }
        let ghost before = entries@;
        proof {
            lemma_entries_map(before);
            assert forall|j: int| 0 <= j < before.len() implies before[j].0@ != key@ by {
                if i < kept.len() {
                    if j < i {
                        assert(before[j] == kept[j]);
                    } else {
                        assert(before[j] == kept[j + 1]);
                        assert(kept[j + 1].0@ != kept[i as int].0@);
                    }
                }
            }
        }
        entries.push((key, entry));
        proof {
            assert(entries@.drop_last() =~= before);
            if i < kept.len() {
                assert(entries_map(before) == entries_map(kept).remove(key@));
            }
            assert(entries_map(before).insert(key@, entry) =~= entries_map(kept).insert(key@, entry));
            assert(distinct_keys(entries@)) by {
                assert forall|a: int, b: int| 0 <= a < b < entries@.len() implies entries@[a].0@ != entries@[b].0@ by {
                    if b == entries@.len() - 1 {
                        assert(entries@[a] == before[a]);
                    } else {
                        assert(entries@[a] == before[a] && entries@[b] == before[b]);
                    }
                }
            }
        }
        self.entries = entries;
    }
}

proof fn lemma_entries_map_remove(v: Seq<(String, Arc<StreamEntry>)>, i: int)
    requires
        distinct_keys(v),
        0 <= i < v.len(),
    ensures
        distinct_keys(v.remove(i)),
        entries_map(v.remove(i)) == entries_map(v).remove(v[i].0@),
{
    let w = v.remove(i);
    assert forall|a: int, b: int| 0 <= a < b < w.len() implies w[a].0@ != w[b].0@ by {
        let a2 = if a < i { a } else { a + 1 };
        let b2 = if b < i { b } else { b + 1 };
        assert(w[a] == v[a2] && w[b] == v[b2]);
    }
    lemma_entries_map(v);
    lemma_entries_map(w);
    let m = entries_map(v).remove(v[i].0@);
    assert forall|x: Seq<char>| #![auto] entries_map(w).dom().contains(x) <==> m.dom().contains(x) by {
        if entries_map(w).dom().contains(x) {
            let j = choose|j: int| 0 <= j < w.len() && #[trigger] w[j].0@ == x;
            let j2 = if j < i { j } else { j + 1 };
            assert(w[j] == v[j2]);
            assert(entries_map(v).index_opt(v[j2].0@) == Some(v[j2].1));
            assert(v[j2].0@ != v[i].0@);
        }
        if m.dom().contains(x) {
            let j = choose|j: int| 0 <= j < v.len() && #[trigger] v[j].0@ == x;
            assert(j != i);
            let j2 = if j < i { j } else { j - 1 };
            assert(w[j2] == v[j]);
            assert(entries_map(w).index_opt(w[j2].0@) == Some(w[j2].1));
        }
    }
    assert forall|x: Seq<char>| #![auto] entries_map(w).dom().contains(x) implies entries_map(w)[x] == m[x] by {
        let j = choose|j: int| 0 <= j < w.len() && #[trigger] w[j].0@ == x;
        let j2 = if j < i { j } else { j + 1 };
        assert(w[j] == v[j2]);
        assert(entries_map(w).index_opt(w[j].0@) == Some(w[j].1));
        assert(entries_map(v).index_opt(v[j2].0@) == Some(v[j2].1));
        assert(v[j2].0@ != v[i].0@);
    }
    assert(entries_map(w) =~= m);
}

/// A read gives back what a write wrote: after caching `e` under `k`, the
/// entry under `k` is `e`, and the entries under other keys are those kept.
pub proof fn lemma_read_after_put(m: Map<Seq<char>, Arc<StreamEntry>>, k: Seq<char>, e: Arc<StreamEntry>, other: Seq<char>)
    requires
        other != k,
    ensures
        after_put(m, k, e).index_opt(k) == Some(e),
        m.dom().len() <= 8 ==> after_put(m, k, e).index_opt(other) == m.index_opt(other),
        m.dom().len() > 8 ==> after_put(m, k, e).index_opt(other) is None,
{
}

} // verus!
