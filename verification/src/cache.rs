//! The key under which the value of a search is remembered, and a table of
//! remembered values. Keeping the table on disk is left to the caller.

use vstd::prelude::*;

verus! {

/// The key of a remembered value: which function was called, on which group,
/// with which further arguments.
#[derive(Debug, Clone, PartialEq, Eq, Hash)]
pub struct CacheEntry {
    pub fid: u8,
    pub group: Vec<u8>,
    pub other_args: Vec<u8>,
}

/// A key, as plain values.
pub type Key = (u8, Seq<u8>, Seq<u8>);

/// The numbers of a list, each as a `u8`.
pub open spec fn narrowed(v: Seq<u32>) -> Seq<u8> {
    Seq::new(v.len(), |i: int| v[i] as u8)
}

/// Every number of the list is below 255.
pub open spec fn all_small(v: Seq<u32>) -> bool {
    forall|i: int| 0 <= i < v.len() ==> #[trigger] v[i] < 255
}

/// The numbers of a list as `u8`, where each is below 255.
fn narrow(v: &Vec<u32>) -> (r: Option<Vec<u8>>)
    ensures
        r is Some == all_small(v@),
        r is Some ==> r->0@ == narrowed(v@),
{
    let mut out: Vec<u8> = Vec::new();
    let mut i: usize = 0;
    while i < v.len()
        invariant
            i <= v@.len(),
            out@.len() == i,
            forall|j: int| 0 <= j < i ==> #[trigger] v@[j] < 255,
            forall|j: int| 0 <= j < i ==> out@[j] == v@[j] as u8,
        decreases v@.len() - i,
    {
        let x: u32 = v[i];
        if x >= 255 {
            return None;
        }
        out.push(x as u8);
        i += 1;
    }
    proof {
        assert(out@ =~= narrowed(v@));
    }
    Some(out)
}

/// Whether two lists hold the same numbers.
fn same_bytes(a: &Vec<u8>, b: &Vec<u8>) -> (r: bool)
    ensures
        r == (a@ == b@),
{
    if a.len() != b.len() {
        return false;
    }
    let mut i: usize = 0;
    while i < a.len()
        invariant
            i <= a@.len(),
            a@.len() == b@.len(),
            forall|j: int| 0 <= j < i ==> a@[j] == b@[j],
        decreases a@.len() - i,
    {
        if a[i] != b[i] {
            return false;
        }
        i += 1;
    }
    proof {
        assert(a@ =~= b@);
    }
    true
}

impl CacheEntry {
    /// The key as plain values.
    pub open spec fn key(&self) -> Key {
        (self.fid, self.group@, self.other_args@)
    }

    /// Whether the two keys are the same.
    pub fn same(&self, other: &CacheEntry) -> (r: bool)
        ensures
            r == (self.key() == other.key()),
    {
        self.fid == other.fid && same_bytes(&self.group, &other.group) && same_bytes(
            &self.other_args,
            &other.other_args,
        )
    }

    /// The key for a call of the function numbered `fid`; `None` unless every
    /// modulus and every further argument is below 255.
    pub fn for_call(fid: u8, group: &Vec<u32>, other_args: &Vec<u32>) -> (r: Option<CacheEntry>)
        ensures
            r is Some == (all_small(group@) && all_small(other_args@)),
            r is Some ==> r->0.key() == (fid, narrowed(group@), narrowed(other_args@)),
    {
        match narrow(group) {
            None => None,
            Some(g) => match narrow(other_args) {
                None => None,
                Some(rest) => Some(CacheEntry { fid: fid, group: g, other_args: rest }),
            },
        }
    }
}

/// A table of remembered values, with the version of its layout.
#[derive(Debug, Clone)]
pub struct Cache {
    pub major_version: u8,
    pub minor_version: u8,
    pub map: Vec<(CacheEntry, u8)>,
}

/// The table that a list of keys and values stands for; a later entry
/// replaces an earlier one with the same key.
pub open spec fn table_of(entries: Seq<(CacheEntry, u8)>) -> Map<Key, u8>
    decreases entries.len(),
{
    if entries.len() == 0 {
        Map::empty()
    } else {
        table_of(entries.drop_last()).insert(entries.last().0.key(), entries.last().1)
    }
}

/// No key occurs twice.
pub open spec fn distinct_keys(entries: Seq<(CacheEntry, u8)>) -> bool {
    forall|i: int, j: int|
        0 <= i < j < entries.len() ==> (#[trigger] entries[i]).0.key() != (
        #[trigger] entries[j]).0.key()
}

/// A table holds a key exactly when some entry has it.
pub proof fn lemma_table_keys(entries: Seq<(CacheEntry, u8)>, k: Key)
    ensures
        table_of(entries).contains_key(k) == exists|i: int|
            0 <= i < entries.len() && (#[trigger] entries[i]).0.key() == k,
    decreases entries.len(),
{
    if entries.len() > 0 {
        let init = entries.drop_last();
        lemma_table_keys(init, k);
        if table_of(entries).contains_key(k) {
            if entries.last().0.key() == k {
                assert(entries[entries.len() - 1].0.key() == k);
            } else {
                let i = choose|i: int| 0 <= i < init.len() && (#[trigger] init[i]).0.key() == k;
                assert(entries[i].0.key() == k);
            }
        }
        if exists|i: int| 0 <= i < entries.len() && (#[trigger] entries[i]).0.key() == k {
            let i = choose|i: int| 0 <= i < entries.len() && (#[trigger] entries[i]).0.key() == k;
            if i < init.len() {
                assert(init[i].0.key() == k);
            }
        }
    }
}

/// Where no key occurs twice, a table holds for the key of an entry the
/// value of that entry.
pub proof fn lemma_table_value(entries: Seq<(CacheEntry, u8)>, i: int)
    requires
        distinct_keys(entries),
        0 <= i < entries.len(),
    ensures
        table_of(entries).contains_key(entries[i].0.key()),
        table_of(entries)[entries[i].0.key()] == entries[i].1,
    decreases entries.len(),
{
    let init = entries.drop_last();
    if i < entries.len() - 1 {
        assert forall|a: int, b: int| 0 <= a < b < init.len() implies (#[trigger] init[a]).0.key()
            != (#[trigger] init[b]).0.key() by {
            assert(init[a] == entries[a] && init[b] == entries[b]);
        }
        lemma_table_value(init, i);
        assert(init[i] == entries[i]);
        assert(entries[i].0.key() != entries[entries.len() - 1].0.key());
    }
}

impl View for Cache {
    type V = Map<Key, u8>;

    open spec fn view(&self) -> Map<Key, u8> {
        table_of(self.map@)
    }
}

impl Cache {
    /// No key occurs twice in the table.
    pub open spec fn wf(&self) -> bool {
        distinct_keys(self.map@)
    }

    /// The empty table of the current layout.
    pub fn new() -> (r: Cache)
        ensures
            r.wf(),
            r@ == Map::<Key, u8>::empty(),
            r.major_version == 0,
            r.minor_version == 1,
    {
        Cache { major_version: 0u8, minor_version: 1u8, map: Vec::new() }
    }
}

/// The value that the table holds for the key, if any.
pub fn cache_get(cache: &Cache, cache_entry: &CacheEntry) -> (result: Option<u32>)
    requires
        cache.wf(),
    ensures
        result == if cache@.contains_key(cache_entry.key()) {
            Some(cache@[cache_entry.key()] as u32)
        } else {
            None
        },
{
    let mut i: usize = 0;
    while i < cache.map.len()
        invariant
            i <= cache.map@.len(),
            cache.wf(),
            forall|j: int| 0 <= j < i ==> (#[trigger] cache.map@[j]).0.key() != cache_entry.key(),
        decreases cache.map@.len() - i,
    {
        if cache.map[i].0.same(cache_entry) {
            proof {
                lemma_table_value(cache.map@, i as int);
            }
            return Some(cache.map[i].1 as u32);
        }
        i += 1;
    }
    proof {
        lemma_table_keys(cache.map@, cache_entry.key());
    }
    None
}

/// Makes the table hold `v` for the key.
pub fn cache_set(cache: &mut Cache, cache_entry: CacheEntry, v: u8)
    requires
        old(cache).wf(),
    ensures
        final(cache).wf(),
        final(cache)@ == old(cache)@.insert(cache_entry.key(), v),
        final(cache).major_version == old(cache).major_version,
        final(cache).minor_version == old(cache).minor_version,
{
    let ghost before = cache.map@;
    let ghost k = cache_entry.key();
    let mut i: usize = 0;
    while i < cache.map.len()
        invariant
            i <= cache.map@.len(),
            cache.map@ == before,
            *cache == *old(cache),
            distinct_keys(before),
            k == cache_entry.key(),
            forall|j: int| 0 <= j < i ==> (#[trigger] before[j]).0.key() != k,
        decreases cache.map@.len() - i,
    {
        if cache.map[i].0.same(&cache_entry) {
            cache.map.set(i, (cache_entry, v));
            proof {
                let after = cache.map@;
                assert(before[i as int].0.key() == k);
                assert forall|j: int| 0 <= j < after.len() implies (#[trigger] after[j]).0.key()
                    == before[j].0.key() by {
                    if j != i {
                        assert(after[j] == before[j]);
                    }
                }
                assert forall|a: int, b: int| 0 <= a < b < after.len() implies (
                #[trigger] after[a]).0.key() != (#[trigger] after[b]).0.key() by {
                    assert(before[a].0.key() != before[b].0.key());
                }
                assert forall|x: Key| #[trigger] table_of(after).contains_key(x) == table_of(
                    before,
                ).insert(k, v).contains_key(x) by {
                    lemma_table_keys(after, x);
                    lemma_table_keys(before, x);
                    if exists|j: int| 0 <= j < after.len() && (#[trigger] after[j]).0.key() == x {
                        let j = choose|j: int|
                            0 <= j < after.len() && (#[trigger] after[j]).0.key() == x;
                        assert(before[j].0.key() == x);
                    }
                    if exists|j: int| 0 <= j < before.len() && (#[trigger] before[j]).0.key() == x {
                        let j = choose|j: int|
                            0 <= j < before.len() && (#[trigger] before[j]).0.key() == x;
                        assert(after[j].0.key() == x);
                    }
                    if x == k {
                        assert(after[i as int].0.key() == x);
                    }
                }
                assert forall|x: Key| table_of(after).contains_key(x) implies #[trigger] table_of(
                    after,
                )[x] == table_of(before).insert(k, v)[x] by {
                    lemma_table_keys(after, x);
                    let j = choose|j: int|
                        0 <= j < after.len() && (#[trigger] after[j]).0.key() == x;
                    lemma_table_value(after, j);
                    assert(before[j].0.key() == x);
                    lemma_table_value(before, j);
                    if x != k {
                        assert(j != i);
                        assert(after[j] == before[j]);
                    } else {
                        if j != i {
                            if j < i {
                                assert(after[j].0.key() != after[i as int].0.key());
                            } else {
                                assert(after[i as int].0.key() != after[j].0.key());
                            }
                        }
                    }
                }
                assert(table_of(after) =~= table_of(before).insert(k, v));
            }
            return;
        }
        i += 1;
    }
    cache.map.push((cache_entry, v));
    proof {
        let after = cache.map@;
        assert(after.drop_last() =~= before);
        assert forall|a: int, b: int| 0 <= a < b < after.len() implies (#[trigger] after[a]).0.key()
            != (#[trigger] after[b]).0.key() by {
            assert(after[a] == before[a]);
            if b < before.len() {
                assert(after[b] == before[b]);
            }
        }
    }
}

} // verus!
