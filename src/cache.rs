//! The block cache: resolved accounts, storage slots, code and block hashes of
//! one forked chain at one pinned height, with its snapshot form.

use vstd::prelude::*;
use crate::assoc::{assoc, has_key, keys_unique, lemma_assoc_dom, lemma_assoc_index, lemma_assoc_push};
use crate::types::{Address, Word};

verus! {

/// The identity of a cache: chain, pinned height and the hosts it is fetched from.
#[derive(Debug)]
pub struct ChainMeta {
    pub chain_id: u64,
    pub height: u64,
    pub hosts: Vec<String>,
}

/// The host set of a list of host names.
pub open spec fn host_set(hosts: Seq<String>) -> Set<Seq<char>> {
    Set::new(|h: Seq<char>| exists|i: int| 0 <= i < hosts.len() && hosts[i]@ == h)
}

/// Two identities are the same chain, height and host set.
pub open spec fn same_meta(a: ChainMeta, b: ChainMeta) -> bool {
    a.chain_id == b.chain_id && a.height == b.height && host_set(a.hosts@) == host_set(b.hosts@)
}

/// An account as it stands at the pinned height.
#[derive(Clone, Copy, Debug, PartialEq, Eq, Structural)]
pub struct AccountRecord {
    pub balance: Word,
    pub nonce: u64,
    pub exists: bool,
}

/// What a request asks for.
#[derive(Clone, Copy, Debug, PartialEq, Eq, Structural)]
pub enum Key {
    Account(Address),
    Storage(Address, Word),
    BlockHash(u64),
    Code(Address),
}

/// A resolved answer.
#[derive(Debug, PartialEq, Eq)]
pub enum Value {
    Account(AccountRecord),
    Storage(Word),
    BlockHash(Word),
    Code(Vec<u8>),
}

/// The mathematical content of a `Value`.
pub enum ValueView {
    Account(AccountRecord),
    Storage(Word),
    BlockHash(Word),
    Code(Seq<u8>),
}

impl Value {
    pub open spec fn view(&self) -> ValueView {
        match self {
            Value::Account(a) => ValueView::Account(*a),
            Value::Storage(w) => ValueView::Storage(*w),
            Value::BlockHash(w) => ValueView::BlockHash(*w),
            Value::Code(c) => ValueView::Code(c@),
        }
    }

    /// An equal copy.
    pub fn duplicate(&self) -> (r: Value)
        ensures
            r@ == self@,
    {
        match self {
            Value::Account(a) => Value::Account(*a),
            Value::Storage(w) => Value::Storage(*w),
            Value::BlockHash(w) => Value::BlockHash(*w),
            Value::Code(c) => Value::Code(copy_bytes(c)),
        }
    }
}

fn copy_bytes(v: &Vec<u8>) -> (r: Vec<u8>)
    ensures
        r@ == v@,
{
    let mut r: Vec<u8> = Vec::new();
    let mut i: usize = 0;
    while i < v.len()
        invariant
            i <= v@.len(),
            r@ == v@.subrange(0, i as int),
        decreases v@.len() - i,
    {
        r.push(v[i]);
        proof {
            assert(r@ =~= v@.subrange(0, i + 1));
        }
        i = i + 1;
    }
    proof {
        assert(v@.subrange(0, v@.len() as int) =~= v@);
    }
    r
}

fn copy_hosts(v: &Vec<String>) -> (r: Vec<String>)
    ensures
        r@ == v@,
{
    let mut r: Vec<String> = Vec::new();
    let mut i: usize = 0;
    while i < v.len()
        invariant
            i <= v@.len(),
            r@ == v@.subrange(0, i as int),
        decreases v@.len() - i,
    {
        r.push(v[i].clone());
        proof {
            assert(r@ =~= v@.subrange(0, i + 1));
        }
        i = i + 1;
    }
    proof {
        assert(v@.subrange(0, v@.len() as int) =~= v@);
    }
    r
}

/// The keys and contents of a list of entries.
pub open spec fn entries_view(s: Seq<(Key, Value)>) -> Seq<(Key, ValueView)> {
    s.map_values(|e: (Key, Value)| (e.0, e.1@))
}

/// Every host of `a` is a host of `b`.
fn hosts_within(a: &Vec<String>, b: &Vec<String>) -> (r: bool)
    ensures
        r == host_set(a@).subset_of(host_set(b@)),
{
    let mut i: usize = 0;
    while i < a.len()
        invariant
            i <= a@.len(),
            forall|k: int| 0 <= k < i ==> host_set(b@).contains(#[trigger] a@[k]@),
        decreases a@.len() - i,
    {
        let mut j: usize = 0;
        let mut found = false;
        while j < b.len()
            invariant
                j <= b@.len(),
                i < a@.len(),
                found ==> host_set(b@).contains(a@[i as int]@),
                !found ==> forall|k: int| 0 <= k < j ==> b@[k]@ != a@[i as int]@,
            decreases b@.len() - j,
        {
            if a[i] == b[j] {
                found = true;
            }
            j = j + 1;
        }
        if !found {
            proof {
                assert(host_set(a@).contains(a@[i as int]@));
            }
            return false;
        }
        i = i + 1;
    }
    proof {
        assert forall|h: Seq<char>| host_set(a@).contains(h) implies host_set(b@).contains(h) by {
            let k = choose|k: int| 0 <= k < a@.len() && a@[k]@ == h;
            assert(host_set(b@).contains(a@[k]@));
        }
    }
    true
}

impl ChainMeta {
    /// Whether `self` and `other` name the same chain, height and host set.
    pub fn same_as(&self, other: &ChainMeta) -> (r: bool)
        ensures
            r == same_meta(*self, *other),
    {
        if self.chain_id != other.chain_id || self.height != other.height {
            return false;
        }
        let ab = hosts_within(&self.hosts, &other.hosts);
        let ba = hosts_within(&other.hosts, &self.hosts);
        proof {
            if ab && ba {
                assert(host_set(self.hosts@) =~= host_set(other.hosts@));
            }
        }
        ab && ba
    }

    /// An equal copy.
    pub fn duplicate(&self) -> (r: ChainMeta)
        ensures
            r.chain_id == self.chain_id,
            r.height == self.height,
            r.hosts@ == self.hosts@,
    {
        ChainMeta { chain_id: self.chain_id, height: self.height, hosts: copy_hosts(&self.hosts) }
    }
}

/// The durable image of a cache: its identity and its entries.
#[derive(Debug)]
pub struct Snapshot {
    pub meta: ChainMeta,
    pub entries: Vec<(Key, Value)>,
}

/// Resolved values of one `ChainMeta`; a key, once present, keeps its value.
pub struct BlockCache {
    meta: ChainMeta,
    entries: Vec<(Key, Value)>,
}

/// The contents of a cache that is loaded for `meta` from `snap`: the snapshot's
/// entries when its identity is `meta` and it is sound, else nothing.
pub open spec fn loaded(meta: ChainMeta, snap: Option<Snapshot>) -> Map<Key, ValueView> {
    match snap {
        Some(s) => if same_meta(s.meta, meta) && keys_unique(entries_view(s.entries@)) {
            assoc(entries_view(s.entries@))
        } else {
            Map::empty()
        },
        None => Map::empty(),
    }
}

impl BlockCache {
    pub closed spec fn view(&self) -> Map<Key, ValueView> {
        assoc(entries_view(self.entries@))
    }

    /// The entries in the order they were resolved.
    pub closed spec fn entry_seq(&self) -> Seq<(Key, ValueView)> {
        entries_view(self.entries@)
    }

    pub closed spec fn spec_meta(&self) -> ChainMeta {
        self.meta
    }

    pub closed spec fn wf(&self) -> bool {
        keys_unique(entries_view(self.entries@))
    }

    /// An empty cache, kept in memory only.
    pub fn new(meta: ChainMeta) -> (r: BlockCache)
        ensures
            r.wf(),
            r@ == Map::<Key, ValueView>::empty(),
            r.spec_meta() == meta,
    {
        let r = BlockCache { meta, entries: Vec::new() };
        proof {
            assert(entries_view(r.entries@) =~= Seq::<(Key, ValueView)>::empty());
        }
        r
    }

    pub fn meta(&self) -> (r: &ChainMeta)
        ensures
            *r == self.spec_meta(),
    {
        &self.meta
    }

    fn find(&self, key: &Key) -> (r: Option<usize>)
        requires
            self.wf(),
        ensures
            r.is_none() ==> !self@.contains_key(*key),
            r matches Some(i) ==> i < self.entries@.len() && self.entries@[i as int].0 == *key,
    {
        let mut i: usize = 0;
        while i < self.entries.len()
            invariant
                i <= self.entries@.len(),
                forall|j: int| 0 <= j < i ==> self.entries@[j].0 != *key,
            decreases self.entries@.len() - i,
        {
            if self.entries[i].0 == *key {
                return Some(i);
            }
            i = i + 1;
        }
        proof {
            let s = entries_view(self.entries@);
            lemma_assoc_dom(s, *key);
            if has_key(s, *key) {
                let j = choose|j: int| 0 <= j < s.len() && s[j].0 == *key;
                assert(self.entries@[j].0 == s[j].0);
            }
        }
        None
    }

    /// Whether `key` is resolved.
    pub fn contains(&self, key: &Key) -> (r: bool)
        requires
            self.wf(),
        ensures
            r == self@.contains_key(*key),
    {
        match self.find(key) {
            Some(i) => {
                proof {
                    lemma_assoc_index(entries_view(self.entries@), i as int);
                }
                true
            },
            None => false,
        }
    }

    /// The resolved value of `key`, if any.
    pub fn get(&self, key: &Key) -> (r: Option<Value>)
        requires
            self.wf(),
        ensures
            r.is_none() == !self@.contains_key(*key),
            r matches Some(v) ==> v@ == self@[*key],
    {
        match self.find(key) {
            Some(i) => {
                proof {
                    lemma_assoc_index(entries_view(self.entries@), i as int);
                }
                Some(self.entries[i].1.duplicate())
            },
            None => None,
        }
    }

    /// Stores `value` for `key` unless `key` is resolved already: a present
    /// value is never replaced.
    pub fn insert(&mut self, key: Key, value: Value)
        requires
            old(self).wf(),
        ensures
            final(self).wf(),
            final(self).spec_meta() == old(self).spec_meta(),
            final(self)@ == if old(self)@.contains_key(key) {
                old(self)@
            } else {
                old(self)@.insert(key, value@)
            },
    {
        let found = self.find(&key);
        if let Some(i) = found {
            proof {
                lemma_assoc_index(entries_view(self.entries@), i as int);
            }
        } else {
            let ghost s = entries_view(self.entries@);
            let ghost v = value@;
            proof {
                lemma_assoc_dom(s, key);
                lemma_assoc_push(s, key, v);
            }
            self.entries.push((key, value));
            proof {
                assert(entries_view(self.entries@) =~= s.push((key, v)));
            }
        }
    }

    /// The durable image of this cache.
    pub fn save(&self) -> (r: Snapshot)
        requires
            self.wf(),
        ensures
            r.meta.chain_id == self.spec_meta().chain_id,
            r.meta.height == self.spec_meta().height,
            r.meta.hosts@ == self.spec_meta().hosts@,
            entries_view(r.entries@) == self.entry_seq(),
    {
        let mut out: Vec<(Key, Value)> = Vec::new();
        let mut i: usize = 0;
        while i < self.entries.len()
            invariant
                i <= self.entries@.len(),
                entries_view(out@) == entries_view(self.entries@.subrange(0, i as int)),
            decreases self.entries@.len() - i,
        {
            let e = (self.entries[i].0, self.entries[i].1.duplicate());
            let ghost before = out@;
            out.push(e);
            proof {
                assert(out@ =~= before.push(e));
                assert(self.entries@.subrange(0, i + 1) =~= self.entries@.subrange(0, i as int).push(self.entries@[i as int]));
                let ev = (e.0, e.1@);
                assert(entries_view(out@) =~= entries_view(before).push(ev));
                assert(entries_view(self.entries@.subrange(0, i + 1)) =~= entries_view(self.entries@.subrange(0, i as int)).push(ev));
            }
            i = i + 1;
        }
        proof {
            assert(self.entries@.subrange(0, self.entries@.len() as int) =~= self.entries@);
        }
        Snapshot { meta: self.meta.duplicate(), entries: out }
    }

    /// A cache for `meta` started from a snapshot, if one was found. A snapshot
    /// of another identity, or one that lists a key twice, is ignored: the cache
    /// then starts empty.
    pub fn load(meta: ChainMeta, snap: Option<Snapshot>) -> (r: BlockCache)
        ensures
            r.wf(),
            r.spec_meta() == meta,
            r@ == loaded(meta, snap),
    {
        match snap {
            Some(s) => {
                if s.meta.same_as(&meta) && distinct_keys(&s.entries) {
                    BlockCache { meta, entries: s.entries }
                } else {
                    BlockCache::new(meta)
                }
            },
            None => BlockCache::new(meta),
        }
    }
}

/// Whether no key occurs twice in `v`.
fn distinct_keys(v: &Vec<(Key, Value)>) -> (r: bool)
    ensures
        r == keys_unique(entries_view(v@)),
{
    let ghost s = entries_view(v@);
    let mut j: usize = 0;
    while j < v.len()
        invariant
            j <= v@.len(),
            s == entries_view(v@),
            forall|a: int, b: int| 0 <= a < b < j ==> s[a].0 != s[b].0,
        decreases v@.len() - j,
    {
        let mut i: usize = 0;
        while i < j
            invariant
                i <= j < v@.len(),
                s == entries_view(v@),
                forall|a: int| 0 <= a < i ==> s[a].0 != s[j as int].0,
            decreases j - i,
        {
            if v[i].0 == v[j].0 {
                proof {
                    assert(s[i as int].0 == s[j as int].0);
                }
                return false;
            }
            i = i + 1;
        }
        j = j + 1;
    }
    true
}

/// Saving a cache and loading the image again under the same identity gives the
/// same contents; under another identity it gives an empty cache.
pub proof fn lemma_snapshot_round_trip(c: BlockCache, snap: Snapshot, meta: ChainMeta)
    requires
        c.wf(),
        snap.meta.chain_id == c.spec_meta().chain_id,
        snap.meta.height == c.spec_meta().height,
        snap.meta.hosts@ == c.spec_meta().hosts@,
        entries_view(snap.entries@) == c.entry_seq(),
    ensures
        same_meta(meta, c.spec_meta()) ==> loaded(meta, Some(snap)) == c@,
        !same_meta(meta, c.spec_meta()) ==> loaded(meta, Some(snap)) == Map::<Key, ValueView>::empty(),
{
    reveal(BlockCache::entry_seq);
    reveal(BlockCache::view);
    reveal(BlockCache::wf);
    reveal(BlockCache::spec_meta);
    assert(same_meta(meta, c.spec_meta()) == same_meta(snap.meta, meta)) by {
        assert(host_set(snap.meta.hosts@) == host_set(c.spec_meta().hosts@));
    }
}

} // verus!
