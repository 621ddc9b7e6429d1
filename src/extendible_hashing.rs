//! The index: a fixed array of `2^depth` shards, picked by the high bits of
//! a key's hash, each a directory created on first write.

use crate::directory::{DirectoryPage, DIRECTORY_DEFAULT_INIT_GLOBAL_DEPTH, MAX_LEN};
use crate::key::HashKey;
use vstd::arithmetic::power2::{lemma_pow2_unfold, pow2};
use vstd::prelude::*;

verus! {

/// Shard depth of an index made with `default`.
pub const EXTENDIBLEHASHING_DEFAULT_DEPTH: usize = 10;

/// The shard of hash `h` among `2^depth`: its high `depth` bits.
pub open spec fn shard_of(h: u64, depth: nat) -> int {
    if depth == 0 {
        0
    } else {
        (h >> ((64 - depth) as u64)) as int
    }
}

proof fn lemma_shard_bound(h: u64, depth: u64)
    requires
        depth < 64,
    ensures
        0 <= shard_of(h, depth as nat) < pow2(depth as nat),
{
    vstd::arithmetic::power2::lemma2_to64();
    if depth > 0 {
        vstd::bits::lemma_u64_pow2_no_overflow(depth as nat);
        vstd::bits::lemma_u64_shl_is_mul(1, depth);
        assert((h >> ((64 - depth) as u64)) < (1u64 << depth)) by (bit_vector)
            requires
                0 < depth < 64,
        ;
    }
}

/// A key-value index over extendible hashing.
pub struct ExtendibleHashing<K: View, V> {
    directory_pages: Vec<Option<DirectoryPage<K, V>>>,
    depth: usize,
    size: usize,
    contents: Ghost<Map<K::V, V>>,
}

impl<K: HashKey, V> View for ExtendibleHashing<K, V> {
    type V = Map<K::V, V>;

    closed spec fn view(&self) -> Map<K::V, V> {
        self.contents@
    }
}

impl<K: HashKey, V> ExtendibleHashing<K, V> {
    /// The shard depth fixed at construction.
    pub closed spec fn spec_depth(&self) -> nat {
        self.depth as nat
    }

    /// The shard that key `k` belongs to.
    pub open spec fn key_shard(&self, k: K::V) -> int {
        shard_of(K::spec_hash(k), self.spec_depth())
    }

    /// Each created shard holds a well-formed directory of the keys whose hashes
    /// pick it, together exactly the index's view; `size` counts them.
    pub closed spec fn wf(&self) -> bool {
        &&& self.depth < 64
        &&& self.directory_pages@.len() == pow2(self.depth as nat)
        &&& forall|s: int|
            #![trigger self.directory_pages@[s]]
            0 <= s < self.directory_pages@.len() && self.directory_pages@[s] is Some ==> {
                let d = self.directory_pages@[s]->0;
                &&& d.wf()
                &&& forall|k: K::V| #[trigger]
                    d.contents@.contains_key(k) ==> self.key_shard(k) == s
                        && self.contents@.contains_key(k) && self.contents@[k] == d.contents@[k]
            }
        &&& forall|k: K::V| #[trigger]
            self.contents@.contains_key(k) ==> {
                let s = self.key_shard(k);
                &&& 0 <= s < self.directory_pages@.len()
                &&& self.directory_pages@[s] is Some
                &&& self.directory_pages@[s]->0.contents@.contains_key(k)
            }
        &&& self.contents@.dom().finite()
        &&& self.size == self.contents@.len()
    }

    /// An empty index of `2^depth` shards.
    pub fn new(depth: usize) -> (r: Self)
        requires
            depth < 64,
        ensures
            r.wf(),
            r@ == Map::<K::V, V>::empty(),
            r.spec_depth() == depth,
    {
        let mut directory_pages: Vec<Option<DirectoryPage<K, V>>> = Vec::new();
        directory_pages.push(None);
        let mut t: usize = 0;
        proof {
            vstd::arithmetic::power2::lemma2_to64();
        }
        while t < depth
            invariant
                t <= depth < 64,
                directory_pages@.len() == pow2(t as nat),
                forall|i: int| 0 <= i < directory_pages@.len() ==> directory_pages@[i] is None,
            decreases depth - t,
        {
            let n = directory_pages.len();
            let mut i: usize = 0;
            while i < n
                invariant
                    n == pow2(t as nat),
                    i <= n,
                    directory_pages@.len() == n + i,
                    forall|j: int| 0 <= j < directory_pages@.len() ==> directory_pages@[j] is None,
                decreases n - i,
            {
                directory_pages.push(None);
                i = i + 1;
            }
            proof {
                lemma_pow2_unfold((t + 1) as nat);
            }
            t = t + 1;
        }
        proof {
            assert(Map::<K::V, V>::empty().dom() =~= Set::empty());
        }
        ExtendibleHashing { directory_pages, depth, size: 0, contents: Ghost(Map::empty()) }
    }

    /// The shard of a hash.
    fn shard_index(&self, hash_code: u64) -> (r: usize)
        requires
            self.wf(),
        ensures
            r == shard_of(hash_code, self.spec_depth()),
            r < self.directory_pages@.len(),
    {
        let n = self.directory_pages.len();
        proof {
            lemma_shard_bound(hash_code, self.depth as u64);
        }
        if self.depth == 0 {
            0
        } else {
            (hash_code >> ((64 - self.depth) as u64)) as usize
        }
    }

    /// Number of entries.
    pub fn len(&self) -> (r: usize)
        requires
            self.wf(),
        ensures
            r == self@.len(),
    {
        self.size
    }

    /// Whether the index holds nothing.
    pub fn is_empty(&self) -> (r: bool)
        requires
            self.wf(),
        ensures
            r == (self@.len() == 0),
    {
        self.size == 0
    }

    /// The shard depth.
    pub fn depth(&self) -> (r: usize)
        requires
            self.wf(),
        ensures
            r == self.spec_depth(),
    {
        self.depth
    }

    /// The hash of a key.
    fn hash_code(key: &K) -> (r: u64)
        ensures
            r == K::spec_hash(key@),
    {
        key.hash_code()
    }

    /// Whether `key` is stored.
    pub fn contain(&self, key: &K) -> (r: bool)
        requires
            self.wf(),
        ensures
            r == self@.contains_key(key@),
    {
        let hash_code = Self::hash_code(key);
        let s = self.shard_index(hash_code);
        match &self.directory_pages[s] {
            Some(page) => {
                proof {
                    if page.contents@.contains_key(key@) {
                        assert(self.directory_pages@[s as int] is Some);
                    }
                }
                page.contain(key, hash_code)
            },
            None => false,
        }
    }

    /// Stores `value` under `key`, replacing the value of an equal key.
    pub fn put(&mut self, key: K, value: V)
        requires
            old(self).wf(),
            old(self)@.len() < MAX_LEN,
            old(self)@.len() < usize::MAX,
        ensures
            final(self).wf(),
            final(self)@ == old(self)@.insert(key@, value),
            final(self).spec_depth() == old(self).spec_depth(),
    {
        let hash_code = Self::hash_code(&key);
        let s = self.shard_index(hash_code);
        let ghost k = key@;
        let ghost s0 = *self;
        let mut page = match self.directory_pages[s].take() {
            Some(p) => p,
            None => DirectoryPage::new(DIRECTORY_DEFAULT_INIT_GLOBAL_DEPTH),
        };
        proof {
            let d = page.contents@;
            assert(d.dom().subset_of(s0.contents@.dom())) by {
                assert forall|x: K::V| #[trigger] d.dom().contains(x) implies s0.contents@.dom().contains(x) by {
                    assert(s0.directory_pages@[s as int] is Some);
                }
            }
            vstd::set_lib::lemma_len_subset(d.dom(), s0.contents@.dom());
            if s0.contents@.contains_key(k) {
                assert(s0.directory_pages@[s as int] is Some);
            }
            assert(d.contains_key(k) == s0.contents@.contains_key(k));
        }
        let old_size = page.size;
        page.put(key, value, hash_code);
        self.size = self.size + (page.size - old_size);
        self.directory_pages.set(s, Some(page));
        self.contents = Ghost(self.contents@.insert(k, value));
        proof {
            assert(s0.contents@.insert(k, value).dom() =~= s0.contents@.dom().insert(k));
            self.lemma_update_shard(s0, k, s as int);
        }
    }

    /// Replacing the directory of key `k`'s shard by one that differs from
    /// it only at `k` keeps the index well formed.
    proof fn lemma_update_shard(&self, s0: Self, k: K::V, s: int)
        requires
            s0.wf(),
            s == s0.key_shard(k),
            0 <= s < s0.directory_pages@.len(),
            self.depth == s0.depth,
            self.directory_pages@.len() == s0.directory_pages@.len(),
            forall|x: int| 0 <= x < s0.directory_pages@.len() && x != s ==> self.directory_pages@[x] == s0.directory_pages@[x],
            self.directory_pages@[s] is Some,
            self.directory_pages@[s]->0.wf(),
            self.contents@.dom().finite(),
            self.size == self.contents@.len(),
            forall|x: K::V| x != k ==> self.contents@.contains_key(x) == s0.contents@.contains_key(x),
            forall|x: K::V| x != k && s0.contents@.contains_key(x) ==> self.contents@[x] == s0.contents@[x],
            forall|x: K::V| #[trigger] self.directory_pages@[s]->0.contents@.contains_key(x) ==> (x == k || (s0.directory_pages@[s] is Some && s0.directory_pages@[s]->0.contents@.contains_key(x))),
            forall|x: K::V| x != k && s0.directory_pages@[s] is Some && s0.directory_pages@[s]->0.contents@.contains_key(x) ==> self.directory_pages@[s]->0.contents@.contains_key(x) && self.directory_pages@[s]->0.contents@[x] == s0.directory_pages@[s]->0.contents@[x],
            self.directory_pages@[s]->0.contents@.contains_key(k) == self.contents@.contains_key(k),
            self.contents@.contains_key(k) ==> self.directory_pages@[s]->0.contents@[k] == self.contents@[k],
        ensures
            self.wf(),
    {
        assert forall|t: int|
            0 <= t < self.directory_pages@.len() && #[trigger] self.directory_pages@[t] is Some implies {
                let d = self.directory_pages@[t]->0;
                &&& d.wf()
                &&& forall|x: K::V| #[trigger]
                    d.contents@.contains_key(x) ==> self.key_shard(x) == t
                        && self.contents@.contains_key(x) && self.contents@[x] == d.contents@[x]
            } by {
            let d = self.directory_pages@[t]->0;
            assert forall|x: K::V| #[trigger]
                d.contents@.contains_key(x) implies self.key_shard(x) == t
                    && self.contents@.contains_key(x) && self.contents@[x] == d.contents@[x] by {
                if t == s {
                    if x != k {
                        assert(s0.directory_pages@[s] is Some);
                    }
                } else {
                    assert(s0.directory_pages@[t] is Some);
                }
            }
        }
        assert forall|x: K::V| #[trigger]
            self.contents@.contains_key(x) implies {
                let t = self.key_shard(x);
                &&& 0 <= t < self.directory_pages@.len()
                &&& self.directory_pages@[t] is Some
                &&& self.directory_pages@[t]->0.contents@.contains_key(x)
            } by {
            if x != k {
                assert(s0.contents@.contains_key(x));
            }
        }
    }

    /// Removes the entry of `key` and returns its key and value.
    pub fn del(&mut self, key: &K) -> (r: Option<(K, V)>)
        requires
            old(self).wf(),
        ensures
            final(self).wf(),
            final(self)@ == old(self)@.remove(key@),
            final(self).spec_depth() == old(self).spec_depth(),
            r is Some == old(self)@.contains_key(key@),
            match r {
                Some((rk, rv)) => rk@ == key@ && rv == old(self)@[key@],
                None => true,
            },
    {
        let hash_code = Self::hash_code(key);
        let s = self.shard_index(hash_code);
        let ghost k = key@;
        let ghost s0 = *self;
        match self.directory_pages[s].take() {
            Some(mut page) => {
                proof {
                    if s0.contents@.contains_key(k) {
                        assert(s0.directory_pages@[s as int] is Some);
                    }
                    assert(page.contents@.contains_key(k) == s0.contents@.contains_key(k));
                }
                let res = page.del(key, hash_code);
                self.directory_pages.set(s, Some(page));
                proof {
                    assert(s0.contents@.remove(k).dom() =~= s0.contents@.dom().remove(k));
                }
                if res.is_some() {
                    self.size = self.size - 1;
                }
                self.contents = Ghost(self.contents@.remove(k));
                proof {
                    self.lemma_update_shard(s0, k, s as int);
                }
                res
            },
            None => {
                proof {
                    if s0.contents@.contains_key(k) {
                        assert(s0.directory_pages@[s as int] is Some);
                    }
                    assert(s0.contents@.remove(k) =~= s0.contents@);
                    assert(self.directory_pages@ =~= s0.directory_pages@);
                }
                None
            },
        }
    }
}

impl<K: HashKey, V: Clone> ExtendibleHashing<K, V> {
    /// A copy of the value stored under `key`.
    pub fn get(&self, key: &K) -> (r: Option<V>)
        requires
            self.wf(),
        ensures
            r is Some == self@.contains_key(key@),
            r is Some ==> cloned(self@[key@], r->0),
    {
        let hash_code = Self::hash_code(key);
        let s = self.shard_index(hash_code);
        match &self.directory_pages[s] {
            Some(page) => {
                proof {
                    if self.contents@.contains_key(key@) {
                        assert(self.directory_pages@[s as int] is Some);
                    }
                    if page.contents@.contains_key(key@) {
                        assert(self.directory_pages@[s as int] is Some);
                    }
                }
                page.get(key, hash_code)
            },
            None => None,
        }
    }
}

impl<K: HashKey, V> Default for ExtendibleHashing<K, V> {
    /// An empty index of depth `EXTENDIBLEHASHING_DEFAULT_DEPTH`.
    fn default() -> (r: Self)
        ensures
            r.wf(),
            r@ == Map::<K::V, V>::empty(),
            r.spec_depth() == EXTENDIBLEHASHING_DEFAULT_DEPTH,
    {
        Self::new(EXTENDIBLEHASHING_DEFAULT_DEPTH)
    }
}

impl<K: HashKey, V> ExtendibleHashing<K, V> {
    /// The directory of shard `s`, once created.
    pub closed spec fn shard(&self, s: int) -> Option<DirectoryPage<K, V>> {
        self.directory_pages@[s]
    }

    /// Number of shards.
    pub closed spec fn shard_count(&self) -> nat {
        self.directory_pages@.len()
    }
}

/// The map after putting `vals[i]` under `keys[i]`, first to last.
pub open spec fn put_all<K, V>(m: Map<K, V>, keys: Seq<K>, vals: Seq<V>) -> Map<K, V>
    decreases keys.len(),
{
    if keys.len() == 0 || vals.len() == 0 {
        m
    } else {
        put_all(m.insert(keys[0], vals[0]), keys.drop_first(), vals.drop_first())
    }
}

/// The map after deleting each of `keys`, first to last.
pub open spec fn del_all<K, V>(m: Map<K, V>, keys: Seq<K>) -> Map<K, V>
    decreases keys.len(),
{
    if keys.len() == 0 {
        m
    } else {
        del_all(m.remove(keys[0]), keys.drop_first())
    }
}

/// Puts of other keys leave a key as it was.
pub proof fn lemma_put_all_other<K, V>(m: Map<K, V>, keys: Seq<K>, vals: Seq<V>, k: K)
    requires
        !keys.contains(k),
    ensures
        put_all(m, keys, vals).contains_key(k) == m.contains_key(k),
        m.contains_key(k) ==> put_all(m, keys, vals)[k] == m[k],
    decreases keys.len(),
{
    if keys.len() > 0 && vals.len() > 0 {
        assert(keys[0] != k);
        assert(!keys.drop_first().contains(k)) by {
            if keys.drop_first().contains(k) {
                let i = choose|i: int| 0 <= i < keys.drop_first().len() && keys.drop_first()[i] == k;
                assert(keys[i + 1] == k);
            }
        }
        lemma_put_all_other(m.insert(keys[0], vals[0]), keys.drop_first(), vals.drop_first(), k);
    }
}

/// Deletes of other keys leave a key as it was; a deleted key is gone.
pub proof fn lemma_del_all<K, V>(m: Map<K, V>, keys: Seq<K>, k: K)
    ensures
        keys.contains(k) ==> !del_all(m, keys).contains_key(k),
        !keys.contains(k) ==> del_all(m, keys).contains_key(k) == m.contains_key(k),
        !keys.contains(k) && m.contains_key(k) ==> del_all(m, keys)[k] == m[k],
    decreases keys.len(),
{
    if keys.len() > 0 {
        lemma_del_all(m.remove(keys[0]), keys.drop_first(), k);
        if keys.contains(k) && keys[0] != k {
            let i = choose|i: int| 0 <= i < keys.len() && keys[i] == k;
            assert(keys.drop_first()[i - 1] == k);
        }
        if !keys.contains(k) {
            assert(keys[0] != k);
            assert(!keys.drop_first().contains(k)) by {
                if keys.drop_first().contains(k) {
                    let i = choose|i: int| 0 <= i < keys.drop_first().len() && keys.drop_first()[i] == k;
                    assert(keys[i + 1] == k);
                }
            }
        }
    }
}

/// Putting distinct keys one after another leaves every one of them stored
/// with its own value.
pub proof fn law_round_trip<K: HashKey, V>(h: ExtendibleHashing<K, V>, keys: Seq<K::V>, vals: Seq<V>)
    requires
        keys.no_duplicates(),
        keys.len() == vals.len(),
    ensures
        forall|i: int|
            0 <= i < keys.len() ==> #[trigger] put_all(h@, keys, vals).contains_key(keys[i])
                && put_all(h@, keys, vals)[keys[i]] == vals[i],
{
    let m = h@;
    lemma_round_trip_map(m, keys, vals);
    assert forall|i: int| 0 <= i < keys.len() implies #[trigger] put_all(m, keys, vals).contains_key(
        keys[i],
    ) && put_all(m, keys, vals)[keys[i]] == vals[i] by {
        assert(put_all(m, keys, vals).contains_key(keys[i]));
    }
}

/// `law_round_trip` on a bare map.
proof fn lemma_round_trip_map<K, V>(m: Map<K, V>, keys: Seq<K>, vals: Seq<V>)
    requires
        keys.no_duplicates(),
        keys.len() == vals.len(),
    ensures
        forall|i: int|
            0 <= i < keys.len() ==> #[trigger] put_all(m, keys, vals).contains_key(keys[i])
                && put_all(m, keys, vals)[keys[i]] == vals[i],
    decreases keys.len(),
{
    if keys.len() > 0 {
        let m1 = m.insert(keys[0], vals[0]);
        assert(keys.drop_first().no_duplicates());
        lemma_round_trip_map(m1, keys.drop_first(), vals.drop_first());
        assert(put_all(m, keys, vals) == put_all(m1, keys.drop_first(), vals.drop_first()));
        assert forall|i: int| 0 <= i < keys.len() implies #[trigger] put_all(m, keys, vals).contains_key(keys[i])
            && put_all(m, keys, vals)[keys[i]] == vals[i] by {
            if i == 0 {
                assert(!keys.drop_first().contains(keys[0])) by {
                    if keys.drop_first().contains(keys[0]) {
                        let j = choose|j: int| 0 <= j < keys.drop_first().len() && keys.drop_first()[j] == keys[0];
                        assert(keys[j + 1] == keys[0]);
                    }
                }
                lemma_put_all_other(m1, keys.drop_first(), vals.drop_first(), keys[0]);
            } else {
                assert(keys.drop_first()[i - 1] == keys[i]);
                assert(vals.drop_first()[i - 1] == vals[i]);
            }
        }
    }
}

/// A second put of the same key replaces the value and leaves the length
/// as the first put left it.
pub proof fn law_overwrite<K: HashKey, V>(h: ExtendibleHashing<K, V>, k: K::V, v1: V, v2: V)
    requires
        h.wf(),
    ensures
        h@.insert(k, v1).insert(k, v2).contains_key(k),
        h@.insert(k, v1).insert(k, v2)[k] == v2,
        h@.insert(k, v1).insert(k, v2).len() == h@.insert(k, v1).len(),
{
    reveal(ExtendibleHashing::wf);
    assert(h@.insert(k, v1).insert(k, v2).dom() =~= h@.insert(k, v1).dom());
}

/// Deleting a key twice: the first delete of a present key lowers the length
/// by one, the second finds nothing and changes nothing.
pub proof fn law_delete_twice<K: HashKey, V>(h: ExtendibleHashing<K, V>, k: K::V)
    requires
        h.wf(),
    ensures
        !h@.remove(k).contains_key(k),
        h@.remove(k).remove(k) == h@.remove(k),
        h@.contains_key(k) ==> h@.remove(k).len() == h@.len() - 1,
        !h@.contains_key(k) ==> h@.remove(k).len() == h@.len(),
{
    reveal(ExtendibleHashing::wf);
    assert(h@.remove(k).remove(k) =~= h@.remove(k));
    if !h@.contains_key(k) {
        assert(h@.remove(k) =~= h@);
    }
}

/// Whatever splits and merges a run of puts followed by deletes sets off,
/// every key put and not deleted afterwards is still stored with its value,
/// and every deleted key is gone.
pub proof fn law_split_merge_inverse<K: HashKey, V>(
    h: ExtendibleHashing<K, V>,
    keys: Seq<K::V>,
    vals: Seq<V>,
    dels: Seq<K::V>,
)
    requires
        keys.no_duplicates(),
        keys.len() == vals.len(),
    ensures
        forall|i: int|
            0 <= i < keys.len() && !dels.contains(keys[i]) ==> #[trigger] del_all(
                put_all(h@, keys, vals),
                dels,
            ).contains_key(keys[i]) && del_all(put_all(h@, keys, vals), dels)[keys[i]] == vals[i],
        forall|k: K::V| #[trigger]
            dels.contains(k) ==> !del_all(put_all(h@, keys, vals), dels).contains_key(k),
{
    law_round_trip(h, keys, vals);
    let m = put_all(h@, keys, vals);
    assert forall|i: int|
        0 <= i < keys.len() && !dels.contains(keys[i]) implies #[trigger] del_all(m, dels).contains_key(
        keys[i],
    ) && del_all(m, dels)[keys[i]] == vals[i] by {
        lemma_del_all(m, dels, keys[i]);
        assert(m.contains_key(keys[i]));
    }
    assert forall|k: K::V| #[trigger] dels.contains(k) implies !del_all(m, dels).contains_key(k) by {
        lemma_del_all(m, dels, k);
    }
}

/// The length counts exactly the stored keys, each in the directory of its
/// own shard and nowhere else.
pub proof fn law_conservation<K: HashKey, V>(h: ExtendibleHashing<K, V>)
    requires
        h.wf(),
    ensures
        h@.dom().finite(),
        forall|k: K::V| #[trigger]
            h@.contains_key(k) ==> 0 <= h.key_shard(k) < h.shard_count() && h.shard(
                h.key_shard(k),
            ) is Some && h.shard(h.key_shard(k))->0.contents@.contains_key(k),
        forall|s: int, k: K::V|
            0 <= s < h.shard_count() && h.shard(s) is Some && #[trigger] h.shard(
                s,
            )->0.contents@.contains_key(k) ==> s == h.key_shard(k) && h@.contains_key(k) && h@[k]
                == h.shard(s)->0.contents@[k],
{
    reveal(ExtendibleHashing::wf);
    assert forall|s: int, k: K::V|
        0 <= s < h.shard_count() && h.shard(s) is Some && #[trigger] h.shard(
            s,
        )->0.contents@.contains_key(k) implies s == h.key_shard(k) && h@.contains_key(k) && h@[k]
        == h.shard(s)->0.contents@[k] by {
        assert(h.directory_pages@[s] is Some);
    }
}

/// In every shard, each reachable bucket holds at most `2^local_depth`
/// entries and its local depth is at most the directory's global depth.
pub proof fn law_shard_capacity<K: HashKey, V>(h: ExtendibleHashing<K, V>)
    requires
        h.wf(),
    ensures
        forall|s: int, j: int|
            0 <= s < h.shard_count() && h.shard(s) is Some && 0 <= j < h.shard(s)->0.buckets@.len()
                ==> #[trigger] h.shard(s)->0.page(j).size <= pow2(
                h.shard(s)->0.page(j).depth as nat,
            ) && h.shard(s)->0.page(j).depth <= h.shard(s)->0.global_depth,
{
    reveal(ExtendibleHashing::wf);
    assert forall|s: int, j: int|
        0 <= s < h.shard_count() && h.shard(s) is Some && 0 <= j < h.shard(s)->0.buckets@.len()
            implies #[trigger] h.shard(s)->0.page(j).size <= pow2(h.shard(s)->0.page(j).depth as nat)
        && h.shard(s)->0.page(j).depth <= h.shard(s)->0.global_depth by {
        assert(h.directory_pages@[s] is Some);
        crate::directory::law_capacity(&h.directory_pages@[s]->0);
    }
}

/// The map after a run of index operations, first to last: `(k, Some(v))`
/// puts `v` under `k`, `(k, None)` deletes `k`.
pub open spec fn apply_ops<K, V>(m: Map<K, V>, ops: Seq<(K, Option<V>)>) -> Map<K, V>
    decreases ops.len(),
{
    if ops.len() == 0 {
        m
    } else {
        let next = match ops[0].1 {
            Some(v) => m.insert(ops[0].0, v),
            None => m.remove(ops[0].0),
        };
        apply_ops(next, ops.drop_first())
    }
}

/// Operations on other keys leave a key as it was.
proof fn lemma_apply_ops_other<K, V>(m: Map<K, V>, ops: Seq<(K, Option<V>)>, k: K)
    requires
        forall|i: int| 0 <= i < ops.len() ==> (#[trigger] ops[i]).0 != k,
    ensures
        apply_ops(m, ops).contains_key(k) == m.contains_key(k),
        m.contains_key(k) ==> apply_ops(m, ops)[k] == m[k],
    decreases ops.len(),
{
    if ops.len() > 0 {
        let next = match ops[0].1 {
            Some(v) => m.insert(ops[0].0, v),
            None => m.remove(ops[0].0),
        };
        assert(ops[0].0 != k);
        assert forall|i: int| 0 <= i < ops.drop_first().len() implies (#[trigger] ops.drop_first()[i]).0 != k by {
            assert(ops.drop_first()[i] == ops[i + 1]);
        }
        lemma_apply_ops_other(next, ops.drop_first(), k);
    }
}

/// After `put(k, v)`, any run of puts and deletes of other keys leaves `k`
/// stored with `v`: `get(k)` gives it back and `contain(k)` holds.
pub proof fn law_put_then_get<K: HashKey, V>(
    h: ExtendibleHashing<K, V>,
    k: K::V,
    v: V,
    ops: Seq<(K::V, Option<V>)>,
)
    requires
        forall|i: int| 0 <= i < ops.len() ==> (#[trigger] ops[i]).0 != k,
    ensures
        apply_ops(h@.insert(k, v), ops).contains_key(k),
        apply_ops(h@.insert(k, v), ops)[k] == v,
{
    lemma_apply_ops_other(h@.insert(k, v), ops, k);
}

} // verus!
