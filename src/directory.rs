//! A directory: `2^global_depth` slots, each holding the handle of a bucket
//! in an arena. Slots whose low `local_depth` bits agree share one bucket.

use crate::bucket::{selected, BucketPage, BUCKET_DEFAULT_INIT_DEPTH, MAX_DEPTH};
use crate::key::HashKey;
use vstd::arithmetic::power2::{lemma_pow2_strictly_increases, lemma_pow2_unfold, pow2};
use vstd::prelude::*;

verus! {

/// Global depth of a directory made without an explicit depth.
pub const DIRECTORY_DEFAULT_INIT_GLOBAL_DEPTH: usize = 3;

/// A bucket takes part in a merge only while `size << MERGE_LOAD_FACTOR_BIT`
/// stays below its capacity.
pub const DIRECTORY_MERGE_LOAD_FACTOR_BIT: usize = 3;

/// After a delete the directory tries to halve itself once fewer than
/// `global_depth / DIRECTORY_SHRINK_DIVISOR` entries remain.
pub const DIRECTORY_SHRINK_DIVISOR: usize = 4;

/// Most entries a directory takes: a bucket that fills must still be able
/// to split within `MAX_DEPTH`.
pub const MAX_LEN: u64 = 0x0800_0000_0000_0000;

/// The buddy of slot `j` for a bucket of depth `d`: bit `d - 1` flipped.
pub open spec fn buddy(j: int, d: nat) -> int {
    ((j as u64) ^ (1u64 << ((d - 1) as u64))) as int
}

/// The low `d` bits of `x`.
pub open spec fn low(x: u64, d: u64) -> u64 {
    x & !(0xffff_ffff_ffff_ffffu64 << d)
}

pub proof fn lemma_low_low(x: u64, d: u64, g: u64)
    requires
        d <= g < 64,
    ensures
        low(low(x, g), d) == low(x, d),
{
    assert(((x & !(0xffff_ffff_ffff_ffffu64 << g)) & !(0xffff_ffff_ffff_ffffu64 << d)) == (x & !(
    0xffff_ffff_ffff_ffffu64 << d))) by (bit_vector)
        requires
            d <= g < 64,
    ;
}

pub proof fn lemma_low_bound(x: u64, d: u64)
    requires
        d < 64,
    ensures
        low(x, d) < pow2(d as nat),
        x < pow2(d as nat) ==> low(x, d) == x,
{
    assert((x & !(0xffff_ffff_ffff_ffffu64 << d)) < (1u64 << d)) by (bit_vector)
        requires
            d < 64,
    ;
    assert(x < (1u64 << d) ==> (x & !(0xffff_ffff_ffff_ffffu64 << d)) == x) by (bit_vector)
        requires
            d < 64,
    ;
    vstd::bits::lemma_u64_pow2_no_overflow(d as nat);
    vstd::bits::lemma_u64_shl_is_mul(1, d);
}

/// The upper half of a doubled directory mirrors the lower half.
pub proof fn lemma_low_mirror(a: u64, g: u64)
    requires
        g < 63,
        pow2(g as nat) <= a < pow2((g + 1) as nat),
    ensures
        low(a, g) == a - pow2(g as nat),
{
    vstd::bits::lemma_u64_pow2_no_overflow(g as nat);
    vstd::bits::lemma_u64_pow2_no_overflow((g + 1) as nat);
    vstd::bits::lemma_u64_shl_is_mul(1, g);
    vstd::bits::lemma_u64_shl_is_mul(1, (g + 1) as u64);
    assert((1u64 << g) <= a < (1u64 << (g + 1)) ==> (a & !(0xffff_ffff_ffff_ffffu64 << g)) == (a
        - (1u64 << g)) as u64) by (bit_vector)
        requires
            g < 63,
    ;
}

/// Flipping bit `d` of `i` gives its buddy one level deeper.
pub proof fn lemma_buddy(i: u64, k: u64, d: u64)
    requires
        d < 63,
    ensures
        low(i ^ (1u64 << d), d) == low(i, d),
        low(i ^ (1u64 << d), (d + 1) as u64) != low(i, (d + 1) as u64),
        low(k, d) == low(i, d) <==> (low(k, (d + 1) as u64) == low(i, (d + 1) as u64) || low(
            k,
            (d + 1) as u64,
        ) == low(i ^ (1u64 << d), (d + 1) as u64)),
{
    let m: u64 = 0xffff_ffff_ffff_ffffu64;
    assert(((i ^ (1u64 << d)) & !(m << d)) == (i & !(m << d))) by (bit_vector)
        requires
            d < 63,
            m == 0xffff_ffff_ffff_ffffu64,
    ;
    assert(((i ^ (1u64 << d)) & !(m << ((d + 1) as u64))) != (i & !(m << ((d + 1) as u64))))
        by (bit_vector)
        requires
            d < 63,
            m == 0xffff_ffff_ffff_ffffu64,
    ;
    assert((k & !(m << d)) == (i & !(m << d)) <==> ((k & !(m << ((d + 1) as u64))) == (i & !(m << (
    (d + 1) as u64))) || (k & !(m << ((d + 1) as u64))) == ((i ^ (1u64 << d)) & !(m << ((d
        + 1) as u64))))) by (bit_vector)
        requires
            d < 63,
            m == 0xffff_ffff_ffff_ffffu64,
    ;
}

/// A buddy stays inside a directory of depth `g` above `d`.
pub proof fn lemma_buddy_bound(i: u64, d: u64, g: u64)
    requires
        d < g < 64,
        i < pow2(g as nat),
    ensures
        i ^ (1u64 << d) < pow2(g as nat),
{
    vstd::bits::lemma_u64_pow2_no_overflow(g as nat);
    vstd::bits::lemma_u64_shl_is_mul(1, g);
    assert(i < (1u64 << g) ==> (i ^ (1u64 << d)) < (1u64 << g)) by (bit_vector)
        requires
            d < g < 64,
    ;
}

/// A directory of buckets over the low bits of the hash.
pub struct DirectoryPage<K: View, V> {
    pub global_depth: usize,
    /// One bucket handle per slot.
    pub buckets: Vec<usize>,
    /// The buckets; a handle is an index here.
    pub pages: Vec<BucketPage<K, V>>,
    /// Handles of arena buckets that no slot refers to, free for reuse.
    pub free: Vec<usize>,
    pub size: usize,
    /// What the directory holds, key by key.
    pub contents: Ghost<Map<K::V, V>>,
}

impl<K: HashKey, V> DirectoryPage<K, V> {
    /// The bucket that slot `j` refers to.
    pub open spec fn page(&self, j: int) -> BucketPage<K, V> {
        self.pages@[self.buckets@[j] as int]
    }

    /// The slot that hash `h` goes to.
    pub open spec fn route(&self, h: u64) -> int {
        low(h, self.global_depth as u64) as int
    }

    /// The slot that key `k` goes to.
    pub open spec fn key_slot(&self, k: K::V) -> int {
        self.route(K::spec_hash(k))
    }

    /// Each slot refers to a well-formed bucket no deeper than the directory.
    /// Whether `try_merge(j)` merges: the bucket of slot `j` is above the floor
    /// depth, its buddy is at the same depth, and both are lightly loaded.
    pub open spec fn merge_gate(&self, j: int) -> bool {
        let d = self.page(j).depth;
        let p = buddy(j, d as nat);
        &&& d > DIRECTORY_DEFAULT_INIT_GLOBAL_DEPTH
        &&& self.page(p).depth == d
        &&& self.page(j).size * pow2(DIRECTORY_MERGE_LOAD_FACTOR_BIT as nat) < pow2(d as nat)
        &&& self.page(p).size * pow2(DIRECTORY_MERGE_LOAD_FACTOR_BIT as nat) < pow2(d as nat)
    }

    pub open spec fn slots_ok(&self) -> bool {
        &&& self.global_depth <= MAX_DEPTH
        &&& self.buckets@.len() == pow2(self.global_depth as nat)
        &&& forall|j: int|
            #![trigger self.buckets@[j]]
            0 <= j < self.buckets@.len() ==> {
                &&& self.buckets@[j] < self.pages@.len()
                &&& self.page(j).wf()
                &&& self.page(j).depth <= self.global_depth
            }
    }

    /// Two slots share a bucket exactly when they agree on its low `depth` bits.
    pub open spec fn aliasing(&self) -> bool {
        forall|a: int, b: int|
            #![trigger self.buckets@[a], self.buckets@[b]]
            0 <= a < self.buckets@.len() && 0 <= b < self.buckets@.len() ==> ((self.buckets@[a]
                == self.buckets@[b]) == (low(a as u64, self.page(a).depth as u64) == low(
                b as u64,
                self.page(a).depth as u64,
            )))
    }

    /// Each entry sits in the bucket its hash routes to, and the buckets
    /// together hold exactly `contents`.
    pub open spec fn routing(&self) -> bool {
        &&& forall|j: int, k: K::V|
            #![trigger self.page(j).contents@.contains_key(k)]
            0 <= j < self.buckets@.len() && self.page(j).contents@.contains_key(k) ==> {
                &&& self.contents@.contains_key(k)
                &&& self.contents@[k] == self.page(j).contents@[k]
                &&& self.buckets@[self.key_slot(k)] == self.buckets@[j]
            }
        &&& forall|k: K::V| #[trigger]
            self.contents@.contains_key(k) ==> self.page(self.key_slot(k)).contents@.contains_key(
                k,
            )
    }

    /// Free handles are distinct arena indices that no slot refers to.
    pub open spec fn free_ok(&self) -> bool {
        &&& self.free@.no_duplicates()
        &&& forall|t: int| 0 <= t < self.free@.len() ==> #[trigger] self.free@[t] < self.pages@.len()
        &&& forall|j: int, t: int|
            0 <= j < self.buckets@.len() && 0 <= t < self.free@.len() ==> #[trigger] self.buckets@[j]
                != #[trigger] self.free@[t]
    }

    /// The directory invariant; `size` counts the entries.
    pub open spec fn wf(&self) -> bool {
        &&& self.slots_ok()
        &&& self.free_ok()
        &&& self.aliasing()
        &&& self.routing()
        &&& self.contents@.dom().finite()
        &&& self.size == self.contents@.len()
    }

    /// Slot of hash `h`.
    fn get_directory_index(&self, hash_code: u64) -> (r: usize)
        requires
            self.slots_ok(),
        ensures
            r == self.route(hash_code),
            r < self.buckets@.len(),
    {
        let n = self.buckets.len();
        proof {
            lemma_low_bound(hash_code, self.global_depth as u64);
        }
        let r = hash_code & !(0xffff_ffff_ffff_ffffu64 << (self.global_depth as u64));
        assert(r < n);
        r as usize
    }

    /// Doubles the slot array: slot `i + 2^global_depth` refers to the bucket of slot `i`.
    fn grow(&mut self)
        requires
            old(self).wf(),
            old(self).global_depth < MAX_DEPTH,
        ensures
            final(self).wf(),
            final(self).global_depth == old(self).global_depth + 1,
            final(self).pages@ == old(self).pages@,
            final(self).contents@ == old(self).contents@,
            final(self).size == old(self).size,
            forall|a: int|
                0 <= a < final(self).buckets@.len() ==> #[trigger] final(self).buckets@[a]
                    == old(self).buckets@[low(a as u64, old(self).global_depth as u64) as int],
    {
        let n = self.buckets.len();
        let ghost g = self.global_depth as u64;
        proof {
            lemma_pow2_strictly_increases(g as nat, 62);
            vstd::bits::lemma_u64_pow2_no_overflow(62);
        }
        let mut i: usize = 0;
        while i < n
            invariant
                n == old(self).buckets@.len() == pow2(g as nat),
                n < pow2(62) < u64::MAX,
                g == old(self).global_depth,
                i <= n,
                self.global_depth == old(self).global_depth,
                self.pages@ == old(self).pages@,
                self.free@ == old(self).free@,
                self.contents == old(self).contents,
                self.size == old(self).size,
                self.buckets@.len() == n + i,
                forall|a: int| 0 <= a < n ==> #[trigger] self.buckets@[a] == old(self).buckets@[a],
                forall|a: int|
                    n <= a < n + i ==> #[trigger] self.buckets@[a] == old(self).buckets@[a - n],
            decreases n - i,
        {
            let h = self.buckets[i];
            self.buckets.push(h);
            i = i + 1;
        }
        self.global_depth = self.global_depth + 1;
        proof {
            lemma_pow2_unfold((g + 1) as nat);
            lemma_pow2_strictly_increases((g + 1) as nat, 62);
            assert(self.buckets@.len() == pow2((g + 1) as nat));
            let ob = old(self).buckets@;
            assert forall|a: int|
                0 <= a < self.buckets@.len() implies #[trigger] self.buckets@[a] == ob[low(
                a as u64,
                g,
            ) as int] by {
                if a < n {
                    lemma_low_bound(a as u64, g);
                } else {
                    lemma_low_mirror(a as u64, g);
                }
            }
            assert forall|a: int, b: int|
                0 <= a < self.buckets@.len() && 0 <= b < self.buckets@.len() implies ((
            #[trigger] self.buckets@[a] == #[trigger] self.buckets@[b]) == (low(
                a as u64,
                self.page(a).depth as u64,
            ) == low(b as u64, self.page(a).depth as u64))) by {
                let a0 = low(a as u64, g) as int;
                let b0 = low(b as u64, g) as int;
                lemma_low_bound(a as u64, g);
                lemma_low_bound(b as u64, g);
                assert(ob[a0] == self.buckets@[a]);
                assert(ob[b0] == self.buckets@[b]);
                let d = self.page(a).depth as u64;
                assert(old(self).page(a0) == self.page(a));
                lemma_low_low(a as u64, d, g);
                lemma_low_low(b as u64, d, g);
            }
            assert forall|j: int, k: K::V|
                0 <= j < self.buckets@.len() && #[trigger] self.page(j).contents@.contains_key(
                    k,
                ) implies {
                &&& self.contents@.contains_key(k)
                &&& self.contents@[k] == self.page(j).contents@[k]
                &&& self.buckets@[self.key_slot(k)] == self.buckets@[j]
            } by {
                let j0 = low(j as u64, g) as int;
                lemma_low_bound(j as u64, g);
                assert(self.buckets@[j] == ob[j0]);
                assert(old(self).page(j0).contents@.contains_key(k));
                let h = K::spec_hash(k);
                lemma_low_bound(h, (g + 1) as u64);
                lemma_low_low(h, g, (g + 1) as u64);
                lemma_low_bound(h, g);
                assert(self.buckets@[self.key_slot(k)] == ob[low(h, g) as int]);
            }
            assert forall|k: K::V| #[trigger]
                self.contents@.contains_key(k) implies self.page(
                self.key_slot(k),
            ).contents@.contains_key(k) by {
                let h = K::spec_hash(k);
                lemma_low_bound(h, (g + 1) as u64);
                lemma_low_low(h, g, (g + 1) as u64);
                lemma_low_bound(h, g);
                assert(self.buckets@[self.key_slot(k)] == ob[low(h, g) as int]);
            }
            assert forall|j: int| 0 <= j < self.buckets@.len() implies {
                &&& #[trigger] self.buckets@[j] < self.pages@.len()
                &&& self.page(j).wf()
                &&& self.page(j).depth <= self.global_depth
            } by {
                lemma_low_bound(j as u64, g);
                assert(self.buckets@[j] == ob[low(j as u64, g) as int]);
            }
            assert forall|j: int, t: int|
                0 <= j < self.buckets@.len() && 0 <= t < self.free@.len() implies #[trigger] self.buckets@[j]
                    != #[trigger] self.free@[t] by {
                lemma_low_bound(j as u64, g);
                assert(self.buckets@[j] == ob[low(j as u64, g) as int]);
            }
        }
    }

    /// An empty directory of `2^global_depth` slots over `2^l` buckets of
    /// depth `l = min(global_depth, BUCKET_DEFAULT_INIT_DEPTH)`.
    pub fn new(global_depth: usize) -> (r: Self)
        requires
            global_depth <= MAX_DEPTH,
        ensures
            r.wf(),
            r.global_depth == global_depth,
            r.size == 0,
            r.contents@ == Map::<K::V, V>::empty(),
            forall|j: int|
                0 <= j < r.buckets@.len() ==> #[trigger] r.page(j).depth == (if global_depth
                    < BUCKET_DEFAULT_INIT_DEPTH {
                    global_depth
                } else {
                    BUCKET_DEFAULT_INIT_DEPTH
                }),
    {
        let l: usize = if global_depth < BUCKET_DEFAULT_INIT_DEPTH {
            global_depth
        } else {
            BUCKET_DEFAULT_INIT_DEPTH
        };
        let mut n: usize = 1;
        let mut t: usize = 0;
        proof {
            vstd::arithmetic::power2::lemma2_to64();
        }
        while t < l
            invariant
                t <= l <= 2,
                n == pow2(t as nat),
                pow2(0) == 1 && pow2(1) == 2 && pow2(2) == 4,
            decreases l - t,
        {
            proof {
                lemma_pow2_unfold((t + 1) as nat);
            }
            n = n * 2;
            t = t + 1;
        }
        let mut pages: Vec<BucketPage<K, V>> = Vec::new();
        let mut buckets: Vec<usize> = Vec::new();
        let mut j: usize = 0;
        while j < n
            invariant
                n == pow2(l as nat) <= 4,
                l <= 2,
                j <= n,
                pages@.len() == j,
                buckets@.len() == j,
                forall|a: int| 0 <= a < j ==> #[trigger] buckets@[a] == a,
                forall|a: int|
                    0 <= a < j ==> (#[trigger] pages@[a]).wf() && pages@[a].depth == l
                        && pages@[a].contents@ == Map::<K::V, V>::empty(),
            decreases n - j,
        {
            pages.push(BucketPage::new(l));
            buckets.push(j);
            j = j + 1;
        }
        let mut dir = DirectoryPage {
            global_depth: l,
            buckets,
            pages,
            free: Vec::new(),
            size: 0,
            contents: Ghost(Map::empty()),
        };
        proof {
            assert forall|a: int, b: int|
                0 <= a < dir.buckets@.len() && 0 <= b < dir.buckets@.len() implies ((
            #[trigger] dir.buckets@[a] == #[trigger] dir.buckets@[b]) == (low(
                a as u64,
                dir.page(a).depth as u64,
            ) == low(b as u64, dir.page(a).depth as u64))) by {
                lemma_low_bound(a as u64, l as u64);
                lemma_low_bound(b as u64, l as u64);
            }
            assert(Map::<K::V, V>::empty().dom() =~= Set::empty());
        }
        while dir.global_depth < global_depth
            invariant
                dir.wf(),
                l <= dir.global_depth <= global_depth <= MAX_DEPTH,
                dir.size == 0,
                dir.contents@ == Map::<K::V, V>::empty(),
                forall|j: int| 0 <= j < dir.buckets@.len() ==> #[trigger] dir.page(j).depth == l,
            decreases global_depth - dir.global_depth,
        {
            let ghost d0 = dir;
            dir.grow();
            proof {
                assert forall|j: int| 0 <= j < dir.buckets@.len() implies #[trigger] dir.page(
                    j,
                ).depth == l by {
                    lemma_low_bound(j as u64, d0.global_depth as u64);
                    assert(dir.buckets@[j] == d0.buckets@[low(j as u64, d0.global_depth as u64) as int]);
                }
            }
        }
        dir
    }

    /// The hash of a key, as the directory routes it.
    pub fn hash_code(key: &K) -> (r: u64)
        ensures
            r == K::spec_hash(key@),
    {
        key.hash_code()
    }

    /// Number of entries.
    pub fn len(&self) -> (r: usize)
        requires
            self.wf(),
        ensures
            r == self.contents@.len(),
    {
        self.size
    }

    /// Whether `key` is stored.
    pub fn contain(&self, key: &K, hash_code: u64) -> (r: bool)
        requires
            self.wf(),
            hash_code == K::spec_hash(key@),
        ensures
            r == self.contents@.contains_key(key@),
    {
        let i = self.get_directory_index(hash_code);
        let h = self.buckets[i];
        proof {
            if self.page(i as int).contents@.contains_key(key@) {
                assert(self.contents@.contains_key(key@));
            }
        }
        self.pages[h].contain(key, hash_code)
    }

    /// Splits the full bucket of slot `bucket_no`: its depth grows by one
    /// (the directory first, where needed), a new bucket takes the buddy
    /// slots, and the entries whose hashes route there move with them.
    fn split(&mut self, bucket_no: usize)
        requires
            old(self).wf(),
            bucket_no < old(self).buckets@.len(),
            old(self).page(bucket_no as int).size == old(self).page(bucket_no as int).capacity(),
            old(self).page(bucket_no as int).depth < MAX_DEPTH,
        ensures
            final(self).wf(),
            final(self).contents@ == old(self).contents@,
            final(self).size == old(self).size,
            ({
                let b = bucket_no as int;
                let d = old(self).page(b).depth;
                let nd = (d + 1) as u64;
                let p = buddy(b, nd as nat);
                let g0 = old(self).global_depth;
                &&& final(self).global_depth == (if d + 1 > g0 {
                    d + 1
                } else {
                    g0 as int
                })
                &&& 0 <= p < final(self).buckets@.len()
                &&& final(self).buckets@[b] == old(self).buckets@[b]
                &&& final(self).buckets@[p] != final(self).buckets@[b]
                &&& final(self).page(b).depth == nd
                &&& final(self).page(p).depth == nd
                &&& final(self).page(b).contents@ == selected::<K, V>(
                    old(self).page(b).contents@,
                    !(0xffff_ffff_ffff_ffffu64 << nd),
                    low(p as u64, nd),
                    false,
                )
                &&& final(self).page(p).contents@ == selected::<K, V>(
                    old(self).page(b).contents@,
                    !(0xffff_ffff_ffff_ffffu64 << nd),
                    low(p as u64, nd),
                    true,
                )
                &&& forall|k: int|
                    0 <= k < final(self).buckets@.len() ==> #[trigger] final(self).buckets@[k] == (
                    if low(k as u64, nd) == low(p as u64, nd) {
                        final(self).buckets@[p]
                    } else if low(k as u64, nd) == low(b as u64, nd) {
                        final(self).buckets@[b]
                    } else {
                        old(self).buckets@[low(k as u64, g0 as u64) as int]
                    })
            }),
            forall|h: u64|
                old(self).buckets@[old(self).route(h)] == old(self).buckets@[bucket_no as int]
                    ==> #[trigger] final(self).page(final(self).route(h)).size < final(self).page(
                    final(self).route(h),
                ).capacity(),
    {
        let ph = self.buckets[bucket_no];
        let d = self.pages[ph].depth;
        let ghost s0 = *self;
        if d + 1 > self.global_depth {
            self.grow();
            proof {
                lemma_low_bound(bucket_no as u64, s0.global_depth as u64);
                lemma_pow2_strictly_increases(s0.global_depth as nat, self.global_depth as nat);
                assert(self.buckets@[bucket_no as int] == s0.buckets@[low(
                    bucket_no as u64,
                    s0.global_depth as u64,
                ) as int]);
            }
        }
        let ghost s1 = *self;
        let nd = d + 1;
        let ghost g = self.global_depth as u64;
        proof {
            lemma_pow2_strictly_increases(g as nat, 62);
            vstd::bits::lemma_u64_pow2_no_overflow(62);
            lemma_buddy_bound(bucket_no as u64, d as u64, g);
            assert(s1.buckets@[bucket_no as int] == ph);
        }
        let pair = ((bucket_no as u64) ^ (1u64 << (d as u64))) as usize;
        let mask: u64 = !(0xffff_ffff_ffff_ffffu64 << (nd as u64));
        let target: u64 = (pair as u64) & mask;
        let mut q: BucketPage<K, V> = BucketPage::new(nd);
        self.pages[ph].grow();
        proof {
            lemma_pow2_unfold(nd as nat);
            self.pages@[ph as int].lemma_size_bound();
        }
        self.pages[ph].drain_into(&mut q, mask, target);
        let qh = match self.free.pop() {
            Some(fh) => {
                proof {
                    assert(s1.free@[s1.free@.len() - 1] == fh);
                }
                self.pages.set(fh, q);
                fh
            },
            None => {
                let fh = self.pages.len();
                self.pages.push(q);
                fh
            },
        };
        let ghost s2 = *self;
        let mut k: usize = 0;
        while k < self.buckets.len()
            invariant
                self.global_depth == s1.global_depth,
                self.pages == s2.pages,
                self.free == s2.free,
                self.contents == s1.contents,
                self.size == s1.size,
                self.buckets@.len() == s1.buckets@.len(),
                k <= self.buckets@.len(),
                forall|a: int|
                    0 <= a < self.buckets@.len() ==> #[trigger] self.buckets@[a] == (if a < k
                        && (a as u64) & mask == target {
                        qh
                    } else {
                        s1.buckets@[a]
                    }),
            decreases self.buckets@.len() - k,
        {
            if (k as u64) & mask == target {
                self.buckets.set(k, qh);
            }
            k = k + 1;
        }
        proof {
            let pg0 = s1.pages@[ph as int];
            let pg1 = self.pages@[ph as int];
            let q1 = self.pages@[qh as int];
            assert(forall|t: int| 0 <= t < self.free@.len() ==> #[trigger] self.free@[t] == s1.free@[t]);
            assert(forall|t: int| 0 <= t < self.free@.len() ==> #[trigger] self.free@[t] != qh) by {
                if self.pages@.len() == s1.pages@.len() {
                    assert(qh == s1.free@[s1.free@.len() - 1]);
                    assert(self.free@.len() == s1.free@.len() - 1);
                }
            }
            assert(self.free@.no_duplicates()) by {
                assert forall|x: int, y: int|
                    0 <= x < self.free@.len() && 0 <= y < self.free@.len() && x != y implies
                    self.free@[x] != self.free@[y] by {
                    assert(self.free@[x] == s1.free@[x]);
                    assert(self.free@[y] == s1.free@[y]);
                }
            }
            assert forall|j: int, t: int|
                0 <= j < self.buckets@.len() && 0 <= t < self.free@.len() implies #[trigger] self.buckets@[j]
                    != #[trigger] self.free@[t] by {
                assert(self.free@[t] == s1.free@[t]);
            }
            let i64 = bucket_no as u64;
            let pr = pair as u64;
            let nd64 = nd as u64;
            assert(target == low(pr, nd64));
            assert forall|a: int|
                0 <= a < self.buckets@.len() implies (#[trigger] self.buckets@[a] == qh) == (low(
                a as u64,
                nd64,
            ) == low(pr, nd64)) && (low(a as u64, nd64) == low(pr, nd64) ==> s1.buckets@[a]
                == ph) by {
                lemma_buddy(i64, a as u64, d as u64);
                assert(s1.buckets@[a] != qh);
            }
            // Sizes of the two halves.
            let sel_t = selected::<K, V>(pg0.contents@, mask, target, true);
            let sel_f = selected::<K, V>(pg0.contents@, mask, target, false);
            assert(sel_t.dom().subset_of(pg0.contents@.dom()));
            assert(sel_f.dom().subset_of(pg0.contents@.dom()));
            vstd::set_lib::lemma_len_subset(sel_t.dom(), pg0.contents@.dom());
            vstd::set_lib::lemma_len_subset(sel_f.dom(), pg0.contents@.dom());
            assert(q1.contents@ =~= sel_t);
            assert(pg1.contents@ =~= sel_f);
            lemma_pow2_strictly_increases(d as nat, nd as nat);
            assert(pg0.size == pow2(d as nat));
            assert(pg1.size <= pg0.size);
            assert(pg1.size < pg1.capacity());
            assert(q1.size < q1.capacity());
            assert forall|j: int| 0 <= j < self.buckets@.len() implies {
                &&& #[trigger] self.buckets@[j] < self.pages@.len()
                &&& self.page(j).wf()
                &&& self.page(j).depth <= self.global_depth
            } by {
                if self.buckets@[j] != qh && self.buckets@[j] != ph {
                    assert(self.page(j) == s1.page(j));
                }
            }
            assert forall|a: int, b: int|
                0 <= a < self.buckets@.len() && 0 <= b < self.buckets@.len() implies ((
            #[trigger] self.buckets@[a] == #[trigger] self.buckets@[b]) == (low(
                a as u64,
                self.page(a).depth as u64,
            ) == low(b as u64, self.page(a).depth as u64))) by {
                lemma_buddy(i64, a as u64, d as u64);
                lemma_buddy(i64, b as u64, d as u64);
                assert(s1.buckets@[a] != qh);
                assert(s1.buckets@[b] != qh);
                assert(s1.buckets@[a] == s1.buckets@[b] <==> low(a as u64, s1.page(a).depth as u64)
                    == low(b as u64, s1.page(a).depth as u64));
                assert(s1.buckets@[a] == ph <==> low(a as u64, d as u64) == low(i64, d as u64));
                assert(s1.buckets@[b] == ph <==> low(b as u64, d as u64) == low(i64, d as u64));
                if self.buckets@[a] != qh && self.buckets@[a] != ph {
                    assert(self.page(a) == s1.page(a));
                }
            }
            assert forall|j: int, k: K::V|
                0 <= j < self.buckets@.len() && #[trigger] self.page(j).contents@.contains_key(
                    k,
                ) implies {
                &&& self.contents@.contains_key(k)
                &&& self.contents@[k] == self.page(j).contents@[k]
                &&& self.buckets@[self.key_slot(k)] == self.buckets@[j]
            } by {
                let hk = K::spec_hash(k);
                let ks = self.key_slot(k);
                lemma_low_bound(hk, g);
                lemma_low_low(hk, nd64, g);
                assert(ks == s1.key_slot(k));
                if self.buckets@[j] == qh {
                    assert(s1.page(bucket_no as int).contents@.contains_key(k));
                    assert(s1.buckets@[ks] == ph);
                } else if self.buckets@[j] == ph {
                    assert(s1.page(bucket_no as int).contents@.contains_key(k));
                    assert(s1.buckets@[ks] == ph);
                } else {
                    assert(self.page(j) == s1.page(j));
                    assert(s1.page(j).contents@.contains_key(k));
                }
            }
            assert forall|k: K::V| #[trigger]
                self.contents@.contains_key(k) implies self.page(
                self.key_slot(k),
            ).contents@.contains_key(k) by {
                let hk = K::spec_hash(k);
                let ks = self.key_slot(k);
                lemma_low_bound(hk, g);
                lemma_low_low(hk, nd64, g);
                assert(s1.page(ks).contents@.contains_key(k));
                if s1.buckets@[ks] == ph {
                } else {
                    assert(self.page(ks) == s1.page(ks));
                }
            }
            assert(pair == buddy(bucket_no as int, nd as nat));
            lemma_buddy(i64, i64, d as u64);
            assert(self.buckets@[pair as int] == qh);
            assert(self.buckets@[bucket_no as int] == ph);
            assert forall|a: int| 0 <= a < self.buckets@.len() implies #[trigger] self.buckets@[a] == (
                if low(a as u64, nd64) == low(pr, nd64) {
                    self.buckets@[pair as int]
                } else if low(a as u64, nd64) == low(i64, nd64) {
                    self.buckets@[bucket_no as int]
                } else {
                    s0.buckets@[low(a as u64, s0.global_depth as u64) as int]
                }) by {
                lemma_buddy(i64, a as u64, d as u64);
                lemma_low_bound(a as u64, s0.global_depth as u64);
                if low(a as u64, nd64) != low(pr, nd64) {
                    if low(a as u64, nd64) == low(i64, nd64) {
                        assert(s1.buckets@[a] == s1.buckets@[bucket_no as int] <==> low(a as u64, d as u64) == low(i64, d as u64));
                    } else if s1.global_depth == s0.global_depth {
                        assert(s1.buckets@[a] == s0.buckets@[a]);
                    } else {
                        assert(s1.buckets@[a] == s0.buckets@[low(a as u64, s0.global_depth as u64) as int]);
                    }
                }
            }
            assert forall|h: u64|
                s0.buckets@[s0.route(h)] == s0.buckets@[bucket_no as int] implies #[trigger] self.page(
                self.route(h),
            ).size < self.page(self.route(h)).capacity() by {
                lemma_low_bound(h, g);
                lemma_low_bound(h, s0.global_depth as u64);
                lemma_low_low(h, s0.global_depth as u64, g);
                assert(s1.buckets@[self.route(h)] == s0.buckets@[s0.route(h)]);
            }
        }
    }

    /// Replacing the bucket `h` of key `k`'s slot by one that differs from it
    /// only at `k` keeps the directory well formed.
    proof fn lemma_update_page(s0: Self, s1: Self, k: K::V, hp: int)
        requires
            s0.wf(),
            0 <= hp < s0.pages@.len(),
            s0.buckets@[s0.key_slot(k)] == hp,
            s1.global_depth == s0.global_depth,
            s1.buckets@ == s0.buckets@,
            s1.free@ == s0.free@,
            s1.pages@.len() == s0.pages@.len(),
            forall|x: int| 0 <= x < s0.pages@.len() && x != hp ==> s1.pages@[x] == s0.pages@[x],
            s1.pages@[hp].wf(),
            s1.pages@[hp].depth == s0.pages@[hp].depth,
            s1.contents@.dom().finite(),
            s1.size == s1.contents@.len(),
            forall|x: K::V| x != k ==> s1.pages@[hp].contents@.contains_key(x) == s0.pages@[hp].contents@.contains_key(x),
            forall|x: K::V| x != k && s0.pages@[hp].contents@.contains_key(x) ==> s1.pages@[hp].contents@[x] == s0.pages@[hp].contents@[x],
            forall|x: K::V| x != k ==> s1.contents@.contains_key(x) == s0.contents@.contains_key(x),
            forall|x: K::V| x != k && s0.contents@.contains_key(x) ==> s1.contents@[x] == s0.contents@[x],
            s1.pages@[hp].contents@.contains_key(k) == s1.contents@.contains_key(k),
            s1.contents@.contains_key(k) ==> s1.pages@[hp].contents@[k] == s1.contents@[k],
        ensures
            s1.wf(),
    {
        assert forall|j: int| 0 <= j < s1.buckets@.len() implies {
            &&& #[trigger] s1.buckets@[j] < s1.pages@.len()
            &&& s1.page(j).wf()
            &&& s1.page(j).depth <= s1.global_depth
        } by {
            assert(s0.buckets@[j] < s0.pages@.len());
        }
        assert forall|a: int, b: int|
            0 <= a < s1.buckets@.len() && 0 <= b < s1.buckets@.len() implies ((
        #[trigger] s1.buckets@[a] == #[trigger] s1.buckets@[b]) == (low(
            a as u64,
            s1.page(a).depth as u64,
        ) == low(b as u64, s1.page(a).depth as u64))) by {
            assert(s0.buckets@[a] == s0.buckets@[b] <==> low(a as u64, s0.page(a).depth as u64)
                == low(b as u64, s0.page(a).depth as u64));
            assert(s0.buckets@[a] < s0.pages@.len());
        }
        assert forall|j: int, x: K::V|
            0 <= j < s1.buckets@.len() && #[trigger] s1.page(j).contents@.contains_key(x) implies {
            &&& s1.contents@.contains_key(x)
            &&& s1.contents@[x] == s1.page(j).contents@[x]
            &&& s1.buckets@[s1.key_slot(x)] == s1.buckets@[j]
        } by {
            assert(s0.buckets@[j] < s0.pages@.len());
            if x == k {
                assert(s1.buckets@[j] == hp);
            } else {
                assert(s0.page(j).contents@.contains_key(x));
            }
        }
        assert forall|x: K::V| #[trigger]
            s1.contents@.contains_key(x) implies s1.page(s1.key_slot(x)).contents@.contains_key(x) by {
            if x != k {
                assert(s0.contents@.contains_key(x));
                assert(s0.page(s0.key_slot(x)).contents@.contains_key(x));
                lemma_low_bound(K::spec_hash(x), s0.global_depth as u64);
                assert(s0.buckets@[s0.key_slot(x)] < s0.pages@.len());
            }
        }
    }

    /// Stores `value` under `key`, splitting the target bucket when it is full.
    pub fn put(&mut self, key: K, value: V, hash_code: u64)
        requires
            old(self).wf(),
            hash_code == K::spec_hash(key@),
            old(self).size < MAX_LEN,
            old(self).size < usize::MAX,
        ensures
            final(self).wf(),
            final(self).contents@ == old(self).contents@.insert(key@, value),
            final(self).size == old(self).size + (if old(self).contents@.contains_key(key@) {
                0int
            } else {
                1int
            }),
            old(self).global_depth <= final(self).global_depth <= old(self).global_depth + 1,
    {
        let ghost k = key@;
        let i = self.get_directory_index(hash_code);
        let h = self.buckets[i];
        let ghost s0 = *self;
        proof {
            if s0.contents@.contains_key(k) {
                assert(s0.page(i as int).contents@.contains_key(k));
            } else {
                if s0.page(i as int).contents@.contains_key(k) {
                    assert(s0.contents@.contains_key(k));
                }
            }
            assert(s0.page(i as int).contents@.dom().subset_of(s0.contents@.dom())) by {
                assert forall|x: K::V| #[trigger]
                    s0.page(i as int).contents@.dom().contains(x) implies s0.contents@.dom().contains(x) by {
                    assert(s0.page(i as int).contents@.contains_key(x));
                }
            }
            vstd::set_lib::lemma_len_subset(s0.page(i as int).contents@.dom(), s0.contents@.dom());
        }
        let before = self.pages[h].size;
        let res = self.pages[h].put(key, value, hash_code);
        match res {
            Ok(()) => {
                let added = self.pages[h].size != before;
                proof {
                    let pg0 = s0.pages@[h as int];
                    let pg1 = self.pages@[h as int];
                    assert(added == !s0.contents@.contains_key(k));
                    if added {
                        assert(s0.contents@.insert(k, value).dom() =~= s0.contents@.dom().insert(k));
                    } else {
                        assert(s0.contents@.insert(k, value).dom() =~= s0.contents@.dom());
                    }
                }
                if added {
                    self.size = self.size + 1;
                }
                self.contents = Ghost(self.contents@.insert(k, value));
                proof {
                    Self::lemma_update_page(s0, *self, k, h as int);
                }
            },
            Err((key2, value2, hash2)) => {
                proof {
                    let d = s0.page(i as int).depth as nat;
                    vstd::arithmetic::power2::lemma2_to64_rest();
                    if d >= 59 {
                        if d > 59 {
                            lemma_pow2_strictly_increases(59, d);
                        }
                    }
                    Self::lemma_update_page(s0, *self, k, h as int);
                }
                self.split(i);
                let i2 = self.get_directory_index(hash2);
                let h2 = self.buckets[i2];
                let ghost s1 = *self;
                let res2 = self.pages[h2].put(key2, value2, hash2);
                proof {
                    assert(res2 is Ok);
                    lemma_low_bound(hash2, s1.global_depth as u64);
                    if s1.page(i2 as int).contents@.contains_key(k) {
                        assert(s1.contents@.contains_key(k));
                    }
                    assert(s0.contents@.insert(k, value).dom() =~= s0.contents@.dom().insert(k));
                }
                self.size = self.size + 1;
                self.contents = Ghost(self.contents@.insert(k, value));
                proof {
                    Self::lemma_update_page(s1, *self, k, h2 as int);
                }
            },
        }
    }

    /// The buddy slot of `bucket_no` for a bucket of depth `local_depth`.
    fn pair_index(bucket_no: usize, local_depth: usize) -> (r: usize)
        requires
            1 <= local_depth < 64,
            (bucket_no as u64) ^ (1u64 << ((local_depth - 1) as u64)) <= usize::MAX,
        ensures
            r == (bucket_no as u64) ^ (1u64 << ((local_depth - 1) as u64)),
    {
        ((bucket_no as u64) ^ (1u64 << ((local_depth - 1) as u64))) as usize
    }

    /// Whether no bucket uses the full global depth.
    fn can_shrink(&self) -> (r: bool)
        requires
            self.slots_ok(),
        ensures
            r == (forall|j: int|
                0 <= j < self.buckets@.len() ==> #[trigger] self.page(j).depth < self.global_depth),
    {
        let mut j: usize = 0;
        while j < self.buckets.len()
            invariant
                self.slots_ok(),
                j <= self.buckets@.len(),
                forall|a: int| 0 <= a < j ==> #[trigger] self.page(a).depth < self.global_depth,
            decreases self.buckets@.len() - j,
        {
            let h = self.buckets[j];
            if self.pages[h].depth == self.global_depth {
                return false;
            }
            j = j + 1;
        }
        true
    }

    /// Halves the slot array when no bucket uses the full global depth.
    fn try_shrink(&mut self)
        requires
            old(self).wf(),
        ensures
            final(self).wf(),
            final(self).contents@ == old(self).contents@,
            final(self).size == old(self).size,
            final(self).pages@ == old(self).pages@,
            (forall|j: int|
                0 <= j < old(self).buckets@.len() ==> #[trigger] old(self).page(j).depth
                    < old(self).global_depth) ==> {
                &&& final(self).global_depth == old(self).global_depth - 1
                &&& final(self).buckets@ == old(self).buckets@.subrange(
                    0,
                    pow2((old(self).global_depth - 1) as nat) as int,
                )
            },
            !(forall|j: int|
                0 <= j < old(self).buckets@.len() ==> #[trigger] old(self).page(j).depth
                    < old(self).global_depth) ==> {
                &&& final(self).global_depth == old(self).global_depth
                &&& final(self).buckets@ == old(self).buckets@
            },
    {
        if !self.can_shrink() {
            return;
        }
        let ghost s0 = *self;
        let ghost g = s0.global_depth as u64;
        proof {
            vstd::arithmetic::power2::lemma_pow2_pos(g as nat);
            assert(s0.page(0).depth < s0.global_depth);
            lemma_pow2_unfold(g as nat);
        }
        self.global_depth = self.global_depth - 1;
        let half = self.buckets.len() / 2;
        while self.buckets.len() > half
            invariant
                half == pow2((g - 1) as nat),
                s0.buckets@.len() == 2 * half,
                half <= self.buckets@.len() <= s0.buckets@.len(),
                self.buckets@ == s0.buckets@.subrange(0, self.buckets@.len() as int),
                self.global_depth == s0.global_depth - 1,
                self.pages == s0.pages,
                self.free == s0.free,
                self.contents == s0.contents,
                self.size == s0.size,
            decreases self.buckets@.len(),
        {
            self.buckets.pop();
        }
        proof {
            let gn = (g - 1) as u64;
            assert forall|j: int, t: int|
                0 <= j < self.buckets@.len() && 0 <= t < self.free@.len() implies #[trigger] self.buckets@[j]
                    != #[trigger] self.free@[t] by {
                assert(self.buckets@[j] == s0.buckets@[j]);
            }
            assert forall|j: int| 0 <= j < self.buckets@.len() implies {
                &&& #[trigger] self.buckets@[j] < self.pages@.len()
                &&& self.page(j).wf()
                &&& self.page(j).depth <= self.global_depth
            } by {
                assert(self.buckets@[j] == s0.buckets@[j]);
                assert(s0.page(j).depth < s0.global_depth);
            }
            assert forall|a: int, b: int|
                0 <= a < self.buckets@.len() && 0 <= b < self.buckets@.len() implies ((
            #[trigger] self.buckets@[a] == #[trigger] self.buckets@[b]) == (low(
                a as u64,
                self.page(a).depth as u64,
            ) == low(b as u64, self.page(a).depth as u64))) by {
                assert(self.buckets@[a] == s0.buckets@[a]);
                assert(self.buckets@[b] == s0.buckets@[b]);
            }
            assert forall|k: K::V| #[trigger] s0.contents@.contains_key(k) implies self.buckets@[
                self.key_slot(k)] == s0.buckets@[s0.key_slot(k)] by {
                let hk = K::spec_hash(k);
                let r = s0.key_slot(k);
                let r2 = self.key_slot(k);
                lemma_low_bound(hk, g);
                lemma_low_bound(hk, gn);
                lemma_low_low(hk, gn, g);
                assert(self.buckets@[r2] == s0.buckets@[r2]);
                let dr = s0.page(r).depth as u64;
                assert(s0.page(r).depth < s0.global_depth);
                lemma_low_low(hk, dr, gn);
                lemma_low_low(hk, dr, g);
                assert(s0.buckets@[r] == s0.buckets@[r2] <==> low(r as u64, dr) == low(r2 as u64, dr));
            }
            assert forall|j: int, k: K::V|
                0 <= j < self.buckets@.len() && #[trigger] self.page(j).contents@.contains_key(
                    k,
                ) implies {
                &&& self.contents@.contains_key(k)
                &&& self.contents@[k] == self.page(j).contents@[k]
                &&& self.buckets@[self.key_slot(k)] == self.buckets@[j]
            } by {
                assert(self.buckets@[j] == s0.buckets@[j]);
                assert(s0.page(j).contents@.contains_key(k));
            }
            assert forall|k: K::V| #[trigger]
                self.contents@.contains_key(k) implies self.page(self.key_slot(k)).contents@.contains_key(k) by {
                assert(s0.contents@.contains_key(k));
                lemma_low_bound(K::spec_hash(k), g);
                assert(s0.page(s0.key_slot(k)).contents@.contains_key(k));
            }
        }
    }

    /// Merges the bucket of slot `bucket_no` with its buddy when both are at
    /// the same depth, above the floor depth, and lightly loaded.
    fn try_merge(&mut self, bucket_no: usize)
        requires
            old(self).wf(),
            bucket_no < old(self).buckets@.len(),
        ensures
            final(self).wf(),
            final(self).contents@ == old(self).contents@,
            final(self).size == old(self).size,
            final(self).global_depth == old(self).global_depth,
            old(self).merge_gate(bucket_no as int) ==> {
                let b = bucket_no as int;
                let p = buddy(b, old(self).page(b).depth as nat);
                &&& final(self).page(b).depth == old(self).page(b).depth - 1
                &&& final(self).buckets@[p] == final(self).buckets@[b]
                &&& final(self).page(b).contents@ == old(self).page(b).contents@.union_prefer_right(
                    old(self).page(p).contents@,
                )
                &&& final(self).page(b).size == old(self).page(b).size + old(self).page(p).size
                &&& forall|k: int|
                    0 <= k < final(self).buckets@.len() ==> #[trigger] final(self).buckets@[k] == (
                    if old(self).buckets@[k] == old(self).buckets@[p] {
                        old(self).buckets@[b]
                    } else {
                        old(self).buckets@[k]
                    })
            },
            !old(self).merge_gate(bucket_no as int) ==> {
                &&& final(self).buckets@ == old(self).buckets@
                &&& final(self).pages@ == old(self).pages@
            },
    {
        let ph = self.buckets[bucket_no];
        let local_depth = self.pages[ph].depth;
        if local_depth <= DIRECTORY_DEFAULT_INIT_GLOBAL_DEPTH {
            return;
        }
        let n = self.buckets.len();
        let ghost s0 = *self;
        let ghost g = s0.global_depth as u64;
        let ghost d1 = (local_depth - 1) as u64;
        proof {
            lemma_buddy_bound(bucket_no as u64, d1, g);
            lemma_pow2_strictly_increases(g as nat, 62);
            vstd::bits::lemma_u64_pow2_no_overflow(62);
        }
        let pair = Self::pair_index(bucket_no, local_depth);
        let qh = self.buckets[pair];
        let pair_depth = self.pages[qh].depth;
        let size = self.pages[ph].size;
        let pair_size = self.pages[qh].size;
        proof {
            vstd::arithmetic::power2::lemma2_to64();
            vstd::arithmetic::power2::lemma2_to64_rest();
            self.pages@[ph as int].lemma_size_bound();
            self.pages@[qh as int].lemma_size_bound();
            lemma_pow2_strictly_increases(local_depth as nat, 61);
            vstd::bits::lemma_u64_pow2_no_overflow(local_depth as nat);
            vstd::bits::lemma_u64_shl_is_mul(1, local_depth as u64);
            vstd::bits::lemma_u64_shl_is_mul(size as u64, DIRECTORY_MERGE_LOAD_FACTOR_BIT as u64);
            vstd::bits::lemma_u64_shl_is_mul(pair_size as u64, DIRECTORY_MERGE_LOAD_FACTOR_BIT as u64);
            vstd::arithmetic::power2::lemma2_to64();
        }
        if local_depth == pair_depth && ((size as u64) << (DIRECTORY_MERGE_LOAD_FACTOR_BIT as u64))
            < (1u64 << (local_depth as u64)) && ((pair_size as u64) << (
        DIRECTORY_MERGE_LOAD_FACTOR_BIT as u64)) < (1u64 << (pair_depth as u64)) {
            proof {
                lemma_buddy(bucket_no as u64, bucket_no as u64, d1);
                assert(qh != ph);
                assert forall|x: K::V| #[trigger]
                    s0.pages@[qh as int].contents@.contains_key(x) implies !s0.pages@[ph as int].contents@.contains_key(x) by {
                    assert(s0.page(pair as int).contents@.contains_key(x));
                    if s0.page(bucket_no as int).contents@.contains_key(x) {
                        assert(s0.buckets@[s0.key_slot(x)] == ph);
                    }
                }
                lemma_pow2_unfold(local_depth as nat);
            }
            let mut q: BucketPage<K, V> = BucketPage::new(0);
            std::mem::swap(&mut self.pages[qh], &mut q);
            q.drain_into(&mut self.pages[ph], 0, 0);
            proof {
                assert(forall|x: u64| #[trigger] (x & 0) == 0) by (bit_vector);
                assert(q.contents@ =~= Map::<K::V, V>::empty());
            }
            self.pages[ph].shrink();
            let ghost s1 = *self;
            let mut k: usize = 0;
            while k < self.buckets.len()
                invariant
                    self.global_depth == s0.global_depth,
                    self.pages == s1.pages,
                    self.free == s0.free,
                    self.contents == s0.contents,
                    self.size == s0.size,
                    self.buckets@.len() == s0.buckets@.len(),
                    k <= self.buckets@.len(),
                    forall|a: int|
                        0 <= a < self.buckets@.len() ==> #[trigger] self.buckets@[a] == (if a < k
                            && s0.buckets@[a] == qh {
                            ph
                        } else {
                            s0.buckets@[a]
                        }),
                decreases self.buckets@.len() - k,
            {
                if self.buckets[k] == qh {
                    self.buckets.set(k, ph);
                }
                k = k + 1;
            }
            self.free.push(qh);
            proof {
                assert(forall|t: int| 0 <= t < s0.free@.len() ==> #[trigger] s0.free@[t] != qh);
                assert(self.free@.no_duplicates()) by {
                    assert forall|x: int, y: int|
                        0 <= x < self.free@.len() && 0 <= y < self.free@.len() && x != y implies
                        self.free@[x] != self.free@[y] by {
                        if x < s0.free@.len() {
                            assert(self.free@[x] == s0.free@[x]);
                        }
                        if y < s0.free@.len() {
                            assert(self.free@[y] == s0.free@[y]);
                        }
                    }
                }
                assert forall|j: int, t: int|
                    0 <= j < self.buckets@.len() && 0 <= t < self.free@.len() implies #[trigger] self.buckets@[j]
                        != #[trigger] self.free@[t] by {
                    if t < s0.free@.len() {
                        assert(self.free@[t] == s0.free@[t]);
                        assert(s0.buckets@[j] != s0.free@[t]);
                        assert(s0.buckets@[bucket_no as int] != s0.free@[t]);
                    } else {
                        assert(self.free@[t] == qh);
                    }
                }
                assert forall|t: int| 0 <= t < self.free@.len() implies #[trigger] self.free@[t] < self.pages@.len() by {
                    if t < s0.free@.len() {
                        assert(self.free@[t] == s0.free@[t]);
                    }
                }
            }
            proof {
                let pg0 = s0.pages@[ph as int];
                let q0 = s0.pages@[qh as int];
                assert(s0.merge_gate(bucket_no as int));
                assert(pair == buddy(bucket_no as int, local_depth as nat));
                assert(q.size == 0);
                assert(self.buckets@[bucket_no as int] == ph);
                assert(self.buckets@[pair as int] == ph);
                let pg1 = self.pages@[ph as int];
                let i64 = bucket_no as u64;
                let dd = local_depth as u64;
                assert(forall|x: u64| #[trigger] (x & 0) == 0) by (bit_vector);
                assert(pg1.contents@ =~= pg0.contents@.union_prefer_right(q0.contents@));
                assert forall|a: int|
                    0 <= a < self.buckets@.len() implies (#[trigger] self.buckets@[a] == ph) == (low(
                    a as u64,
                    d1,
                ) == low(i64, d1)) by {
                    lemma_buddy(i64, a as u64, d1);
                    assert(s0.buckets@[a] == ph <==> low(a as u64, dd) == low(i64, dd));
                    assert(s0.buckets@[a] == s0.buckets@[pair as int] <==> low(a as u64, dd) == low(
                        pair as u64,
                        dd,
                    ));
                }
                assert forall|j: int| 0 <= j < self.buckets@.len() implies {
                    &&& #[trigger] self.buckets@[j] < self.pages@.len()
                    &&& self.page(j).wf()
                    &&& self.page(j).depth <= self.global_depth
                } by {
                    if self.buckets@[j] != ph {
                        assert(self.page(j) == s0.page(j));
                    }
                }
                assert forall|a: int, b: int|
                    0 <= a < self.buckets@.len() && 0 <= b < self.buckets@.len() implies ((
                #[trigger] self.buckets@[a] == #[trigger] self.buckets@[b]) == (low(
                    a as u64,
                    self.page(a).depth as u64,
                ) == low(b as u64, self.page(a).depth as u64))) by {
                    lemma_buddy(i64, a as u64, d1);
                    lemma_buddy(i64, b as u64, d1);
                    assert(s0.buckets@[a] == s0.buckets@[b] <==> low(a as u64, s0.page(a).depth as u64)
                        == low(b as u64, s0.page(a).depth as u64));
                    if self.buckets@[a] != ph {
                        assert(self.page(a) == s0.page(a));
                    }
                }
                assert forall|j: int, k: K::V|
                    0 <= j < self.buckets@.len() && #[trigger] self.page(j).contents@.contains_key(
                        k,
                    ) implies {
                    &&& self.contents@.contains_key(k)
                    &&& self.contents@[k] == self.page(j).contents@[k]
                    &&& self.buckets@[self.key_slot(k)] == self.buckets@[j]
                } by {
                    lemma_low_bound(K::spec_hash(k), g);
                    if self.buckets@[j] == ph {
                        if pg0.contents@.contains_key(k) {
                            assert(s0.page(bucket_no as int).contents@.contains_key(k));
                        } else {
                            assert(s0.page(pair as int).contents@.contains_key(k));
                        }
                    } else {
                        assert(self.page(j) == s0.page(j));
                        assert(s0.page(j).contents@.contains_key(k));
                    }
                }
                assert forall|k: K::V| #[trigger]
                    self.contents@.contains_key(k) implies self.page(
                    self.key_slot(k),
                ).contents@.contains_key(k) by {
                    lemma_low_bound(K::spec_hash(k), g);
                    assert(s0.page(s0.key_slot(k)).contents@.contains_key(k));
                }
            }
        }
    }

    /// Removes the entry of `key` and returns its key and value; then merges
    /// its bucket with the buddy where possible, and halves the directory
    /// once few entries remain.
    pub fn del(&mut self, key: &K, hash_code: u64) -> (r: Option<(K, V)>)
        requires
            old(self).wf(),
            hash_code == K::spec_hash(key@),
        ensures
            final(self).wf(),
            final(self).contents@ == old(self).contents@.remove(key@),
            r is Some == old(self).contents@.contains_key(key@),
            final(self).size == old(self).size - (if r is Some {
                1int
            } else {
                0int
            }),
            match r {
                Some((rk, rv)) => rk@ == key@ && rv == old(self).contents@[key@],
                None => true,
            },
            final(self).global_depth <= old(self).global_depth,
            r is None ==> {
                &&& final(self).global_depth == old(self).global_depth
                &&& final(self).buckets@ == old(self).buckets@
                &&& final(self).pages@ == old(self).pages@
            },
    {
        let ghost k = key@;
        let i = self.get_directory_index(hash_code);
        let h = self.buckets[i];
        let ghost s0 = *self;
        proof {
            if s0.page(i as int).contents@.contains_key(k) {
                assert(s0.contents@.contains_key(k));
            }
        }
        if !self.pages[h].contain(key, hash_code) {
            proof {
                assert(s0.contents@.remove(k) =~= s0.contents@);
            }
            return None;
        }
        proof {
            if s0.contents@.contains_key(k) {
                assert(s0.page(i as int).contents@.contains_key(k));
            } else {
                if s0.page(i as int).contents@.contains_key(k) {
                    assert(s0.contents@.contains_key(k));
                }
            }
        }
        let res = self.pages[h].del(key, hash_code);
        match res {
            Some(node) => {
                proof {
                    assert(s0.contents@.remove(k).dom() =~= s0.contents@.dom().remove(k));
                }
                self.size = self.size - 1;
                self.contents = Ghost(self.contents@.remove(k));
                proof {
                    Self::lemma_update_page(s0, *self, k, h as int);
                }
                self.try_merge(i);
                if self.size < self.global_depth / DIRECTORY_SHRINK_DIVISOR {
                    self.try_shrink();
                }
                Some((node.key, node.value))
            },
            None => {
                proof {
                    assert(s0.contents@.remove(k) =~= s0.contents@);
                    Self::lemma_update_page(s0, *self, k, h as int);
                }
                None
            },
        }
    }
}

impl<K: HashKey, V: Clone> DirectoryPage<K, V> {
    /// A copy of the value stored under `key`.
    pub fn get(&self, key: &K, hash_code: u64) -> (r: Option<V>)
        requires
            self.wf(),
            hash_code == K::spec_hash(key@),
        ensures
            r is Some == self.contents@.contains_key(key@),
            r is Some ==> cloned(self.contents@[key@], r->0),
    {
        let i = self.get_directory_index(hash_code);
        let h = self.buckets[i];
        proof {
            if self.page(i as int).contents@.contains_key(key@) {
                assert(self.contents@.contains_key(key@));
            }
        }
        match self.pages[h].get(key, hash_code) {
            Some(v) => Some(v.clone()),
            None => None,
        }
    }
}

impl<K: HashKey, V> Default for DirectoryPage<K, V> {
    /// An empty directory of depth `DIRECTORY_DEFAULT_INIT_GLOBAL_DEPTH`.
    fn default() -> (r: Self)
        ensures
            r.wf(),
            r.global_depth == DIRECTORY_DEFAULT_INIT_GLOBAL_DEPTH,
            r.size == 0,
            r.contents@ == Map::<K::V, V>::empty(),
            forall|j: int|
                0 <= j < r.buckets@.len() ==> #[trigger] r.page(j).depth == BUCKET_DEFAULT_INIT_DEPTH,
    {
        Self::new(DIRECTORY_DEFAULT_INIT_GLOBAL_DEPTH)
    }
}

/// Every entry sits in exactly one bucket of the directory: the buckets
/// together hold exactly its contents, none twice, and `len` counts them.
pub proof fn law_entries_conserved<K: HashKey, V>(d: &DirectoryPage<K, V>)
    requires
        d.wf(),
    ensures
        d.size == d.contents@.dom().len(),
        d.contents@.dom().finite(),
        forall|k: K::V|
            d.contents@.contains_key(k) <==> exists|j: int|
                0 <= j < d.buckets@.len() && #[trigger] d.page(j).contents@.contains_key(k),
        forall|j1: int, j2: int, k: K::V|
            0 <= j1 < d.buckets@.len() && 0 <= j2 < d.buckets@.len()
                && #[trigger] d.page(j1).contents@.contains_key(k)
                && #[trigger] d.page(j2).contents@.contains_key(k) ==> d.buckets@[j1]
                == d.buckets@[j2],
{
    assert forall|k: K::V| d.contents@.contains_key(k) implies exists|j: int|
        0 <= j < d.buckets@.len() && #[trigger] d.page(j).contents@.contains_key(k) by {
        lemma_low_bound(K::spec_hash(k), d.global_depth as u64);
        assert(d.page(d.key_slot(k)).contents@.contains_key(k));
    }
}

/// Every bucket that a slot reaches holds at most `2^local_depth` entries,
/// and its local depth is at most the global depth.
pub proof fn law_capacity<K: HashKey, V>(d: &DirectoryPage<K, V>)
    requires
        d.wf(),
    ensures
        forall|j: int|
            0 <= j < d.buckets@.len() ==> #[trigger] d.page(j).size <= pow2(d.page(j).depth as nat)
                && d.page(j).depth <= d.global_depth,
{
    assert forall|j: int| 0 <= j < d.buckets@.len() implies #[trigger] d.page(j).size <= pow2(
        d.page(j).depth as nat,
    ) && d.page(j).depth <= d.global_depth by {
        assert(d.buckets@[j] < d.pages@.len());
        d.page(j).lemma_size_bound();
    }
}

} // verus!
