//! A bucket: a fixed-capacity array of slots holding entries, with
//! `2^depth` slots.

use crate::key::HashKey;
use vstd::arithmetic::power2::{lemma_pow2_unfold, pow2};
use vstd::prelude::*;

verus! {

/// One stored entry: a key, its value and the key's hash.
#[derive(Clone, Debug)]
pub struct Node<K, V> {
    pub key: K,
    pub value: V,
    pub hash_code: u64,
}

/// Depth of a bucket made without an explicit depth.
pub const BUCKET_DEFAULT_INIT_DEPTH: usize = 2;

/// Largest depth a bucket or a directory may reach: a directory of `2^61`
/// slot handles would not fit in the address space.
pub const MAX_DEPTH: usize = 60;

/// Number of occupied slots.
pub open spec fn occupied<T>(s: Seq<Option<T>>) -> nat
    decreases s.len(),
{
    if s.len() == 0 {
        0
    } else {
        occupied(s.drop_last()) + (if s.last() is Some {
            1nat
        } else {
            0nat
        })
    }
}

/// Changing one slot changes the occupied count by the difference.
pub proof fn lemma_occupied_update<T>(s: Seq<Option<T>>, i: int, x: Option<T>)
    requires
        0 <= i < s.len(),
    ensures
        occupied(s.update(i, x)) + (if s[i] is Some {
            1int
        } else {
            0int
        }) == occupied(s) + (if x is Some {
            1int
        } else {
            0int
        }),
    decreases s.len(),
{
    let t = s.update(i, x);
    if i == s.len() - 1 {
        assert(t.drop_last() =~= s.drop_last());
    } else {
        lemma_occupied_update(s.drop_last(), i, x);
        assert(t.drop_last() =~= s.drop_last().update(i, x));
    }
}

/// A sequence with no empty slot is fully occupied; none holds more than its length.
pub proof fn lemma_occupied_bound<T>(s: Seq<Option<T>>)
    ensures
        occupied(s) <= s.len(),
        (forall|i: int| 0 <= i < s.len() ==> s[i] is Some) ==> occupied(s) == s.len(),
    decreases s.len(),
{
    if s.len() > 0 {
        lemma_occupied_bound(s.drop_last());
        if forall|i: int| 0 <= i < s.len() ==> s[i] is Some {
            assert forall|i: int| 0 <= i < s.drop_last().len() implies s.drop_last()[i] is Some by {
                assert(s[i] is Some);
            }
        }
    }
}

/// A sequence of empty slots has none occupied.
pub proof fn lemma_occupied_empty<T>(s: Seq<Option<T>>)
    requires
        forall|i: int| 0 <= i < s.len() ==> s[i] is None,
    ensures
        occupied(s) == 0,
    decreases s.len(),
{
    if s.len() > 0 {
        lemma_occupied_empty(s.drop_last());
    }
}

/// A bucket of `2^depth` slots, at most one entry per key.
pub struct BucketPage<K: View, V> {
    pub depth: usize,
    pub size: usize,
    pub elems: Vec<Option<Node<K, V>>>,
    /// What the bucket holds, key by key.
    pub contents: Ghost<Map<K::V, V>>,
}

impl<K: HashKey, V> BucketPage<K, V> {
    /// Number of slots.
    pub open spec fn capacity(&self) -> nat {
        pow2(self.depth as nat)
    }

    /// Slot `i` holds the entry of key `k`.
    pub open spec fn slot_has(&self, i: int, k: K::V) -> bool {
        0 <= i < self.elems@.len() && self.elems@[i] is Some && self.elems@[i]->0.key@ == k
    }

    /// Slot `i` is where a put of key `k` goes: the slot holding `k`, or an
    /// empty one when no slot does.
    pub open spec fn put_slot(&self, i: int, k: K::V) -> bool {
        &&& 0 <= i < self.elems@.len()
        &&& (self.elems@[i] is None || self.slot_has(i, k))
        &&& (self.contents@.contains_key(k) ==> self.slot_has(i, k))
    }

    /// `size` counts the occupied slots, `contents` is what they hold, every
    /// entry carries its key's hash, and no key occurs twice.
    pub open spec fn wf(&self) -> bool {
        &&& self.depth <= MAX_DEPTH
        &&& self.elems@.len() == self.capacity()
        &&& self.size == occupied(self.elems@)
        &&& self.contents@.dom().finite()
        &&& self.size == self.contents@.len()
        &&& forall|i: int|
            #![trigger self.elems@[i]]
            0 <= i < self.elems@.len() && self.elems@[i] is Some ==> {
                let n = self.elems@[i]->0;
                &&& self.contents@.contains_key(n.key@)
                &&& self.contents@[n.key@] == n.value
                &&& n.hash_code == K::spec_hash(n.key@)
            }
        &&& forall|k: K::V| #[trigger]
            self.contents@.contains_key(k) ==> exists|i: int| self.slot_has(i, k)
        &&& forall|i: int, j: int|
            #![trigger self.elems@[i], self.elems@[j]]
            0 <= i < self.elems@.len() && 0 <= j < self.elems@.len() && i != j
                && self.elems@[i] is Some && self.elems@[j] is Some ==> self.elems@[i]->0.key@
                != self.elems@[j]->0.key@
    }

    /// An empty bucket of `2^depth` slots.
    pub fn new(depth: usize) -> (r: Self)
        requires
            depth <= MAX_DEPTH,
        ensures
            r.wf(),
            r.depth == depth,
            r.size == 0,
            r.contents@ == Map::<K::V, V>::empty(),
    {
        let mut elems: Vec<Option<Node<K, V>>> = Vec::new();
        elems.push(None);
        let mut d: usize = 0;
        proof {
            vstd::arithmetic::power2::lemma2_to64();
        }
        while d < depth
            invariant
                d <= depth <= MAX_DEPTH,
                elems@.len() == pow2(d as nat),
                forall|i: int| 0 <= i < elems@.len() ==> elems@[i] is None,
            decreases depth - d,
        {
            let n = elems.len();
            let mut i: usize = 0;
            proof {
                vstd::arithmetic::power2::lemma_pow2_strictly_increases(d as nat, MAX_DEPTH as nat);
                vstd::arithmetic::power2::lemma_pow2_strictly_increases(MAX_DEPTH as nat, 62);
                vstd::bits::lemma_u64_pow2_no_overflow(62);
            }
            while i < n
                invariant
                    n == pow2(d as nat),
                    n <= pow2(62),
                    pow2(62) < u64::MAX,
                    i <= n,
                    elems@.len() == n + i,
                    forall|j: int| 0 <= j < elems@.len() ==> elems@[j] is None,
                decreases n - i,
            {
                elems.push(None);
                i = i + 1;
            }
            proof {
                lemma_pow2_unfold((d + 1) as nat);
            }
            d = d + 1;
        }
        proof {
            lemma_occupied_empty(elems@);
        }
        BucketPage { depth, size: 0, elems, contents: Ghost(Map::empty()) }
    }

    /// Index of the slot holding `key`, if any.
    fn find(&self, key: &K, hash_code: u64) -> (r: Option<usize>)
        requires
            self.wf(),
            hash_code == K::spec_hash(key@),
        ensures
            match r {
                Some(i) => self.slot_has(i as int, key@),
                None => !self.contents@.contains_key(key@),
            },
    {
        let mut i: usize = 0;
        while i < self.elems.len()
            invariant
                self.wf(),
                hash_code == K::spec_hash(key@),
                i <= self.elems@.len(),
                forall|j: int| 0 <= j < i ==> !self.slot_has(j, key@),
            decreases self.elems@.len() - i,
        {
            match &self.elems[i] {
                Some(n) => {
                    if n.hash_code == hash_code && n.key.key_eq(key) {
                        return Some(i);
                    }
                },
                None => {},
            }
            i = i + 1;
        }
        None
    }

    /// Index of an empty slot, if any.
    fn first_free(&self) -> (r: Option<usize>)
        requires
            self.wf(),
        ensures
            match r {
                Some(i) => i < self.elems@.len() && self.elems@[i as int] is None,
                None => self.size == self.capacity(),
            },
    {
        let mut i: usize = 0;
        while i < self.elems.len()
            invariant
                self.wf(),
                i <= self.elems@.len(),
                forall|j: int| 0 <= j < i ==> self.elems@[j] is Some,
            decreases self.elems@.len() - i,
        {
            if self.elems[i].is_none() {
                return Some(i);
            }
            i = i + 1;
        }
        proof {
            lemma_occupied_bound(self.elems@);
        }
        None
    }

    /// Every bucket holds at most its capacity.
    pub proof fn lemma_size_bound(&self)
        requires
            self.wf(),
        ensures
            self.size <= self.capacity(),
    {
        lemma_occupied_bound(self.elems@);
    }

    /// Whether every slot is taken.
    pub fn is_full(&self) -> (r: bool)
        requires
            self.wf(),
        ensures
            r == (self.size == self.capacity()),
    {
        self.size == self.elems.len()
    }

    /// Whether the bucket holds nothing.
    pub fn is_empty(&self) -> (r: bool)
        requires
            self.wf(),
        ensures
            r == (self.contents@.len() == 0),
    {
        self.size == 0
    }

    /// The value stored under `key`.
    pub fn get(&self, key: &K, hash_code: u64) -> (r: Option<&V>)
        requires
            self.wf(),
            hash_code == K::spec_hash(key@),
        ensures
            r is Some == self.contents@.contains_key(key@),
            r is Some ==> *r->0 == self.contents@[key@],
    {
        match self.find(key, hash_code) {
            Some(i) => {
                match &self.elems[i] {
                    Some(n) => Some(&n.value),
                    None => None,
                }
            },
            None => None,
        }
    }

    /// Whether `key` is stored.
    pub fn contain(&self, key: &K, hash_code: u64) -> (r: bool)
        requires
            self.wf(),
            hash_code == K::spec_hash(key@),
        ensures
            r == self.contents@.contains_key(key@),
    {
        self.find(key, hash_code).is_some()
    }

    /// Stores `value` under `key`: overwrites the entry of an equal key, else
    /// takes an empty slot. With neither, hands the three values back.
    pub fn put(&mut self, key: K, value: V, hash_code: u64) -> (r: Result<(), (K, V, u64)>)
        requires
            old(self).wf(),
            hash_code == K::spec_hash(key@),
        ensures
            final(self).wf(),
            final(self).depth == old(self).depth,
            r is Err <==> (!old(self).contents@.contains_key(key@) && old(self).size
                == old(self).capacity()),
            r is Ok ==> exists|i: int|
                #[trigger] old(self).put_slot(i, key@) && final(self).elems@ == old(self).elems@.update(
                    i,
                    Some((Node { key, value, hash_code })),
                ),
            match r {
                Ok(()) => {
                    &&& final(self).contents@ == old(self).contents@.insert(key@, value)
                    &&& final(self).size == old(self).size + (if old(self).contents@.contains_key(
                        key@,
                    ) {
                        0int
                    } else {
                        1int
                    })
                },
                Err((k, v, h)) => {
                    &&& k == key
                    &&& v == value
                    &&& h == hash_code
                    &&& final(self).contents@ == old(self).contents@
                    &&& final(self).size == old(self).size
                    &&& final(self).elems@ == old(self).elems@
                },
            },
    {
        let ghost k = key@;
        match self.find(&key, hash_code) {
            Some(i) => {
                proof {
                    lemma_occupied_update(self.elems@, i as int, Some(Node { key, value, hash_code }));
                }
                let ghost e0 = self.elems@;
                self.elems.set(i, Some(Node { key, value, hash_code }));
                self.contents = Ghost(self.contents@.insert(k, value));
                proof {
                    assert(old(self).slot_has(i as int, k));
                    assert(self.elems@ == e0.update(i as int, Some((Node { key, value, hash_code }))));
                    assert(old(self).put_slot(i as int, k));
                    let c0 = old(self).contents@;
                    assert forall|k2: K::V| #[trigger]
                        self.contents@.contains_key(k2) implies exists|j: int| self.slot_has(j, k2) by {
                        if k2 == k {
                            assert(self.slot_has(i as int, k2));
                        } else {
                            assert(c0.contains_key(k2));
                            let j = choose|j: int| old(self).slot_has(j, k2);
                            assert(self.slot_has(j, k2));
                        }
                    }
                    assert(c0.insert(k, value).dom() =~= c0.dom());
                }
                Ok(())
            },
            None => {
                match self.first_free() {
                    Some(i) => {
                        let cap = self.elems.len();
                        proof {
                            lemma_occupied_update(self.elems@, i as int, Some(Node { key, value, hash_code }));
                            lemma_occupied_bound(self.elems@.update(i as int, Some(Node { key, value, hash_code })));
                        }
                        let ghost e0 = self.elems@;
                        self.elems.set(i, Some(Node { key, value, hash_code }));
                        proof {
                            assert(self.elems@ == e0.update(i as int, Some((Node { key, value, hash_code }))));
                            assert(old(self).put_slot(i as int, k));
                        }
                        self.size = self.size + 1;
                        self.contents = Ghost(self.contents@.insert(k, value));
                        proof {
                            let c0 = old(self).contents@;
                            assert forall|k2: K::V| #[trigger]
                                self.contents@.contains_key(k2) implies exists|j: int| self.slot_has(j, k2) by {
                                if k2 == k {
                                    assert(self.slot_has(i as int, k2));
                                } else {
                                    assert(c0.contains_key(k2));
                                    let j = choose|j: int| old(self).slot_has(j, k2);
                                    assert(self.slot_has(j, k2));
                                }
                            }
                        }
                        Ok(())
                    },
                    None => Err((key, value, hash_code)),
                }
            },
        }
    }

    /// Removes the entry of `key` and returns it.
    pub fn del(&mut self, key: &K, hash_code: u64) -> (r: Option<Node<K, V>>)
        requires
            old(self).wf(),
            hash_code == K::spec_hash(key@),
        ensures
            final(self).wf(),
            final(self).depth == old(self).depth,
            r is Some == old(self).contents@.contains_key(key@),
            final(self).contents@ == old(self).contents@.remove(key@),
            final(self).size == old(self).size - (if r is Some {
                1int
            } else {
                0int
            }),
            r is Some ==> {
                &&& r->0.key@ == key@
                &&& r->0.value == old(self).contents@[key@]
                &&& r->0.hash_code == hash_code
                &&& exists|i: int|
                    0 <= i < old(self).elems@.len() && old(self).elems@[i] == r && final(self).elems@ == old(self).elems@.update(i, None)
            },
            r is None ==> final(self).elems@ == old(self).elems@,
    {
        match self.find(key, hash_code) {
            Some(i) => {
                proof {
                    lemma_occupied_update(self.elems@, i as int, None);
                }
                let ghost e0 = self.elems@;
                let taken = self.elems[i].take();
                proof {
                    assert(taken == e0[i as int]);
                    assert(self.elems@ == e0.update(i as int, None));
                }
                self.size = self.size - 1;
                self.contents = Ghost(self.contents@.remove(key@));
                proof {
                    let c0 = old(self).contents@;
                    assert forall|k2: K::V| #[trigger]
                        self.contents@.contains_key(k2) implies exists|j: int| self.slot_has(j, k2) by {
                        let j = choose|j: int| old(self).slot_has(j, k2);
                        assert(self.slot_has(j, k2));
                    }
                }
                taken
            },
            None => {
                proof {
                    assert(old(self).contents@.remove(key@) =~= old(self).contents@);
                }
                None
            },
        }
    }

    /// Empties the bucket.
    pub fn clear(&mut self)
        requires
            old(self).wf(),
        ensures
            final(self).wf(),
            final(self).depth == old(self).depth,
            final(self).size == 0,
            final(self).contents@ == Map::<K::V, V>::empty(),
    {
        let mut i: usize = 0;
        while i < self.elems.len()
            invariant
                self.depth == old(self).depth,
                self.depth <= MAX_DEPTH,
                self.elems@.len() == self.capacity(),
                i <= self.elems@.len(),
                forall|j: int| 0 <= j < i ==> self.elems@[j] is None,
            decreases self.elems@.len() - i,
        {
            self.elems.set(i, None);
            i = i + 1;
        }
        proof {
            lemma_occupied_empty(self.elems@);
        }
        self.size = 0;
        self.contents = Ghost(Map::empty());
    }

    /// Doubles the capacity: appends `2^depth` empty slots.
    pub fn grow(&mut self)
        requires
            old(self).wf(),
            old(self).depth < MAX_DEPTH,
        ensures
            final(self).wf(),
            final(self).depth == old(self).depth + 1,
            final(self).size == old(self).size,
            final(self).contents@ == old(self).contents@,
            final(self).elems@.subrange(0, old(self).elems@.len() as int) == old(self).elems@,
            forall|i: int|
                old(self).elems@.len() <= i < final(self).elems@.len() ==> final(self).elems@[i] is None,
    {
        let n = self.elems.len();
        let mut i: usize = 0;
        proof {
            vstd::arithmetic::power2::lemma_pow2_strictly_increases(self.depth as nat, 62);
            vstd::bits::lemma_u64_pow2_no_overflow(62);
        }
        while i < n
            invariant
                n == old(self).elems@.len(),
                n < pow2(62) < u64::MAX,
                i <= n,
                self.depth == old(self).depth,
                self.size == old(self).size,
                self.contents == old(self).contents,
                self.elems@.len() == n + i,
                occupied(self.elems@) == old(self).size,
                self.elems@.subrange(0, n as int) == old(self).elems@,
                forall|j: int| n <= j < self.elems@.len() ==> self.elems@[j] is None,
            decreases n - i,
        {
            proof {
                lemma_occupied_append_none(self.elems@);
            }
            self.elems.push(None);
            assert(self.elems@.subrange(0, n as int) =~= old(self).elems@);
            i = i + 1;
        }
        self.depth = self.depth + 1;
        proof {
            lemma_pow2_unfold(self.depth as nat);
            let s = self.elems@;
            let s0 = old(self).elems@;
            assert forall|j: int| 0 <= j < s0.len() implies s[j] == s0[j] by {
                assert(s.subrange(0, n as int)[j] == s[j]);
            }
            assert forall|k2: K::V| #[trigger]
                self.contents@.contains_key(k2) implies exists|j: int| self.slot_has(j, k2) by {
                let j = choose|j: int| old(self).slot_has(j, k2);
                assert(self.slot_has(j, k2));
            }
        }
    }

    /// Takes the entry out of occupied slot `i`.
    fn take_at(&mut self, i: usize) -> (r: Node<K, V>)
        requires
            old(self).wf(),
            i < old(self).elems@.len(),
            old(self).elems@[i as int] is Some,
        ensures
            final(self).wf(),
            final(self).depth == old(self).depth,
            r == old(self).elems@[i as int]->0,
            old(self).contents@.contains_key(r.key@),
            r.value == old(self).contents@[r.key@],
            r.hash_code == K::spec_hash(r.key@),
            final(self).contents@ == old(self).contents@.remove(r.key@),
            final(self).size == old(self).size - 1,
            final(self).elems@ == old(self).elems@.update(i as int, None),
    {
        proof {
            lemma_occupied_update(self.elems@, i as int, None);
        }
        let ghost k = self.elems@[i as int]->0.key@;
        let taken = self.elems[i].take();
        self.size = self.size - 1;
        self.contents = Ghost(self.contents@.remove(k));
        proof {
            assert forall|k2: K::V| #[trigger]
                self.contents@.contains_key(k2) implies exists|j: int| self.slot_has(j, k2) by {
                let j = choose|j: int| old(self).slot_has(j, k2);
                assert(self.slot_has(j, k2));
            }
        }
        taken.unwrap()
    }

    /// Moves every entry whose hash satisfies `hash & mask == target` into
    /// `other`; the rest stay.
    pub(crate) fn drain_into(&mut self, other: &mut Self, mask: u64, target: u64)
        requires
            old(self).wf(),
            old(other).wf(),
            old(self).contents@.dom().disjoint(old(other).contents@.dom()),
            old(self).size + old(other).size <= old(other).capacity(),
        ensures
            final(self).wf(),
            final(other).wf(),
            final(self).depth == old(self).depth,
            final(other).depth == old(other).depth,
            final(self).size + final(other).size == old(self).size + old(other).size,
            final(self).contents@ == selected::<K, V>(old(self).contents@, mask, target, false),
            final(other).contents@ == old(other).contents@.union_prefer_right(
                selected::<K, V>(old(self).contents@, mask, target, true),
            ),
    {
        let ghost s0 = old(self).contents@;
        let ghost o0 = old(other).contents@;
        let mut i: usize = 0;
        while i < self.elems.len()
            invariant
                self.wf(),
                other.wf(),
                self.depth == old(self).depth,
                other.depth == old(other).depth,
                i <= self.elems@.len(),
                forall|j: int|
                    0 <= j < i && #[trigger] self.elems@[j] is Some ==> !moves::<K>(
                        self.elems@[j]->0.key@,
                        mask,
                        target,
                    ),
                forall|k: K::V| #[trigger]
                    self.contents@.contains_key(k) ==> s0.contains_key(k) && self.contents@[k]
                        == s0[k],
                forall|k: K::V|
                    s0.contains_key(k) && !moves::<K>(k, mask, target) ==> #[trigger]
                        self.contents@.contains_key(k),
                forall|k: K::V| #[trigger]
                    other.contents@.contains_key(k) == (o0.contains_key(k) || (s0.contains_key(k)
                        && moves::<K>(k, mask, target) && !self.contents@.contains_key(k))),
                forall|k: K::V| #[trigger]
                    other.contents@.contains_key(k) ==> other.contents@[k] == (if o0.contains_key(
                        k,
                    ) {
                        o0[k]
                    } else {
                        s0[k]
                    }),
                forall|k: K::V| #[trigger]
                    o0.contains_key(k) ==> !s0.contains_key(k),
                self.size + other.size == old(self).size + old(other).size,
                old(self).size + old(other).size <= other.capacity(),
            decreases self.elems@.len() - i,
        {
            let hit = match &self.elems[i] {
                Some(n) => n.hash_code & mask == target,
                None => false,
            };
            if hit {
                let ghost e0 = self.elems@;
                let n = self.take_at(i);
                let ghost k = n.key@;
                let res = other.put(n.key, n.value, n.hash_code);
                match res {
                    Ok(()) => {},
                    Err(_) => {},
                }
                proof {
                    assert forall|j: int|
                        0 <= j < i + 1 && #[trigger] self.elems@[j] is Some implies !moves::<K>(
                        self.elems@[j]->0.key@,
                        mask,
                        target,
                    ) by {
                        assert(j != i);
                        assert(e0[j] == self.elems@[j]);
                    }
                }
            }
            i = i + 1;
        }
        proof {
            assert forall|k: K::V| #[trigger]
                self.contents@.contains_key(k) implies !moves::<K>(k, mask, target) by {
                let j = choose|j: int| self.slot_has(j, k);
                assert(self.elems@[j] is Some);
            }
            assert(self.contents@ =~= selected::<K, V>(s0, mask, target, false));
            assert(other.contents@ =~= o0.union_prefer_right(
                selected::<K, V>(s0, mask, target, true),
            ));
        }
    }

    /// Halves the capacity, packing the entries into the first slots.
    pub fn shrink(&mut self)
        requires
            old(self).wf(),
            old(self).depth > 0,
            old(self).size <= pow2((old(self).depth - 1) as nat),
        ensures
            final(self).wf(),
            final(self).depth == old(self).depth - 1,
            final(self).size == old(self).size,
            final(self).contents@ == old(self).contents@,
    {
        let mut fresh = BucketPage::new(self.depth - 1);
        self.drain_into(&mut fresh, 0, 0);
        proof {
            assert(forall|x: u64| #[trigger] (x & 0) == 0) by (bit_vector);
            assert(fresh.contents@ =~= old(self).contents@);
        }
        *self = fresh;
    }
}

/// Whether draining with `mask` and `target` moves the entry of key `k`.
pub open spec fn moves<K: HashKey>(k: K::V, mask: u64, target: u64) -> bool {
    K::spec_hash(k) & mask == target
}

/// The entries of `m` whose keys satisfy `moves` exactly when `sel` holds.
pub open spec fn selected<K: HashKey, V>(m: Map<K::V, V>, mask: u64, target: u64, sel: bool) -> Map<
    K::V,
    V,
> {
    Map::new(|k: K::V| m.contains_key(k) && moves::<K>(k, mask, target) == sel, |k: K::V| m[k])
}

/// Appending an empty slot keeps the occupied count.
pub proof fn lemma_occupied_append_none<T>(s: Seq<Option<T>>)
    ensures
        occupied(s.push(None)) == occupied(s),
{
    assert(s.push(None).drop_last() =~= s);
}

impl<K: HashKey, V> Default for BucketPage<K, V> {
    /// An empty bucket of depth `BUCKET_DEFAULT_INIT_DEPTH`.
    fn default() -> (r: Self)
        ensures
            r.wf(),
            r.depth == BUCKET_DEFAULT_INIT_DEPTH,
            r.size == 0,
            r.contents@ == Map::<K::V, V>::empty(),
    {
        Self::new(BUCKET_DEFAULT_INIT_DEPTH)
    }
}

} // verus!
