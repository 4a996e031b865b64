//! A map keyed by content addresses.
//!
//! An address is a digest, so its first bytes already spread as a hash would:
//! they pick a bucket, and the bucket is searched.
use crate::codec::{get_u64, u64_of};
use crate::text::bytes_eq;
use std::collections::HashMap;
use vstd::prelude::*;
use vstd::std_specs::hash::group_hash_axioms;

verus! {

broadcast use group_hash_axioms;

/// A map from addresses to values.
pub struct DigestMap<V> {
    buckets: HashMap<u64, Vec<([u8; 32], V)>>,
}

/// Where an address first stands in a bucket.
spec fn place<V>(bucket: Seq<([u8; 32], V)>, key: Seq<u8>) -> Option<int>
    decreases bucket.len(),
{
    if bucket.len() == 0 {
        None
    } else if bucket.last().0@ == key {
        Some(bucket.len() - 1)
    } else {
        place(bucket.drop_last(), key)
    }
}

/// No address stands twice in a bucket.
spec fn distinct<V>(bucket: Seq<([u8; 32], V)>) -> bool {
    forall|i: int, j: int|
        0 <= i < j < bucket.len() ==> (#[trigger] bucket[i]).0@ != (#[trigger] bucket[j]).0@
}

proof fn lemma_place<V>(bucket: Seq<([u8; 32], V)>, key: Seq<u8>)
    ensures
        match place(bucket, key) {
            Some(i) => 0 <= i < bucket.len() && bucket[i].0@ == key,
            None => forall|i: int| 0 <= i < bucket.len() ==> (#[trigger] bucket[i]).0@ != key,
        },
    decreases bucket.len(),
{
    if bucket.len() > 0 && bucket.last().0@ != key {
        lemma_place(bucket.drop_last(), key);
        assert forall|i: int|
            place(bucket, key) is None && 0 <= i < bucket.len() implies (#[trigger] bucket[i]).0@
            != key by {
            if i < bucket.len() - 1 {
                assert(bucket.drop_last()[i] == bucket[i]);
            }
        }
    }
}

impl<V> DigestMap<V> {
    spec fn bucket(&self, key: Seq<u8>) -> Seq<([u8; 32], V)> {
        if self.buckets@.contains_key(u64_of(key)) {
            self.buckets@[u64_of(key)]@
        } else {
            Seq::empty()
        }
    }

    spec fn lookup(&self, key: Seq<u8>) -> Option<V> {
        match place(self.bucket(key), key) {
            Some(i) => Some(self.bucket(key)[i].1),
            None => None,
        }
    }

    /// No bucket holds an address twice.
    pub closed spec fn wf(&self) -> bool {
        forall|k: u64| #[trigger] self.buckets@.contains_key(k) ==> distinct(self.buckets@[k]@)
    }
}

impl<V> View for DigestMap<V> {
    type V = Map<Seq<u8>, V>;

    closed spec fn view(&self) -> Map<Seq<u8>, V> {
        Map::new(|key: Seq<u8>| self.lookup(key) is Some, |key: Seq<u8>| self.lookup(key)->Some_0)
    }
}

fn find_in<V>(bucket: &Vec<([u8; 32], V)>, key: &[u8; 32]) -> (at: Option<usize>)
    requires
        distinct(bucket@),
    ensures
        match place(bucket@, key@) {
            Some(i) => at is Some && at->Some_0 == i,
            None => at is None,
        },
        at matches Some(i) ==> i < bucket@.len() && bucket@[i as int].0@ == key@,
{
    proof {
        lemma_place(bucket@, key@);
    }
    let mut i: usize = 0;
    while i < bucket.len()
        invariant
            0 <= i <= bucket@.len(),
            distinct(bucket@),
            forall|j: int| 0 <= j < i ==> (#[trigger] bucket@[j]).0@ != key@,
            match place(bucket@, key@) {
                Some(p) => 0 <= p < bucket@.len() && bucket@[p].0@ == key@,
                None => forall|j: int|
                    0 <= j < bucket@.len() ==> (#[trigger] bucket@[j]).0@ != key@,
            },
        decreases bucket@.len() - i,
    {
        if bytes_eq(bucket[i].0.as_slice(), key.as_slice()) {
            return Some(i);
        }
        i += 1;
    }
    None
}

impl<V: Copy> DigestMap<V> {
    pub fn new() -> (out: Self)
        ensures
            out.wf(),
            out@ == Map::<Seq<u8>, V>::empty(),
    {
        let out = DigestMap { buckets: HashMap::new() };
        assert(out@ =~= Map::<Seq<u8>, V>::empty());
        out
    }

    /// The value at an address.
    pub fn get(&self, key: &[u8; 32]) -> (value: Option<V>)
        requires
            self.wf(),
        ensures
            value == (if self@.contains_key(key@) {
                Some(self@[key@])
            } else {
                None
            }),
    {
        let k: u64 = get_u64(key.as_slice());
        match self.buckets.get(&k) {
            None => None,
            Some(bucket) => match find_in(bucket, key) {
                None => None,
                Some(i) => Some(bucket[i].1),
            },
        }
    }

    pub fn contains(&self, key: &[u8; 32]) -> (has: bool)
        requires
            self.wf(),
        ensures
            has == self@.contains_key(key@),
    {
        self.get(key).is_some()
    }

    /// Sets the value at an address.
    pub fn insert(&mut self, key: &[u8; 32], value: V)
        requires
            old(self).wf(),
        ensures
            final(self).wf(),
            final(self)@ == old(self)@.insert(key@, value),
    {
        let k: u64 = get_u64(key.as_slice());
        let ghost before = *self;
        let mut bucket = match self.buckets.remove(&k) {
            Some(bucket) => bucket,
            None => Vec::new(),
        };
        let ghost was = bucket@;
        assert(was == before.bucket(key@));
        match find_in(&bucket, key) {
            Some(i) => {
                bucket.set(i, (*key, value));
            },
            None => {
                bucket.push((*key, value));
            },
        }
        let ghost now = bucket@;
        proof {
            lemma_place(was, key@);
            match place(was, key@) {
                Some(i) => {
                    assert(now =~= was.update(i, (*key, value)));
                    lemma_updated(was, i, (*key, value));
                },
                None => {
                    assert(now =~= was.push((*key, value)));
                    lemma_pushed(was, (*key, value));
                },
            }
        }
        self.buckets.insert(k, bucket);
        proof {
            assert forall|other: Seq<u8>| #[trigger]
                self.lookup(other) == (if other == key@ {
                    Some(value)
                } else {
                    before.lookup(other)
                }) by {
                if u64_of(other) == k {
                    lemma_same_but(was, now, key@, other);
                    lemma_place(now, other);
                    assert(self.bucket(other) == now);
                    assert(before.bucket(other) == was);
                } else {
                    assert(self.bucket(other) == before.bucket(other));
                }
            }
            assert(self@ =~= before@.insert(key@, value));
        }
    }

    /// Takes an address out.
    pub fn remove(&mut self, key: &[u8; 32])
        requires
            old(self).wf(),
        ensures
            final(self).wf(),
            final(self)@ == old(self)@.remove(key@),
    {
        let k: u64 = get_u64(key.as_slice());
        let ghost before = *self;
        let mut bucket = match self.buckets.remove(&k) {
            Some(bucket) => bucket,
            None => {
                proof {
                    assert(self.buckets@ =~= before.buckets@);
                    assert(before.bucket(key@) == Seq::<([u8; 32], V)>::empty());
                    assert(before.lookup(key@) is None);
                    assert(self@ =~= before@.remove(key@));
                }
                return ;
            },
        };
        let ghost was = bucket@;
        match find_in(&bucket, key) {
            Some(i) => {
                bucket.remove(i);
            },
            None => {},
        }
        let ghost now = bucket@;
        proof {
            lemma_place(was, key@);
            match place(was, key@) {
                Some(i) => {
                    assert(now =~= was.remove(i));
                    lemma_removed(was, i);
                },
                None => {},
            }
            lemma_place(now, key@);
        }
        self.buckets.insert(k, bucket);
        proof {
            assert forall|other: Seq<u8>| #[trigger]
                self.lookup(other) == (if other == key@ {
                    None
                } else {
                    before.lookup(other)
                }) by {
                if u64_of(other) == k {
                    lemma_same_but(was, now, key@, other);
                    assert(self.bucket(other) == now);
                    assert(before.bucket(other) == was);
                } else {
                    assert(self.bucket(other) == before.bucket(other));
                }
            }
            assert(self@ =~= before@.remove(key@));
        }
    }
}

proof fn lemma_updated<V>(a: Seq<([u8; 32], V)>, i: int, entry: ([u8; 32], V))
    requires
        distinct(a),
        0 <= i < a.len(),
        a[i].0@ == entry.0@,
    ensures
        distinct(a.update(i, entry)),
        a.update(i, entry)[i] == entry,
        forall|e: ([u8; 32], V)|
            e.0@ != entry.0@ ==> (#[trigger] a.contains(e) <==> a.update(i, entry).contains(e)),
{
    let b = a.update(i, entry);
    assert forall|e: ([u8; 32], V)| e.0@ != entry.0@ implies (#[trigger] a.contains(e)
        <==> b.contains(e)) by {
        if a.contains(e) {
            let j = choose|j: int| 0 <= j < a.len() && a[j] == e;
            assert(b[j] == e);
        }
        if b.contains(e) {
            let j = choose|j: int| 0 <= j < b.len() && b[j] == e;
            assert(a[j] == e);
        }
    }
}

proof fn lemma_pushed<V>(a: Seq<([u8; 32], V)>, entry: ([u8; 32], V))
    requires
        distinct(a),
        forall|i: int| 0 <= i < a.len() ==> (#[trigger] a[i]).0@ != entry.0@,
    ensures
        distinct(a.push(entry)),
        a.push(entry).last() == entry,
        forall|e: ([u8; 32], V)|
            e.0@ != entry.0@ ==> (#[trigger] a.contains(e) <==> a.push(entry).contains(e)),
{
    let b = a.push(entry);
    assert forall|e: ([u8; 32], V)| e.0@ != entry.0@ implies (#[trigger] a.contains(e)
        <==> b.contains(e)) by {
        if a.contains(e) {
            let j = choose|j: int| 0 <= j < a.len() && a[j] == e;
            assert(b[j] == e);
        }
        if b.contains(e) {
            let j = choose|j: int| 0 <= j < b.len() && b[j] == e;
            assert(a[j] == e);
        }
    }
}

proof fn lemma_removed<V>(a: Seq<([u8; 32], V)>, i: int)
    requires
        distinct(a),
        0 <= i < a.len(),
    ensures
        distinct(a.remove(i)),
        forall|j: int| 0 <= j < a.remove(i).len() ==> (#[trigger] a.remove(i)[j]).0@ != a[i].0@,
        forall|e: ([u8; 32], V)|
            e.0@ != a[i].0@ ==> (#[trigger] a.contains(e) <==> a.remove(i).contains(e)),
{
    let b = a.remove(i);
    assert forall|e: ([u8; 32], V)| e.0@ != a[i].0@ implies (#[trigger] a.contains(e)
        <==> b.contains(e)) by {
        if a.contains(e) {
            let j = choose|j: int| 0 <= j < a.len() && a[j] == e;
            if j < i {
                assert(b[j] == e);
            } else {
                assert(b[j - 1] == e);
            }
        }
        if b.contains(e) {
            let j = choose|j: int| 0 <= j < b.len() && b[j] == e;
            if j < i {
                assert(a[j] == e);
            } else {
                assert(a[j + 1] == e);
            }
        }
    }
}

/// Two buckets without duplicates that agree but for one address find the same
/// value at any other.
proof fn lemma_same_but<V>(
    a: Seq<([u8; 32], V)>,
    b: Seq<([u8; 32], V)>,
    key: Seq<u8>,
    other: Seq<u8>,
)
    requires
        distinct(a),
        distinct(b),
        forall|e: ([u8; 32], V)| e.0@ != key ==> (#[trigger] a.contains(e) <==> b.contains(e)),
    ensures
        other != key ==> (place(a, other) is Some <==> place(b, other) is Some) && (place(
            a,
            other,
        ) is Some ==> a[place(a, other)->Some_0].1 == b[place(b, other)->Some_0].1),
{
    lemma_place(a, other);
    lemma_place(b, other);
    if other != key {
        if place(a, other) is Some {
            let e = a[place(a, other)->Some_0];
            assert(a.contains(e));
            assert(b.contains(e));
            let j = choose|j: int| 0 <= j < b.len() && b[j] == e;
            assert(b[j].0@ == other);
        }
        if place(b, other) is Some {
            let e = b[place(b, other)->Some_0];
            assert(b.contains(e));
            assert(a.contains(e));
            let j = choose|j: int| 0 <= j < a.len() && a[j] == e;
            assert(a[j].0@ == other);
        }
    }
}

} // verus!
