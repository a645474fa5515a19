//! A string-keyed index from names to positions, as the Wikispeedia reader
//! builds it while reading the article list.

use vstd::prelude::*;
use vstd::utf8::*;

use crate::text::{lemma_encode_injective, str_eq};

verus! {

/// Modulus of the name hash.
pub const HASH_MODULUS: u64 = 1_000_000_007;

/// Number of buckets of a `NameIndex`.
pub const N_BUCKETS: usize = 4096;

/// Polynomial hash of a byte string, modulo `HASH_MODULUS`.
pub open spec fn name_hash(b: Seq<u8>) -> nat
    decreases b.len(),
{
    if b.len() == 0 {
        0
    } else {
        ((name_hash(b.drop_last()) * 31 + b.last()) % (HASH_MODULUS as int)) as nat
    }
}

/// The bucket that holds a name.
pub open spec fn bucket_of(k: Seq<char>) -> int {
    name_hash(encode_utf8(k)) as int % (N_BUCKETS as int)
}

/// Bucket of the string `s`.
fn bucket_exec(s: &str) -> (b: usize)
    ensures
        b == bucket_of(s@),
        b < N_BUCKETS,
{
    let bytes = s.as_bytes();
    let mut h: u64 = 0;
    let mut i: usize = 0;
    while i < bytes.len()
        invariant
            i <= bytes@.len(),
            h as nat == name_hash(bytes@.subrange(0, i as int)),
            h < HASH_MODULUS,
        decreases bytes@.len() - i,
    {
        proof {
            assert(bytes@.subrange(0, (i + 1) as int).drop_last() =~= bytes@.subrange(0, i as int));
        }
        h = (h * 31 + bytes[i] as u64) % HASH_MODULUS;
        i = i + 1;
    }
    proof {
        assert(bytes@.subrange(0, bytes@.len() as int) =~= bytes@);
    }
    (h % (N_BUCKETS as u64)) as usize
}

/// Map from names to positions with the semantics of a `HashMap` into which
/// the pairs are inserted in turn: a later insertion of a name replaces the
/// position it had.
#[derive(Clone)]
pub struct NameIndex {
    keys: Vec<String>,
    values: Vec<usize>,
    buckets: Vec<Vec<usize>>,
    map: Ghost<Map<Seq<char>, usize>>,
}

impl View for NameIndex {
    type V = Map<Seq<char>, usize>;

    closed spec fn view(&self) -> Map<Seq<char>, usize> {
        self.map@
    }
}

impl NameIndex {
    /// Internal consistency of the index.
    pub closed spec fn wf(&self) -> bool {
        &&& self.keys@.len() == self.values@.len()
        &&& self.buckets@.len() == N_BUCKETS
        &&& forall|i: int, j: int|
            0 <= i < j < self.keys@.len() ==> self.keys@[i]@ != self.keys@[j]@
        &&& forall|k: Seq<char>|
            #![trigger self.map@.contains_key(k)]
            self.map@.contains_key(k) <==> exists|i: int|
                0 <= i < self.keys@.len() && self.keys@[i]@ == k
        &&& forall|i: int|
            0 <= i < self.keys@.len() ==> #[trigger] self.map@[self.keys@[i]@] == self.values@[i]
        &&& forall|b: int, j: int|
            0 <= b < N_BUCKETS && 0 <= j < self.buckets@[b]@.len() ==> {
                &&& 0 <= #[trigger] self.buckets@[b]@[j] < self.keys@.len()
                &&& bucket_of(self.keys@[self.buckets@[b]@[j] as int]@) == b
            }
        &&& forall|i: int|
            0 <= i < self.keys@.len() ==> #[trigger] self.buckets@[bucket_of(
                self.keys@[i]@,
            )]@.contains(i as usize)
    }

    /// The empty index.
    pub fn new() -> (r: Self)
        ensures
            r.wf(),
            r@ == Map::<Seq<char>, usize>::empty(),
    {
        let mut buckets: Vec<Vec<usize>> = Vec::new();
        let mut i: usize = 0;
        while i < N_BUCKETS
            invariant
                i <= N_BUCKETS,
                buckets@.len() == i,
                forall|b: int| 0 <= b < i ==> (#[trigger] buckets@[b])@.len() == 0,
            decreases N_BUCKETS - i,
        {
            buckets.push(Vec::new());
            i = i + 1;
        }
        NameIndex {
            keys: Vec::new(),
            values: Vec::new(),
            buckets,
            map: Ghost(Map::empty()),
        }
    }

    /// Position of `name` in `keys`, if it is there.
    fn find(&self, name: &str) -> (r: Option<usize>)
        requires
            self.wf(),
        ensures
            match r {
                Some(i) => i < self.keys@.len() && self.keys@[i as int]@ == name@,
                None => !self@.contains_key(name@),
            },
    {
        let b = bucket_exec(name);
        let bucket = &self.buckets[b];
        let mut j: usize = 0;
        while j < bucket.len()
            invariant
                self.wf(),
                b == bucket_of(name@),
                bucket == &self.buckets@[b as int],
                j <= bucket@.len(),
                forall|t: int| 0 <= t < j ==> self.keys@[bucket@[t] as int]@ != name@,
            decreases bucket@.len() - j,
        {
            let i = bucket[j];
            assert(0 <= bucket@[j as int] < self.keys@.len());
            if str_eq(self.keys[i].as_str(), name) {
                return Some(i);
            }
            j = j + 1;
        }
        proof {
            if self@.contains_key(name@) {
                assert(self.map@.contains_key(name@));
                assert(exists|i: int| 0 <= i < self.keys@.len() && self.keys@[i]@ == name@);
                let i = choose|i: int| 0 <= i < self.keys@.len() && self.keys@[i]@ == name@;
                assert(self.buckets@[bucket_of(self.keys@[i]@)]@.contains(i as usize));
                assert(bucket_of(self.keys@[i]@) == b as int);
                assert(self.keys@.len() == self.keys.len());
                assert forall|t: int| 0 <= t < bucket@.len() implies bucket@[t] != i as usize by {
                    assert(self.keys@[bucket@[t] as int]@ != name@);
                }
                assert(bucket@.contains(i as usize));
            }
        }
        None
    }

    /// The position recorded for `name`.
    pub fn get(&self, name: &str) -> (r: Option<usize>)
        requires
            self.wf(),
        ensures
            r == (if self@.contains_key(name@) {
                Some(self@[name@])
            } else {
                None::<usize>
            }),
    {
        match self.find(name) {
            Some(i) => Some(self.values[i]),
            None => None,
        }
    }

    /// Records `value` for `name`, replacing what was recorded before.
    pub fn insert(&mut self, name: String, value: usize)
        requires
            old(self).wf(),
        ensures
            final(self).wf(),
            final(self)@ == old(self)@.insert(name@, value),
    {
        match self.find(name.as_str()) {
            Some(i) => {
                self.values.set(i, value);
                self.map = Ghost(self.map@.insert(name@, value));
                assert forall|k: Seq<char>| #![trigger self.map@.contains_key(k)]
                    self.map@.contains_key(k) <==> exists|t: int|
                        0 <= t < self.keys@.len() && self.keys@[t]@ == k by {
                    if k == name@ {
                        assert(self.keys@[i as int]@ == k);
                    }
                }
            },
            None => {
                let b = bucket_exec(name.as_str());
                let n = self.keys.len();
                let ghost old_keys = self.keys@;
                let ghost old_buckets = self.buckets@;
                self.keys.push(name);
                self.values.push(value);
                let mut bucket = Vec::new();
                std::mem::swap(&mut bucket, &mut self.buckets[b]);
                bucket.push(n);
                std::mem::swap(&mut bucket, &mut self.buckets[b]);
                self.map = Ghost(self.map@.insert(self.keys@[n as int]@, value));
                assert forall|k: Seq<char>| #![trigger self.map@.contains_key(k)]
                    self.map@.contains_key(k) <==> exists|t: int|
                        0 <= t < self.keys@.len() && self.keys@[t]@ == k by {
                    if self.map@.contains_key(k) && k != self.keys@[n as int]@ {
                        let t = choose|t: int| 0 <= t < old_keys.len() && old_keys[t]@ == k;
                        assert(self.keys@[t]@ == k);
                    }
                    if k == self.keys@[n as int]@ {
                        assert(self.keys@[n as int]@ == k);
                    }
                }
                assert forall|b2: int, j: int|
                    0 <= b2 < N_BUCKETS && 0 <= j < self.buckets@[b2]@.len() implies {
                        &&& 0 <= #[trigger] self.buckets@[b2]@[j] < self.keys@.len()
                        &&& bucket_of(self.keys@[self.buckets@[b2]@[j] as int]@) == b2
                    } by {
                    if b2 == b && j == old_buckets[b2]@.len() {
                    } else {
                        assert(self.buckets@[b2]@[j] == old_buckets[b2]@[j]);
                    }
                }
                assert forall|i: int|
                    0 <= i < self.keys@.len() implies #[trigger] self.buckets@[bucket_of(
                        self.keys@[i]@,
                    )]@.contains(i as usize) by {
                    if i < n {
                        let bi = bucket_of(self.keys@[i]@);
                        assert(old_buckets[bi]@.contains(i as usize));
                        let t = choose|t: int| 0 <= t < old_buckets[bi]@.len() && old_buckets[bi]@[t] == i as usize;
                        assert(self.buckets@[bi]@[t] == i as usize);
                    } else {
                        assert(self.buckets@[b as int]@[old_buckets[b as int]@.len() as int] == n);
                    }
                }
            },
        }
    }
}

} // verus!
