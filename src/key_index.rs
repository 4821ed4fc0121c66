//! A hash index over a list of string keys: finds the last position that
//! holds a key without scanning the whole list.

use vstd::prelude::*;
use vstd::utf8::encode_utf8;

verus! {

/// Number of hash buckets.
pub const BUCKETS: usize = 65536;

/// Hash of a byte sequence, below `BUCKETS`.
pub open spec fn hash_bytes(b: Seq<u8>) -> nat
    decreases b.len(),
{
    if b.len() == 0 {
        0
    } else {
        (hash_bytes(b.drop_last()) * 31 + b.last() as nat) % (BUCKETS as nat)
    }
}

/// Hash of a key, through its UTF-8 bytes.
pub open spec fn key_hash(k: Seq<char>) -> nat {
    hash_bytes(encode_utf8(k))
}

/// The views of a list of keys.
pub open spec fn key_views(keys: Seq<String>) -> Seq<Seq<char>> {
    keys.map_values(|s: String| s@)
}

fn hash_of(k: &str) -> (h: usize)
    ensures
        h == key_hash(k@),
        h < BUCKETS,
{
    let bytes = k.as_bytes();
    let mut h: u64 = 0;
    let mut i: usize = 0;
    while i < bytes.len()
        invariant
            i <= bytes@.len(),
            bytes@ == encode_utf8(k@),
            h as nat == hash_bytes(bytes@.take(i as int)),
            h < BUCKETS,
        decreases bytes@.len() - i,
    {
        assert(bytes@.take(i + 1).drop_last() =~= bytes@.take(i as int));
        h = (h * 31 + bytes[i] as u64) % (BUCKETS as u64);
        i = i + 1;
    }
    assert(bytes@.take(i as int) =~= bytes@);
    h as usize
}

/// Buckets of positions into a list of keys, each bucket in increasing order.
pub struct KeyIndex {
    buckets: Vec<Vec<usize>>,
    slot: Ghost<Seq<int>>,
}

impl KeyIndex {
    /// The index covers exactly the positions of `keys`, each in the bucket
    /// of its key's hash.
    pub closed spec fn wf(&self, keys: Seq<Seq<char>>) -> bool {
        &&& self.buckets@.len() == BUCKETS
        &&& self.slot@.len() == keys.len()
        &&& forall|b: int, j: int| 0 <= b < BUCKETS && 0 <= j < self.buckets@[b]@.len() ==> {
            &&& (#[trigger] self.buckets@[b]@[j]) < keys.len()
            &&& key_hash(keys[self.buckets@[b]@[j] as int]) == b
        }
        &&& forall|b: int, j1: int, j2: int| 0 <= b < BUCKETS && 0 <= j1 < j2 < self.buckets@[b]@.len()
            ==> #[trigger] self.buckets@[b]@[j1] < #[trigger] self.buckets@[b]@[j2]
        &&& forall|i: int| 0 <= i < keys.len() ==> {
            let b = key_hash(keys[i]) as int;
            &&& 0 <= #[trigger] self.slot@[i] < self.buckets@[b]@.len()
            &&& self.buckets@[b]@[self.slot@[i]] == i
        }
    }

    /// Indexes every position of `keys`.
    pub fn build(keys: &Vec<String>) -> (r: KeyIndex)
        ensures
            r.wf(key_views(keys@)),
    {
        let mut buckets: Vec<Vec<usize>> = Vec::new();
        let mut b: usize = 0;
        while b < BUCKETS
            invariant
                b <= BUCKETS,
                buckets@.len() == b,
                forall|x: int| 0 <= x < b ==> (#[trigger] buckets@[x])@.len() == 0,
            decreases BUCKETS - b,
        {
            buckets.push(Vec::new());
            b = b + 1;
        }
        let ghost mut slot: Seq<int> = Seq::empty();
        let ghost kv = key_views(keys@);
        let mut i: usize = 0;
        while i < keys.len()
            invariant
                i <= keys@.len(),
                kv == key_views(keys@),
                buckets@.len() == BUCKETS,
                slot.len() == i,
                forall|b: int, j: int| 0 <= b < BUCKETS && 0 <= j < buckets@[b]@.len() ==> {
                    &&& (#[trigger] buckets@[b]@[j]) < i
                    &&& key_hash(kv[buckets@[b]@[j] as int]) == b
                },
                forall|b: int, j1: int, j2: int| 0 <= b < BUCKETS && 0 <= j1 < j2 < buckets@[b]@.len()
                    ==> #[trigger] buckets@[b]@[j1] < #[trigger] buckets@[b]@[j2],
                forall|x: int| 0 <= x < i ==> {
                    let b = key_hash(kv[x]) as int;
                    &&& 0 <= #[trigger] slot[x] < buckets@[b]@.len()
                    &&& buckets@[b]@[slot[x]] == x
                },
            decreases keys@.len() - i,
        {
            let h = hash_of(keys[i].as_str());
            assert(kv[i as int] == keys@[i as int]@);
            let ghost before = buckets@;
            buckets[h].push(i);
            proof {
                slot = slot.push(before[h as int]@.len() as int);
            }
            assert forall|b: int, j: int| 0 <= b < BUCKETS && 0 <= j < buckets@[b]@.len() implies {
                &&& (#[trigger] buckets@[b]@[j]) < i + 1
                &&& key_hash(kv[buckets@[b]@[j] as int]) == b
            } by {
                if b != h as int || j < before[b]@.len() {
                    assert(buckets@[b]@[j] == before[b]@[j]);
                }
            }
            assert forall|b: int, j1: int, j2: int| 0 <= b < BUCKETS && 0 <= j1 < j2 < buckets@[b]@.len()
                implies #[trigger] buckets@[b]@[j1] < #[trigger] buckets@[b]@[j2] by {
                if b == h as int && j2 == before[b]@.len() {
                    assert(buckets@[b]@[j1] == before[b]@[j1]);
                } else {
                    assert(buckets@[b]@[j1] == before[b]@[j1]);
                    assert(buckets@[b]@[j2] == before[b]@[j2]);
                }
            }
            assert forall|x: int| 0 <= x < i + 1 implies {
                let b = key_hash(kv[x]) as int;
                &&& 0 <= #[trigger] slot[x] < buckets@[b]@.len()
                &&& buckets@[b]@[slot[x]] == x
            } by {
                let b = key_hash(kv[x]) as int;
                if x < i {
                    assert(buckets@[b]@[slot[x]] == before[b]@[slot[x]]);
                }
            }
            i = i + 1;
        }
        KeyIndex { buckets, slot: Ghost(slot) }
    }

    /// Indexes one more key, appended to `keys`.
    pub fn insert(&mut self, keys: &mut Vec<String>, k: String)
        requires
            old(self).wf(key_views(old(keys)@)),
        ensures
            final(keys)@ == old(keys)@.push(k),
            final(self).wf(key_views(final(keys)@)),
    {
        let ghost kv0 = key_views(keys@);
        let h = hash_of(k.as_str());
        let i = keys.len();
        let ghost before = self.buckets@;
        self.buckets[h].push(i);
        keys.push(k);
        let ghost kv = key_views(keys@);
        assert(kv =~= kv0.push(k@));
        proof {
            self.slot@ = self.slot@.push(before[h as int]@.len() as int);
        }
        assert forall|b: int, j: int| 0 <= b < BUCKETS && 0 <= j < self.buckets@[b]@.len() implies {
            &&& (#[trigger] self.buckets@[b]@[j]) < kv.len()
            &&& key_hash(kv[self.buckets@[b]@[j] as int]) == b
        } by {
            if b != h as int || j < before[b]@.len() {
                assert(self.buckets@[b]@[j] == before[b]@[j]);
            }
        }
        assert forall|b: int, j1: int, j2: int| 0 <= b < BUCKETS && 0 <= j1 < j2 < self.buckets@[b]@.len()
            implies #[trigger] self.buckets@[b]@[j1] < #[trigger] self.buckets@[b]@[j2] by {
            assert(self.buckets@[b]@[j1] == before[b]@[j1]);
            if !(b == h as int && j2 == before[b]@.len()) {
                assert(self.buckets@[b]@[j2] == before[b]@[j2]);
            }
        }
        assert forall|x: int| 0 <= x < kv.len() implies {
            let b = key_hash(kv[x]) as int;
            &&& 0 <= #[trigger] self.slot@[x] < self.buckets@[b]@.len()
            &&& self.buckets@[b]@[self.slot@[x]] == x
        } by {
            let b = key_hash(kv[x]) as int;
            if x < i {
                assert(kv[x] == kv0[x]);
                assert(self.buckets@[b]@[self.slot@[x]] == before[b]@[self.slot@[x]]);
            }
        }
    }

    /// The last position of `keys` that holds `k`, if any.
    pub fn find_last(&self, keys: &Vec<String>, k: &String) -> (r: Option<usize>)
        requires
            self.wf(key_views(keys@)),
        ensures
            match r {
                Some(i) => i < keys@.len() && keys@[i as int]@ == k@
                    && forall|j: int| i < j < keys@.len() ==> #[trigger] keys@[j]@ != k@,
                None => forall|j: int| 0 <= j < keys@.len() ==> #[trigger] keys@[j]@ != k@,
            },
    {
        let ghost kv = key_views(keys@);
        let h = hash_of(k.as_str());
        let bucket = &self.buckets[h];
        let mut j = bucket.len();
        while j > 0
            invariant
                j <= bucket@.len(),
                *bucket == self.buckets@[h as int],
                h == key_hash(k@),
                h < BUCKETS,
                kv == key_views(keys@),
                self.wf(kv),
                forall|x: int| j <= x < bucket@.len() ==> keys@[#[trigger] bucket@[x] as int]@ != k@,
            decreases j,
        {
            j = j - 1;
            let i = bucket[j];
            assert(i < keys@.len());
            if keys[i] == *k {
                assert forall|x: int| i < x < keys@.len() implies #[trigger] keys@[x]@ != k@ by {
                    if keys@[x]@ == k@ {
                        assert(kv[x] == keys@[x]@);
                        let s = self.slot@[x];
                        assert(bucket@[s] == x);
                        if s <= j {
                            if s < j {
                                assert(bucket@[s] < bucket@[j as int]);
                            }
                        }
                    }
                }
                return Some(i);
            }
        }
        assert forall|x: int| 0 <= x < keys@.len() implies #[trigger] keys@[x]@ != k@ by {
            if keys@[x]@ == k@ {
                assert(kv[x] == keys@[x]@);
                let s = self.slot@[x];
                assert(bucket@[s] == x);
            }
        }
        None
    }
}

} // verus!
