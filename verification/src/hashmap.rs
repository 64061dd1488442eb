//! A separately chained hash table.
//!
//! Keys are abstracted by [`HashKey`]: every key names its identity as a byte
//! sequence, and supplies an equality test and a hash that are functions of
//! that identity alone. The table's mathematical value is the map from key
//! identities to values; every entry sits in the bucket its hash selects, and
//! no identity appears twice.

use vstd::prelude::*;
use vstd::string::StringSliceAdditionalSpecFns;

verus! {

/// The hash of a byte sequence: a 32-bit-bounded polynomial rolling hash,
/// fixed here so that placement is a pure function of the key's identity.
pub open spec fn hash_of(id: Seq<u8>) -> u64
    decreases id.len(),
{
    if id.len() == 0 {
        2166136261u64
    } else {
        (((hash_of(id.drop_last()) * 31) + id.last()) % 0x1_0000_0000) as u64
    }
}

pub proof fn lemma_hash_bounded(id: Seq<u8>)
    ensures
        hash_of(id) < 0x1_0000_0000,
{
}

/// The bucket that identity `id` selects in a table of `n` buckets.
pub open spec fn bucket_of(id: Seq<u8>, n: int) -> int {
    hash_of(id) as int % n
}

/// A key usable in the table: it exposes its identity as bytes, and its
/// executable equality and hash agree with that identity.
pub trait HashKey: Sized {
    /// The key's identity; two keys with the same identity are one key to
    /// the table.
    spec fn key_id(&self) -> Seq<u8>;

    /// Hashes exactly the identity.
    fn key_hash(&self) -> (h: u64)
        ensures
            h == hash_of(self.key_id()),
    ;

    /// Decides identity equality.
    fn key_same(&self, other: &Self) -> (r: bool)
        ensures
            r == (self.key_id() == other.key_id()),
    ;
}

/// Hashes a byte slice with the table's fixed hash.
pub fn hash_bytes(b: &[u8]) -> (h: u64)
    ensures
        h == hash_of(b@),
{
    let mut h: u64 = 2166136261;
    let mut i: usize = 0;
    proof {
        assert(b@.take(0) =~= Seq::<u8>::empty());
    }
    while i < b.len()
        invariant
            i <= b@.len(),
            h == hash_of(b@.take(i as int)),
        decreases b@.len() - i,
    {
        proof {
            lemma_hash_bounded(b@.take(i as int));
            assert(b@.take(i + 1).drop_last() =~= b@.take(i as int));
            assert(b@.take(i + 1).last() == b@[i as int]);
        }
        h = (h * 31 + (b[i] as u64)) % 0x1_0000_0000;
        i = i + 1;
    }
    proof {
        assert(b@.take(b@.len() as int) =~= b@);
    }
    h
}

/// Decides equality of two byte slices.
pub fn bytes_equal(a: &[u8], b: &[u8]) -> (r: bool)
    ensures
        r == (a@ == b@),
{
    if a.len() != b.len() {
        return false;
    }
    let mut i: usize = 0;
    while i < a.len()
        invariant
            i <= a@.len(),
            a@.len() == b@.len(),
            forall|j: int| 0 <= j < i ==> a@[j] == b@[j],
        decreases a@.len() - i,
    {
        if a[i] != b[i] {
            return false;
        }
        i = i + 1;
    }
    proof {
        assert(a@ =~= b@);
    }
    true
}

impl<'a> HashKey for &'a str {
    /// A string's identity is its byte content.
    open spec fn key_id(&self) -> Seq<u8> {
        (*self).spec_bytes()
    }

    fn key_hash(&self) -> (h: u64) {
        hash_bytes((*self).as_bytes())
    }

    fn key_same(&self, other: &Self) -> (r: bool) {
        bytes_equal((*self).as_bytes(), (*other).as_bytes())
    }
}

/// The eight little-endian bytes of `x`.
pub open spec fn u64_le_bytes(x: u64) -> Seq<u8> {
    seq![
        (x % 256) as u8,
        ((x / 256) % 256) as u8,
        ((x / 65536) % 256) as u8,
        ((x / 16777216) % 256) as u8,
        ((x / 4294967296) % 256) as u8,
        ((x / 1099511627776) % 256) as u8,
        ((x / 281474976710656) % 256) as u8,
        ((x / 72057594037927936) % 256) as u8,
    ]
}

fn u64_bytes_vec(x: u64) -> (v: Vec<u8>)
    ensures
        v@ == u64_le_bytes(x),
{
    let mut v: Vec<u8> = Vec::new();
    v.push((x % 256) as u8);
    v.push(((x / 256) % 256) as u8);
    v.push(((x / 65536) % 256) as u8);
    v.push(((x / 16777216) % 256) as u8);
    v.push(((x / 4294967296) % 256) as u8);
    v.push(((x / 1099511627776) % 256) as u8);
    v.push(((x / 281474976710656) % 256) as u8);
    v.push(((x / 72057594037927936) % 256) as u8);
    proof {
        assert(v@ =~= u64_le_bytes(x));
    }
    v
}

impl HashKey for u64 {
    /// An integer's identity is its little-endian byte content.
    open spec fn key_id(&self) -> Seq<u8> {
        u64_le_bytes(*self)
    }

    fn key_hash(&self) -> (h: u64) {
        let v = u64_bytes_vec(*self);
        hash_bytes(v.as_slice())
    }

    fn key_same(&self, other: &Self) -> (r: bool) {
        let a = u64_bytes_vec(*self);
        let b = u64_bytes_vec(*other);
        bytes_equal(a.as_slice(), b.as_slice())
    }
}

/// How many entries a bucket vector holds in all.
pub open spec fn sum_len<K, V>(bs: Seq<Vec<(K, V)>>) -> nat
    decreases bs.len(),
{
    if bs.len() == 0 {
        0
    } else {
        bs[0]@.len() + sum_len(bs.skip(1))
    }
}

proof fn lemma_sum_update<K, V>(bs: Seq<Vec<(K, V)>>, i: int, b: Vec<(K, V)>)
    requires
        0 <= i < bs.len(),
    ensures
        sum_len(bs.update(i, b)) + bs[i]@.len() == sum_len(bs) + b@.len(),
    decreases bs.len(),
{
    if i == 0 {
        assert(bs.update(0, b).skip(1) =~= bs.skip(1));
        assert(bs.update(0, b)[0] == b);
    } else {
        lemma_sum_update(bs.skip(1), i - 1, b);
        assert(bs.update(i, b).skip(1) =~= bs.skip(1).update(i - 1, b));
        assert(bs.update(i, b)[0] == bs[0]);
        assert(bs.skip(1)[i - 1] == bs[i]);
    }
}

proof fn lemma_sum_push<K, V>(bs: Seq<Vec<(K, V)>>, b: Vec<(K, V)>)
    ensures
        sum_len(bs.push(b)) == sum_len(bs) + b@.len(),
    decreases bs.len(),
{
    if bs.len() == 0 {
        assert(bs.push(b).skip(1) =~= Seq::<Vec<(K, V)>>::empty());
        assert(bs.push(b)[0] == b);
        assert(sum_len(Seq::<Vec<(K, V)>>::empty()) == 0);
        assert(bs.push(b).len() == 1);
    } else {
        lemma_sum_push(bs.skip(1), b);
        assert(bs.push(b).skip(1) =~= bs.skip(1).push(b));
        assert(bs.push(b)[0] == bs[0]);
    }
}

proof fn lemma_sum_at_least<K, V>(bs: Seq<Vec<(K, V)>>, i: int)
    requires
        0 <= i < bs.len(),
    ensures
        sum_len(bs) >= bs[i]@.len(),
    decreases bs.len(),
{
    if i > 0 {
        lemma_sum_at_least(bs.skip(1), i - 1);
        assert(bs.skip(1)[i - 1] == bs[i]);
    }
}

proof fn lemma_sum_zero<K, V>(bs: Seq<Vec<(K, V)>>)
    requires
        sum_len(bs) == 0,
    ensures
        forall|i: int| 0 <= i < bs.len() ==> bs[i]@.len() == 0,
    decreases bs.len(),
{
    if bs.len() > 0 {
        lemma_sum_zero(bs.skip(1));
        assert forall|i: int| 0 <= i < bs.len() implies bs[i]@.len() == 0 by {
            if i > 0 {
                assert(bs.skip(1)[i - 1] == bs[i]);
            }
        }
    }
}

/// No identity occurs twice among the entries `s`.
pub open spec fn distinct_ids<K: HashKey, V>(s: Seq<(K, V)>) -> bool {
    forall|j1: int, j2: int|
        0 <= j1 < j2 < s.len() ==> (#[trigger] s[j1].0.key_id()) != (#[trigger] s[j2].0.key_id())
}

/// Some entry of `s` has identity `id`.
pub open spec fn seq_has_id<K: HashKey, V>(s: Seq<(K, V)>, id: Seq<u8>) -> bool {
    exists|j: int| 0 <= j < s.len() && (#[trigger] s[j].0.key_id()) == id
}

/// A position of `s` whose entry has identity `id`.
pub open spec fn id_pos<K: HashKey, V>(s: Seq<(K, V)>, id: Seq<u8>) -> int {
    choose|j: int| 0 <= j < s.len() && (#[trigger] s[j].0.key_id()) == id
}

/// The value stored with identity `id` in `s`.
pub open spec fn seq_id_value<K: HashKey, V>(s: Seq<(K, V)>, id: Seq<u8>) -> V {
    s[id_pos(s, id)].1
}

/// A separately chained hash table from keys to values.
///
/// Mathematically it is the map from key identities to values, reached
/// through `@`; `wf()` is its invariant, established by `new` and preserved
/// by every operation.
pub struct HashMap<K, V> {
    buckets: Vec<Vec<(K, V)>>,
    items: usize,
}

impl<K: HashKey, V> HashMap<K, V> {
    pub closed spec fn num_buckets(self) -> int {
        self.buckets@.len() as int
    }

    pub closed spec fn bucket_entries(self, i: int) -> Seq<(K, V)> {
        self.buckets@[i]@
    }

    /// Bucket `i` holds each identity at most once, and only identities
    /// that its index hashes to.
    pub closed spec fn bucket_inv(self, i: int) -> bool {
        &&& distinct_ids(self.bucket_entries(i))
        &&& forall|j: int|
            0 <= j < self.bucket_entries(i).len() ==> bucket_of(
                #[trigger] self.bucket_entries(i)[j].0.key_id(),
                self.num_buckets(),
            ) == i
    }

    /// The table's invariant: every bucket is well placed and duplicate
    /// free, and the entry counter is exact.
    pub closed spec fn wf(self) -> bool {
        &&& forall|i: int| 0 <= i < self.num_buckets() ==> #[trigger] self.bucket_inv(i)
        &&& self.items as nat == sum_len(self.buckets@)
        &&& (self.num_buckets() == 0 ==> self.items == 0)
    }

    pub closed spec fn contains_id(self, id: Seq<u8>) -> bool {
        self.num_buckets() > 0 && seq_has_id(
            self.bucket_entries(bucket_of(id, self.num_buckets())),
            id,
        )
    }

    pub closed spec fn value_for(self, id: Seq<u8>) -> V {
        seq_id_value(self.bucket_entries(bucket_of(id, self.num_buckets())), id)
    }

    /// How many entries the table holds.
    pub closed spec fn spec_len(self) -> nat {
        self.items as nat
    }

    /// Builds an empty table; no bucket storage is allocated yet.
    pub fn new() -> (m: Self)
        ensures
            m.wf(),
            m@ == Map::<Seq<u8>, V>::empty(),
            m.spec_len() == 0,
    {
        let m = HashMap { buckets: Vec::new(), items: 0 };
        proof {
            assert(sum_len(m.buckets@) == 0);
            assert(m@ =~= Map::<Seq<u8>, V>::empty());
        }
        m
    }

    /// How many entries the table holds.
    pub fn len(&self) -> (n: usize)
        ensures
            n as nat == self.spec_len(),
    {
        self.items
    }

    /// Whether the table holds nothing — equivalently, whether its map is
    /// the empty map.
    pub fn is_empty(&self) -> (r: bool)
        requires
            self.wf(),
        ensures
            r == (self.spec_len() == 0),
            r == (self@ =~= Map::<Seq<u8>, V>::empty()),
    {
        proof {
            if self.items == 0 {
                lemma_sum_zero(self.buckets@);
                assert(self@ =~= Map::<Seq<u8>, V>::empty());
            } else {
                self.lemma_nonempty_has_entry();
                let id = choose|id: Seq<u8>| self.contains_id(id);
                assert(self@.contains_key(id));
                assert(!(self@ =~= Map::<Seq<u8>, V>::empty()));
            }
        }
        self.items == 0
    }

    proof fn lemma_nonempty_has_entry(self)
        requires
            self.wf(),
            self.spec_len() > 0,
        ensures
            exists|id: Seq<u8>| #[trigger] self.contains_id(id),
    {
        lemma_sum_pos(self.buckets@);
        let i = choose|i: int|
            0 <= i < self.buckets@.len() && #[trigger] self.buckets@[i]@.len() > 0;
        assert(self.bucket_inv(i));
        let id = self.bucket_entries(i)[0].0.key_id();
        assert(bucket_of(id, self.num_buckets()) == i);
        assert(seq_has_id(self.bucket_entries(i), id));
        assert(self.contains_id(id));
    }

    /// The bucket that `key` selects in the current layout.
    fn bucket_index(&self, key: &K) -> (bi: usize)
        requires
            self.num_buckets() > 0,
        ensures
            bi as int == bucket_of(key.key_id(), self.num_buckets()),
            bi < self.buckets@.len(),
    {
        let h = key.key_hash();
        let n = self.buckets.len();
        (h % (n as u64)) as usize
    }

    /// Looks `key` up: the value stored under its identity, if any. A table
    /// that never held anything has no buckets and answers `None` at once.
    pub fn get(&self, key: &K) -> (r: Option<&V>)
        requires
            self.wf(),
        ensures
            match r {
                Some(v) => self@.contains_key(key.key_id()) && *v == self@[key.key_id()],
                None => !self@.contains_key(key.key_id()),
            },
    {
        if self.buckets.len() == 0 {
            return None;
        }
        let bi = self.bucket_index(key);
        let bucket = &self.buckets[bi];
        let mut j: usize = 0;
        while j < bucket.len()
            invariant
                self.wf(),
                (bi as int) < self.num_buckets(),
                bi as int == bucket_of(key.key_id(), self.num_buckets()),
                bucket@ == self.bucket_entries(bi as int),
                j <= bucket@.len(),
                forall|jj: int|
                    0 <= jj < j ==> (#[trigger] bucket@[jj].0.key_id()) != key.key_id(),
            decreases bucket@.len() - j,
        {
            if bucket[j].0.key_same(key) {
                proof {
                    assert(self.bucket_inv(bi as int));
                    assert(seq_has_id(bucket@, key.key_id()));
                    let jj = id_pos(bucket@, key.key_id());
                    assert(bucket@[jj].0.key_id() == key.key_id());
                    assert(jj == j as int);
                }
                return Some(&bucket[j].1);
            }
            j = j + 1;
        }
        proof {
            assert(!seq_has_id(bucket@, key.key_id()));
        }
        None
    }

    /// Whether a value is stored under the identity of `key`.
    pub fn contains_key(&self, key: &K) -> (r: bool)
        requires
            self.wf(),
        ensures
            r == self@.contains_key(key.key_id()),
    {
        self.get(key).is_some()
    }
}

proof fn lemma_sum_pos<K, V>(bs: Seq<Vec<(K, V)>>)
    requires
        sum_len(bs) > 0,
    ensures
        exists|i: int| 0 <= i < bs.len() && #[trigger] bs[i]@.len() > 0,
    decreases bs.len(),
{
    if bs[0]@.len() > 0 {
        assert(0 <= 0 < bs.len() && bs[0]@.len() > 0);
    } else {
        lemma_sum_pos(bs.skip(1));
        let i = choose|i: int| 0 <= i < bs.skip(1).len() && #[trigger] bs.skip(1)[i]@.len() > 0;
        assert(bs.skip(1)[i] == bs[i + 1]);
        assert(bs[i + 1]@.len() > 0);
    }
}

proof fn lemma_sum_of_empty<K, V>(bs: Seq<Vec<(K, V)>>)
    requires
        forall|q: int| 0 <= q < bs.len() ==> (#[trigger] bs[q])@.len() == 0,
    ensures
        sum_len(bs) == 0,
    decreases bs.len(),
{
    if bs.len() > 0 {
        assert forall|q: int| 0 <= q < bs.skip(1).len() implies (#[trigger] bs.skip(1)[q])@.len()
            == 0 by {
            assert(bs.skip(1)[q] == bs[q + 1]);
        }
        lemma_sum_of_empty(bs.skip(1));
    }
}

proof fn lemma_seq_id_push<K: HashKey, V>(s: Seq<(K, V)>, p: (K, V))
    requires
        distinct_ids(s),
        !seq_has_id(s, p.0.key_id()),
    ensures
        distinct_ids(s.push(p)),
        forall|id: Seq<u8>|
            #[trigger] seq_has_id(s.push(p), id) <==> (seq_has_id(s, id) || id == p.0.key_id()),
        forall|id: Seq<u8>|
            seq_has_id(s, id) ==> #[trigger] seq_id_value(s.push(p), id) == seq_id_value(s, id),
        seq_id_value(s.push(p), p.0.key_id()) == p.1,
{
    let t = s.push(p);
    let n = s.len() as int;
    assert(t[n] == p);
    assert forall|j1: int, j2: int| 0 <= j1 < j2 < t.len() implies t[j1].0.key_id()
        != t[j2].0.key_id() by {
        if j2 == n {
            if t[j1].0.key_id() == p.0.key_id() {
                assert(s[j1].0.key_id() == p.0.key_id());
                assert(seq_has_id(s, p.0.key_id()));
            }
        }
    }
    assert forall|id: Seq<u8>| #[trigger] seq_has_id(t, id) <==> (seq_has_id(s, id) || id
        == p.0.key_id()) by {
        if seq_has_id(t, id) {
            let j = choose|j: int| 0 <= j < t.len() && (#[trigger] t[j].0.key_id()) == id;
            if j < n {
                assert(s[j].0.key_id() == id);
                assert(seq_has_id(s, id));
            } else {
                assert(id == p.0.key_id());
            }
        }
        if seq_has_id(s, id) {
            let j = choose|j: int| 0 <= j < s.len() && (#[trigger] s[j].0.key_id()) == id;
            assert(t[j].0.key_id() == id);
            assert(seq_has_id(t, id));
        }
        if id == p.0.key_id() {
            assert(t[n].0.key_id() == id);
            assert(seq_has_id(t, id));
        }
    }
    assert forall|id: Seq<u8>| seq_has_id(s, id) implies #[trigger] seq_id_value(t, id)
        == seq_id_value(s, id) by {
        let j1 = id_pos(s, id);
        assert(0 <= j1 < s.len() && s[j1].0.key_id() == id);
        assert(seq_has_id(t, id));
        let j2 = id_pos(t, id);
        assert(0 <= j2 < t.len() && t[j2].0.key_id() == id);
        if j2 == n {
            assert(seq_has_id(s, p.0.key_id()));
            assert(false);
        }
        if j1 < j2 {
            assert(s[j1].0.key_id() != s[j2].0.key_id());
        } else if j2 < j1 {
            assert(s[j2].0.key_id() != s[j1].0.key_id());
        }
        assert(j1 == j2);
    }
    assert(t[n].0.key_id() == p.0.key_id());
    assert(seq_has_id(t, p.0.key_id()));
    let j3 = id_pos(t, p.0.key_id());
    assert(0 <= j3 < t.len() && t[j3].0.key_id() == p.0.key_id());
    if j3 < n {
        assert(s[j3].0.key_id() == p.0.key_id());
        assert(seq_has_id(s, p.0.key_id()));
        assert(false);
    }
    assert(seq_id_value(t, p.0.key_id()) == p.1);
}

proof fn lemma_seq_id_swap_remove<K: HashKey, V>(s: Seq<(K, V)>, j: int)
    requires
        distinct_ids(s),
        0 <= j < s.len(),
    ensures
        ({
            let t = s.update(j, s.last()).drop_last();
            &&& t.len() == s.len() - 1
            &&& distinct_ids(t)
            &&& forall|id: Seq<u8>|
                #[trigger] seq_has_id(t, id) <==> (seq_has_id(s, id) && id != s[j].0.key_id())
            &&& forall|id: Seq<u8>|
                seq_has_id(t, id) ==> #[trigger] seq_id_value(t, id) == seq_id_value(s, id)
        }),
{
    let t = s.update(j, s.last()).drop_last();
    let n = s.len() as int;
    assert forall|q: int| 0 <= q < t.len() implies t[q] == (if q == j {
        s[n - 1]
    } else {
        s[q]
    }) by {}
    assert forall|q1: int, q2: int| 0 <= q1 < q2 < t.len() implies t[q1].0.key_id()
        != t[q2].0.key_id() by {
        let a = if q1 == j { n - 1 } else { q1 };
        let b = if q2 == j { n - 1 } else { q2 };
        assert(t[q1] == s[a] && t[q2] == s[b]);
        assert(a != b);
        if a < b {
            assert(s[a].0.key_id() != s[b].0.key_id());
        } else {
            assert(s[b].0.key_id() != s[a].0.key_id());
        }
    }
    assert forall|id: Seq<u8>| #[trigger] seq_has_id(t, id) <==> (seq_has_id(s, id) && id
        != s[j].0.key_id()) by {
        if seq_has_id(t, id) {
            let q = choose|q: int| 0 <= q < t.len() && (#[trigger] t[q].0.key_id()) == id;
            let a = if q == j { n - 1 } else { q };
            assert(t[q] == s[a]);
            assert(s[a].0.key_id() == id);
            assert(seq_has_id(s, id));
            if id == s[j].0.key_id() {
                assert(a != j);
                if a < j {
                    assert(s[a].0.key_id() != s[j].0.key_id());
                } else {
                    assert(s[j].0.key_id() != s[a].0.key_id());
                }
                assert(false);
            }
        }
        if seq_has_id(s, id) && id != s[j].0.key_id() {
            let q0 = choose|q0: int| 0 <= q0 < s.len() && (#[trigger] s[q0].0.key_id()) == id;
            assert(q0 != j);
            if q0 == n - 1 {
                assert(j < n - 1);
                assert(t[j] == s[n - 1]);
                assert(t[j].0.key_id() == id);
                assert(seq_has_id(t, id));
            } else {
                assert(t[q0] == s[q0]);
                assert(t[q0].0.key_id() == id);
                assert(seq_has_id(t, id));
            }
        }
    }
    assert forall|id: Seq<u8>| seq_has_id(t, id) implies #[trigger] seq_id_value(t, id)
        == seq_id_value(s, id) by {
        let q1 = id_pos(t, id);
        assert(0 <= q1 < t.len() && t[q1].0.key_id() == id);
        assert(seq_has_id(s, id));
        let q2 = id_pos(s, id);
        assert(0 <= q2 < s.len() && s[q2].0.key_id() == id);
        let a = if q1 == j { n - 1 } else { q1 };
        assert(t[q1] == s[a]);
        assert(s[a].0.key_id() == id);
        if a < q2 {
            assert(s[a].0.key_id() != s[q2].0.key_id());
        } else if q2 < a {
            assert(s[q2].0.key_id() != s[a].0.key_id());
        }
        assert(a == q2);
    }
}

impl<K: HashKey, V> HashMap<K, V> {
    /// The position of `key`'s identity in its bucket, if present.
    fn find_slot(&self, bi: usize, key: &K) -> (r: Option<usize>)
        requires
            self.wf(),
            (bi as int) < self.num_buckets(),
            bi as int == bucket_of(key.key_id(), self.num_buckets()),
        ensures
            match r {
                Some(j) => (j as int) < self.bucket_entries(bi as int).len()
                    && self.bucket_entries(bi as int)[j as int].0.key_id() == key.key_id(),
                None => !seq_has_id(self.bucket_entries(bi as int), key.key_id()),
            },
    {
        let bucket = &self.buckets[bi];
        let mut j: usize = 0;
        while j < bucket.len()
            invariant
                bucket@ == self.bucket_entries(bi as int),
                j <= bucket@.len(),
                forall|jj: int|
                    0 <= jj < j ==> (#[trigger] bucket@[jj].0.key_id()) != key.key_id(),
            decreases bucket@.len() - j,
        {
            if bucket[j].0.key_same(key) {
                return Some(j);
            }
            j = j + 1;
        }
        proof {
            assert(!seq_has_id(bucket@, key.key_id()));
        }
        None
    }

    /// Stores `value` under the identity of `key`, growing the bucket array
    /// first when it is missing or loaded past roughly three quarters.
    /// Returns the value previously stored under that identity, if any.
    pub fn insert(&mut self, key: K, value: V) -> (prev: Option<V>)
        requires
            old(self).wf(),
            old(self).spec_len() < usize::MAX,
        ensures
            final(self).wf(),
            final(self)@ == old(self)@.insert(key.key_id(), value),
            final(self).spec_len() == if old(self)@.contains_key(key.key_id()) {
                old(self).spec_len()
            } else {
                old(self).spec_len() + 1
            },
            match prev {
                Some(v) => old(self)@.contains_key(key.key_id()) && v == old(self)@[key.key_id()],
                None => !old(self)@.contains_key(key.key_id()),
            },
    {
        if self.buckets.len() == 0 || self.items > self.buckets.len() / 4 * 3 {
            self.resize();
        }
        let ghost pre = *self;
        let ghost id = key.key_id();
        let bi = self.bucket_index(&key);
        let ghost bb = self.buckets@[bi as int]@;
        proof {
            assert(pre.bucket_inv(bi as int));
        }
        match self.find_slot(bi, &key) {
            Some(j) => {
                let prev_pair = self.buckets[bi].swap_remove(j);
                proof {
                    lemma_seq_id_swap_remove(bb, j as int);
                    lemma_sum_update(pre.buckets@, bi as int, self.buckets@[bi as int]);
                }
                let ghost mid = *self;
                let ghost bb2 = self.buckets@[bi as int]@;
                let ghost newp: (K, V) = (key, value);
                self.buckets[bi].push((key, value));
                proof {
                    lemma_seq_id_push(bb2, newp);
                    lemma_sum_update(mid.buckets@, bi as int, self.buckets@[bi as int]);
                    assert(self.buckets@ =~= pre.buckets@.update(
                        bi as int,
                        self.buckets@[bi as int],
                    ));
                    self.lemma_one_bucket_changed(pre, bi as int);
                    assert(seq_has_id(bb, id));
                    assert(seq_id_value(bb, id) == bb[j as int].1);
                    assert(self@ =~= pre@.insert(id, value));
                    assert(pre@ == old(self)@ && pre.spec_len() == old(self).spec_len());
                }
                Some(prev_pair.1)
            },
            None => {
                let ghost newp: (K, V) = (key, value);
                self.buckets[bi].push((key, value));
                self.items = self.items + 1;
                proof {
                    lemma_seq_id_push(bb, newp);
                    lemma_sum_update(pre.buckets@, bi as int, self.buckets@[bi as int]);
                    self.lemma_one_bucket_changed(pre, bi as int);
                    assert(self@ =~= pre@.insert(id, value));
                    assert(pre@ == old(self)@ && pre.spec_len() == old(self).spec_len());
                }
                None
            },
        }
    }

    /// After a change to bucket `bi` alone, in a table whose bucket count
    /// stayed the same and whose changed bucket keeps only identities that
    /// hash there: containment and values elsewhere are untouched, and at
    /// `bi` they are the changed bucket's own.
    proof fn lemma_one_bucket_changed(self, pre: Self, bi: int)
        requires
            pre.wf(),
            0 <= bi < pre.num_buckets(),
            self.num_buckets() == pre.num_buckets(),
            self.buckets@ == pre.buckets@.update(bi, self.buckets@[bi]),
            distinct_ids(self.bucket_entries(bi)),
            forall|j: int|
                0 <= j < self.bucket_entries(bi).len() ==> bucket_of(
                    #[trigger] self.bucket_entries(bi)[j].0.key_id(),
                    self.num_buckets(),
                ) == bi,
        ensures
            forall|i: int| 0 <= i < self.num_buckets() ==> #[trigger] self.bucket_inv(i),
            forall|id: Seq<u8>|
                bucket_of(id, pre.num_buckets()) != bi ==> (#[trigger] self.contains_id(id)
                    == pre.contains_id(id) && (self.contains_id(id) ==> self.value_for(id)
                    == pre.value_for(id))),
            forall|id: Seq<u8>|
                bucket_of(id, pre.num_buckets()) == bi ==> (#[trigger] self.contains_id(id)
                    == seq_has_id(self.bucket_entries(bi), id) && (self.contains_id(id)
                    ==> self.value_for(id) == seq_id_value(self.bucket_entries(bi), id))),
    {
        assert forall|i: int| 0 <= i < self.num_buckets() implies #[trigger] self.bucket_inv(
            i,
        ) by {
            assert(pre.bucket_inv(i));
            if i != bi {
                assert(self.bucket_entries(i) == pre.bucket_entries(i));
            }
        }
    }

    /// Takes the value stored under the identity of `key` out of the table,
    /// if any.
    pub fn remove(&mut self, key: &K) -> (r: Option<V>)
        requires
            old(self).wf(),
        ensures
            final(self).wf(),
            final(self)@ == old(self)@.remove(key.key_id()),
            final(self).spec_len() == if old(self)@.contains_key(key.key_id()) {
                (old(self).spec_len() - 1) as nat
            } else {
                old(self).spec_len()
            },
            match r {
                Some(v) => old(self)@.contains_key(key.key_id()) && v == old(self)@[key.key_id()],
                None => !old(self)@.contains_key(key.key_id()),
            },
    {
        let ghost id = key.key_id();
        if self.buckets.len() == 0 {
            proof {
                assert(self@.remove(id) =~= self@);
            }
            return None;
        }
        let ghost pre = *self;
        let bi = self.bucket_index(key);
        let ghost bb = self.buckets@[bi as int]@;
        proof {
            assert(pre.bucket_inv(bi as int));
        }
        match self.find_slot(bi, key) {
            Some(j) => {
                proof {
                    lemma_sum_at_least(pre.buckets@, bi as int);
                }
                let pair = self.buckets[bi].swap_remove(j);
                self.items = self.items - 1;
                proof {
                    lemma_seq_id_swap_remove(bb, j as int);
                    lemma_sum_update(pre.buckets@, bi as int, self.buckets@[bi as int]);
                    self.lemma_one_bucket_changed(pre, bi as int);
                    assert(seq_has_id(bb, id));
                    assert(seq_id_value(bb, id) == bb[j as int].1);
                    assert(self@ =~= pre@.remove(id));
                }
                Some(pair.1)
            },
            None => {
                proof {
                    assert(self@.remove(id) =~= self@);
                }
                None
            },
        }
    }

    /// Moves every entry into a bucket array of twice the old size — one
    /// bucket where there was none — so the load stays low; the table's map
    /// does not change. Growth stops only at the machine limit on the array
    /// length.
    fn resize(&mut self)
        requires
            old(self).wf(),
        ensures
            final(self).wf(),
            final(self)@ == old(self)@,
            final(self).spec_len() == old(self).spec_len(),
            final(self).num_buckets() > 0,
    {
        let ghost orig = *old(self);
        let n = self.buckets.len();
        if n > 0 && n > usize::MAX / 2 {
            return;
        }
        let target: usize = if n == 0 {
            1
        } else {
            2 * n
        };
        let mut fresh: Vec<Vec<(K, V)>> = Vec::new();
        while fresh.len() < target
            invariant
                fresh@.len() <= target as int,
                forall|q: int| 0 <= q < fresh@.len() ==> (#[trigger] fresh@[q])@.len() == 0,
            decreases target - fresh@.len(),
        {
            fresh.push(Vec::new());
        }
        proof {
            lemma_sum_of_empty(fresh@);
        }
        core::mem::swap(&mut self.buckets, &mut fresh);
        let mut old_b = fresh;
        proof {
            assert forall|id: Seq<u8>| !(#[trigger] self.contains_id(id)) by {}
        }
        let mut i: usize = 0;
        while i < old_b.len()
            invariant
                orig.wf(),
                target > 0,
                self.buckets@.len() == target as int,
                self.items == orig.items,
                old_b@.len() == orig.num_buckets(),
                i <= old_b@.len(),
                forall|q: int| 0 <= q < i ==> (#[trigger] old_b@[q])@.len() == 0,
                forall|q: int| i <= q < old_b@.len() ==> #[trigger] old_b@[q] == orig.buckets@[q],
                forall|q: int| 0 <= q < target ==> distinct_ids(#[trigger] self.buckets@[q]@),
                forall|q: int, j: int|
                    0 <= q < target && 0 <= j < self.buckets@[q]@.len() ==> bucket_of(
                        (#[trigger] self.buckets@[q]@[j]).0.key_id(),
                        target as int,
                    ) == q,
                forall|id: Seq<u8>|
                    #[trigger] self.contains_id(id) <==> (orig.contains_id(id) && bucket_of(
                        id,
                        orig.num_buckets(),
                    ) < i),
                forall|id: Seq<u8>|
                    #[trigger] self.contains_id(id) ==> self.value_for(id) == orig.value_for(id),
                sum_len(self.buckets@) + sum_len(old_b@) == sum_len(orig.buckets@),
            decreases old_b@.len() - i,
        {
            proof {
                let ghost eib = orig.bucket_entries(i as int);
                assert(eib.take(eib.len() as int) =~= eib);
            }
            while old_b[i].len() > 0
                invariant
                    orig.wf(),
                    target > 0,
                    self.buckets@.len() == target as int,
                    self.items == orig.items,
                    old_b@.len() == orig.num_buckets(),
                    i < old_b@.len(),
                    forall|q: int| 0 <= q < i ==> (#[trigger] old_b@[q])@.len() == 0,
                    forall|q: int|
                        i < q < old_b@.len() ==> #[trigger] old_b@[q] == orig.buckets@[q],
                    old_b@[i as int]@.len() <= orig.bucket_entries(i as int).len(),
                    old_b@[i as int]@ == orig.bucket_entries(i as int).take(
                        old_b@[i as int]@.len() as int,
                    ),
                    forall|q: int| 0 <= q < target ==> distinct_ids(#[trigger] self.buckets@[q]@),
                    forall|q: int, j: int|
                        0 <= q < target && 0 <= j < self.buckets@[q]@.len() ==> bucket_of(
                            (#[trigger] self.buckets@[q]@[j]).0.key_id(),
                            target as int,
                        ) == q,
                    forall|id: Seq<u8>|
                        #[trigger] self.contains_id(id) <==> (orig.contains_id(id) && (bucket_of(
                            id,
                            orig.num_buckets(),
                        ) < i || (bucket_of(id, orig.num_buckets()) == i && seq_has_id(
                            orig.bucket_entries(i as int).skip(old_b@[i as int]@.len() as int),
                            id,
                        )))),
                    forall|id: Seq<u8>|
                        #[trigger] self.contains_id(id) ==> self.value_for(id) == orig.value_for(
                            id,
                        ),
                    sum_len(self.buckets@) + sum_len(old_b@) == sum_len(orig.buckets@),
                decreases old_b@[i as int]@.len(),
            {
                let ghost ob = old_b@;
                let ghost r = old_b@[i as int]@.len() as int;
                let ghost ib = orig.bucket_entries(i as int);
                let p = old_b[i].pop().unwrap();
                proof {
                    lemma_sum_update(ob, i as int, old_b@[i as int]);
                    assert(ib.take(r).drop_last() =~= ib.take(r - 1));
                    assert(old_b@[i as int]@ =~= ib.take(r).drop_last());
                    assert(p == ib.take(r)[r - 1]);
                    assert(p == ib[r - 1]);
                    assert(orig.bucket_inv(i as int));
                    assert(bucket_of(p.0.key_id(), orig.num_buckets()) == i as int);
                    assert(distinct_ids(ib));
                    assert forall|jj: int| r - 1 < jj < ib.len() implies (#[trigger] ib[jj]).0.key_id()
                        != p.0.key_id() by {
                        assert(ib[r - 1].0.key_id() != ib[jj].0.key_id());
                    }
                    if seq_has_id(ib.skip(r), p.0.key_id()) {
                        let w = choose|w: int|
                            0 <= w < ib.skip(r).len() && (#[trigger] ib.skip(r)[w].0.key_id())
                                == p.0.key_id();
                        assert(ib.skip(r)[w] == ib[w + r]);
                        assert(false);
                    }
                    assert(!self.contains_id(p.0.key_id()));
                }
                let idx = (p.0.key_hash() % (target as u64)) as usize;
                let ghost prev_self = *self;
                let ghost nb = self.buckets@;
                let ghost tb = self.buckets@[idx as int]@;
                let ghost pp: (K, V) = p;
                proof {
                    assert(idx as int == bucket_of(pp.0.key_id(), target as int));
                    assert(!seq_has_id(tb, pp.0.key_id()));
                }
                self.buckets[idx].push(p);
                proof {
                    lemma_seq_id_push(tb, pp);
                    lemma_sum_update(nb, idx as int, self.buckets@[idx as int]);
                    assert(self.buckets@ == nb.update(idx as int, self.buckets@[idx as int]));
                    assert(self.buckets@[idx as int]@ == tb.push(pp));
                    assert(ib.skip(r - 1)[0] == ib[r - 1]);
                    assert forall|w: int| 0 < w < ib.skip(r - 1).len() implies (#[trigger] ib.skip(
                        r - 1,
                    )[w]) == ib.skip(r)[w - 1] by {}
                    assert forall|id: Seq<u8>| #[trigger] self.contains_id(id) <==> (orig.contains_id(
                        id,
                    ) && (bucket_of(id, orig.num_buckets()) < i || (bucket_of(
                        id,
                        orig.num_buckets(),
                    ) == i && seq_has_id(ib.skip(r - 1), id)))) by {
                        if id == pp.0.key_id() {
                            assert(seq_has_id(tb.push(pp), id));
                            assert(self.contains_id(id));
                            assert(seq_has_id(ib, id));
                            assert(orig.contains_id(id));
                            assert(ib.skip(r - 1)[0].0.key_id() == id);
                            assert(seq_has_id(ib.skip(r - 1), id));
                        } else {
                            if seq_has_id(ib.skip(r - 1), id) {
                                let w = choose|w: int|
                                    0 <= w < ib.skip(r - 1).len() && (#[trigger] ib.skip(
                                        r - 1,
                                    )[w].0.key_id()) == id;
                                assert(w != 0);
                                assert(ib.skip(r)[w - 1].0.key_id() == id);
                                assert(seq_has_id(ib.skip(r), id));
                            }
                            if seq_has_id(ib.skip(r), id) {
                                let w = choose|w: int|
                                    0 <= w < ib.skip(r).len() && (#[trigger] ib.skip(
                                        r,
                                    )[w].0.key_id()) == id;
                                assert(ib.skip(r - 1)[w + 1].0.key_id() == id);
                                assert(seq_has_id(ib.skip(r - 1), id));
                            }
                            if bucket_of(id, target as int) == idx as int {
                                assert(self.contains_id(id) == seq_has_id(tb.push(pp), id));
                                assert(prev_self.contains_id(id) == seq_has_id(tb, id));
                                assert(self.contains_id(id) == prev_self.contains_id(id));
                            } else {
                                assert(self.bucket_entries(bucket_of(id, target as int))
                                    == prev_self.bucket_entries(bucket_of(id, target as int)));
                                assert(self.contains_id(id) == prev_self.contains_id(id));
                            }
                        }
                    }
                    assert forall|id: Seq<u8>| #[trigger] self.contains_id(id) implies self.value_for(
                        id,
                    ) == orig.value_for(id) by {
                        if id == pp.0.key_id() {
                            assert(seq_id_value(tb.push(pp), id) == pp.1);
                            assert(self.value_for(id) == pp.1);
                            assert(seq_has_id(ib, id));
                            let w2 = id_pos(ib, id);
                            assert(0 <= w2 < ib.len() && ib[w2].0.key_id() == id);
                            if w2 < r - 1 {
                                assert(ib[w2].0.key_id() != ib[r - 1].0.key_id());
                                assert(false);
                            } else if w2 > r - 1 {
                                assert(ib[r - 1].0.key_id() != ib[w2].0.key_id());
                                assert(false);
                            }
                            assert(bucket_of(id, orig.num_buckets()) == i as int);
                            assert(orig.value_for(id) == seq_id_value(ib, id));
                            assert(seq_id_value(ib, id) == ib[w2].1);
                            assert(orig.value_for(id) == pp.1);
                        } else {
                            if bucket_of(id, target as int) == idx as int {
                                assert(self.contains_id(id) == seq_has_id(tb.push(pp), id));
                                assert(seq_has_id(tb, id));
                                assert(prev_self.contains_id(id));
                                assert(seq_id_value(tb.push(pp), id) == seq_id_value(tb, id));
                                assert(self.value_for(id) == prev_self.value_for(id));
                            } else {
                                assert(self.bucket_entries(bucket_of(id, target as int))
                                    == prev_self.bucket_entries(bucket_of(id, target as int)));
                                assert(self.contains_id(id) == prev_self.contains_id(id));
                                assert(self.value_for(id) == prev_self.value_for(id));
                            }
                            assert(prev_self.value_for(id) == orig.value_for(id));
                        }
                    }
                }
            }
            proof {
                let ghost rib = orig.bucket_entries(i as int);
                assert(rib.skip(0) =~= rib);
                assert forall|id: Seq<u8>| #[trigger] self.contains_id(id) <==> (orig.contains_id(
                    id,
                ) && bucket_of(id, orig.num_buckets()) < i + 1) by {
                    if orig.contains_id(id) && bucket_of(id, orig.num_buckets()) == i as int {
                        assert(seq_has_id(rib, id));
                    }
                }
            }
            i = i + 1;
        }
        proof {
            lemma_sum_of_empty(old_b@);
            assert(self.items as nat == sum_len(self.buckets@));
            assert forall|i2: int| 0 <= i2 < self.num_buckets() implies #[trigger] self.bucket_inv(
                i2,
            ) by {}
            assert forall|id: Seq<u8>| #[trigger] self.contains_id(id) == orig.contains_id(id) by {
                if orig.contains_id(id) {
                    assert(0 <= bucket_of(id, orig.num_buckets()) < orig.num_buckets());
                }
            }
            assert(self@ =~= orig@);
        }
    }
}

impl<K: HashKey, V> View for HashMap<K, V> {
    type V = Map<Seq<u8>, V>;

    closed spec fn view(&self) -> Map<Seq<u8>, V> {
        Map::new(|id: Seq<u8>| self.contains_id(id), |id: Seq<u8>| self.value_for(id))
    }
}

impl<K: HashKey, V> HashMap<K, V> {
    /// The table's entries from position `a` of bucket `b` onwards, in
    /// bucket order.
    pub closed spec fn entries_from(self, b: int, a: int) -> Seq<(K, V)>
        decreases self.num_buckets() - b,
    {
        if b < 0 || b >= self.num_buckets() {
            Seq::empty()
        } else {
            (if 0 <= a <= self.bucket_entries(b).len() {
                self.bucket_entries(b).skip(a)
            } else {
                Seq::empty()
            }) + self.entries_from(b + 1, 0)
        }
    }

    proof fn lemma_entries_from_len(self, b: int)
        requires
            self.wf(),
            0 <= b <= self.num_buckets(),
        ensures
            self.entries_from(b, 0).len() == sum_len(self.buckets@.skip(b)),
        decreases self.num_buckets() - b,
    {
        if b == self.num_buckets() {
            assert(self.buckets@.skip(b).len() == 0);
        } else {
            self.lemma_entries_from_len(b + 1);
            assert(self.buckets@.skip(b).skip(1) =~= self.buckets@.skip(b + 1));
            assert(self.buckets@.skip(b)[0] == self.buckets@[b]);
            assert(self.bucket_entries(b).skip(0) =~= self.bucket_entries(b));
        }
    }

    /// A full walk is faithful to the map: every entry it hands out is
    /// stored in the table under its key's identity with exactly that value,
    /// and no identity is handed out twice.
    pub proof fn lemma_iteration_matches_map(self)
        requires
            self.wf(),
        ensures
            forall|q: int|
                0 <= q < self.entries_from(0, 0).len() ==> self@.contains_key(
                    (#[trigger] self.entries_from(0, 0)[q]).0.key_id(),
                ) && self@[self.entries_from(0, 0)[q].0.key_id()] == self.entries_from(0, 0)[q].1,
            forall|q1: int, q2: int|
                0 <= q1 < q2 < self.entries_from(0, 0).len() ==> (#[trigger] self.entries_from(
                    0,
                    0,
                )[q1]).0.key_id() != (#[trigger] self.entries_from(0, 0)[q2]).0.key_id(),
    {
        self.lemma_entries_cover(0);
    }

    proof fn lemma_entries_cover(self, b: int)
        requires
            self.wf(),
            0 <= b <= self.num_buckets(),
        ensures
            forall|q: int|
                0 <= q < self.entries_from(b, 0).len() ==> bucket_of(
                    (#[trigger] self.entries_from(b, 0)[q]).0.key_id(),
                    self.num_buckets(),
                ) >= b,
            forall|q: int|
                0 <= q < self.entries_from(b, 0).len() ==> self@.contains_key(
                    (#[trigger] self.entries_from(b, 0)[q]).0.key_id(),
                ) && self@[self.entries_from(b, 0)[q].0.key_id()] == self.entries_from(b, 0)[q].1,
            forall|q1: int, q2: int|
                0 <= q1 < q2 < self.entries_from(b, 0).len() ==> (#[trigger] self.entries_from(
                    b,
                    0,
                )[q1]).0.key_id() != (#[trigger] self.entries_from(b, 0)[q2]).0.key_id(),
        decreases self.num_buckets() - b,
    {
        if b == self.num_buckets() {
        } else {
            self.lemma_entries_cover(b + 1);
            let es = self.entries_from(b, 0);
            let bs = self.bucket_entries(b);
            let rest = self.entries_from(b + 1, 0);
            assert(bs.skip(0) =~= bs);
            assert(es == bs + rest);
            assert(self.bucket_inv(b));
            assert forall|q: int| 0 <= q < es.len() implies bucket_of(
                (#[trigger] es[q]).0.key_id(),
                self.num_buckets(),
            ) >= b && self@.contains_key(es[q].0.key_id()) && self@[es[q].0.key_id()]
                == es[q].1 by {
                if q < bs.len() {
                    assert(es[q] == bs[q]);
                    let id = bs[q].0.key_id();
                    assert(bucket_of(id, self.num_buckets()) == b);
                    assert(seq_has_id(bs, id));
                    assert(self.contains_id(id));
                    let j = id_pos(bs, id);
                    assert(0 <= j < bs.len() && bs[j].0.key_id() == id);
                    if j < q {
                        assert(bs[j].0.key_id() != bs[q].0.key_id());
                    } else if q < j {
                        assert(bs[q].0.key_id() != bs[j].0.key_id());
                    }
                    assert(self.value_for(id) == bs[q].1);
                } else {
                    assert(es[q] == rest[q - bs.len()]);
                }
            }
            assert forall|q1: int, q2: int| 0 <= q1 < q2 < es.len() implies (#[trigger] es[q1]).0.key_id()
                != (#[trigger] es[q2]).0.key_id() by {
                if q1 < bs.len() && q2 < bs.len() {
                    assert(es[q1] == bs[q1] && es[q2] == bs[q2]);
                } else if q1 < bs.len() {
                    assert(es[q1] == bs[q1]);
                    assert(es[q2] == rest[q2 - bs.len()]);
                    assert(bucket_of(es[q1].0.key_id(), self.num_buckets()) == b);
                    assert(bucket_of(es[q2].0.key_id(), self.num_buckets()) >= b + 1);
                } else {
                    assert(es[q1] == rest[q1 - bs.len()]);
                    assert(es[q2] == rest[q2 - bs.len()]);
                }
            }
        }
    }

    /// Starts a walk over all entries, bucket by bucket.
    pub fn iter(&self) -> (it: Iter<'_, K, V>)
        requires
            self.wf(),
        ensures
            it.wf(),
            it.remaining() == self.entries_from(0, 0),
            it.remaining().len() == self.spec_len(),
    {
        proof {
            self.lemma_entries_from_len(0);
            assert(self.buckets@.skip(0) =~= self.buckets@);
        }
        Iter { map: self, bucket: 0, at: 0 }
    }
}

/// A walk over a table's entries, in bucket order.
pub struct Iter<'a, K, V> {
    map: &'a HashMap<K, V>,
    bucket: usize,
    at: usize,
}

impl<'a, K: HashKey, V> Iter<'a, K, V> {
    /// The walk sits inside its table's bounds.
    pub closed spec fn wf(self) -> bool {
        &&& self.map.wf()
        &&& (self.bucket as int) <= self.map.num_buckets()
        &&& ((self.bucket as int) < self.map.num_buckets() ==> (self.at as int)
            <= self.map.bucket_entries(self.bucket as int).len())
        &&& ((self.bucket as int) >= self.map.num_buckets() ==> self.at == 0)
    }

    /// The entries not yet handed out, in the order they will come.
    pub closed spec fn remaining(self) -> Seq<(K, V)> {
        self.map.entries_from(self.bucket as int, self.at as int)
    }

    /// Hands out the next entry, or `None` once every bucket is exhausted.
    pub fn next(&mut self) -> (r: Option<(&'a K, &'a V)>)
        requires
            old(self).wf(),
        ensures
            final(self).wf(),
            match r {
                Some(kv) => old(self).remaining().len() > 0 && *kv.0
                    == old(self).remaining()[0].0 && *kv.1 == old(self).remaining()[0].1
                    && final(self).remaining() == old(self).remaining().skip(1),
                None => old(self).remaining().len() == 0 && final(self).remaining().len() == 0,
            },
    {
        let m: &'a HashMap<K, V> = self.map;
        while self.bucket < m.buckets.len()
            invariant
                self.map == m,
                self.wf(),
                self.remaining() == old(self).remaining(),
            decreases m.num_buckets() - self.bucket,
        {
            let ghost b = self.bucket as int;
            let ghost a = self.at as int;
            if self.at < m.buckets[self.bucket].len() {
                let pair = &m.buckets[self.bucket][self.at];
                proof {
                    let bs = self.map.bucket_entries(b);
                    assert(self.remaining() == bs.skip(a) + self.map.entries_from(b + 1, 0));
                    assert(bs.skip(a)[0] == bs[a]);
                    assert(self.remaining()[0] == bs[a]);
                    assert(bs.skip(a).skip(1) =~= bs.skip(a + 1));
                    assert((bs.skip(a) + self.map.entries_from(b + 1, 0)).skip(1) =~= bs.skip(
                        a + 1,
                    ) + self.map.entries_from(b + 1, 0));
                }
                self.at = self.at + 1;
                return Some((&pair.0, &pair.1));
            }
            proof {
                let bs = self.map.bucket_entries(b);
                assert(bs.skip(a) =~= Seq::<(K, V)>::empty());
                assert(self.remaining() =~= self.map.entries_from(b + 1, 0));
            }
            self.bucket = self.bucket + 1;
            self.at = 0;
        }
        None
    }
}

} // verus!
