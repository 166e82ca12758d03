//! Partition hash table: station name -> running aggregate.
//!
//! An open-chained table over a fixed power-of-two array of buckets. Nodes
//! live in an arena in first-seen order; each bucket holds the arena indices
//! of the nodes routed to it by an FNV-style mix of a packed prefix of the
//! key. A probe is matched by full byte equality of the key, so the table is
//! exactly a map from station name to aggregate.

use vstd::prelude::*;

verus! {

/// Number of buckets; a power of two.
pub const TABLE_SIZE: usize = 4096;

/// Bucket mask, `TABLE_SIZE - 1`.
pub const TABLE_MASK: u64 = 4095;

/// FNV offset basis.
pub const OFFSET64: u64 = 14695981039346656037;

/// FNV prime.
pub const PRIME64: u64 = 1099511628211;

/// Largest observation count the aggregates are specified for.
pub const MAX_COUNT: u64 = 0x20_0000_0000_0000;

/// Little-endian packing of the first `n` bytes of `s` into a word.
pub open spec fn spec_pack_prefix(s: Seq<u8>, n: int) -> u64
    decreases n,
{
    if n <= 0 {
        0u64
    } else {
        spec_pack_prefix(s, n - 1) | ((s[n - 1] as u64) << ((8 * (n - 1)) as u64))
    }
}

/// Packed prefix of up to the first 8 bytes of a key.
pub open spec fn spec_pack8(s: Seq<u8>) -> u64 {
    spec_pack_prefix(s, if s.len() >= 8 { 8int } else { s.len() as int })
}

/// Truncation of a packed word to the length of the key it came from.
pub open spec fn spec_create_hash(u: u64, p: int) -> u64 {
    if p >= 8 {
        u
    } else {
        u & (((1u64 << ((8 * p) as u64)) - 1) as u64)
    }
}

/// The 64-bit hash of a key.
pub open spec fn spec_key_hash(s: Seq<u8>) -> u64 {
    spec_create_hash(spec_pack8(s), s.len() as int)
}

/// Bucket index: FNV-style mix of the hash, masked to the table width.
pub open spec fn spec_hash_index(u: u64) -> int {
    ((((OFFSET64 ^ u) as nat * PRIME64 as nat) % 0x1_0000_0000_0000_0000nat) as u64
        & TABLE_MASK) as int
}

/// The bucket index is always within the table.
pub proof fn lemma_hash_index_range(u: u64)
    ensures
        0 <= spec_hash_index(u) < TABLE_SIZE as int,
{
    let x = (((OFFSET64 ^ u) as nat * PRIME64 as nat) % 0x1_0000_0000_0000_0000nat) as u64;
    assert(x & 4095u64 < 4096u64) by (bit_vector);
    assert(spec_hash_index(u) == (x & TABLE_MASK) as int);
}

/// A 64-bit key hash.
#[derive(Clone, Copy, PartialEq, Eq, Structural, Debug)]
pub struct Hash(pub u64);

impl Hash {
    /// Bucket index of this hash.
    pub fn index(self) -> (r: usize)
        ensures
            r == spec_hash_index(self.0),
            r < TABLE_SIZE,
    {
        let h = OFFSET64 ^ self.0;
        let m = h.wrapping_mul(PRIME64);
        let r = (m & TABLE_MASK) as usize;
        proof {
            assert(m & 4095u64 < 4096u64) by (bit_vector);
        }
        r
    }
}

/// Truncate a packed key word to `p` key bytes; beyond 8 bytes the prefix
/// word itself is the hash.
pub fn create_hash(u: u64, p: usize) -> (h: Hash)
    ensures
        h.0 == spec_create_hash(u, p as int),
{
    if p >= 8 {
        Hash(u)
    } else {
        let sh = (8 * p) as u64;
        proof {
            assert(1u64 << sh >= 1u64) by (bit_vector)
                requires sh < 64u64;
        }
        let m = (1u64 << sh) - 1;
        Hash(u & m)
    }
}

/// Pack up to the first 8 bytes of a key into a little-endian word.
pub fn city_hash8_prefix(bytes: &[u8]) -> (r: u64)
    ensures
        r == spec_pack8(bytes@),
{
    let n = if bytes.len() < 8 {
        bytes.len()
    } else {
        8
    };
    let mut acc: u64 = 0;
    let mut i: usize = 0;
    while i < n
        invariant
            i <= n,
            n <= bytes@.len(),
            n <= 8,
            n == (if bytes@.len() >= 8 { 8int } else { bytes@.len() as int }),
            acc == spec_pack_prefix(bytes@, i as int),
        decreases n - i,
    {
        acc = acc | ((bytes[i] as u64) << ((8 * i) as u64));
        i += 1;
    }
    acc
}

/// Hash of a whole key.
pub fn key_hash(key: &[u8]) -> (h: Hash)
    ensures
        h.0 == spec_key_hash(key@),
{
    let u = city_hash8_prefix(key);
    create_hash(u, key.len())
}

/// Running statistics of one station, in tenths of a degree.
pub ghost struct AggSpec {
    pub min: int,
    pub max: int,
    pub sum: int,
    pub count: int,
}

/// Aggregate with no observations: sentinels and zero accumulators.
pub open spec fn agg_empty() -> AggSpec {
    AggSpec { min: i32::MAX as int, max: i32::MIN as int, sum: 0, count: 0 }
}

/// Fold one observation into an aggregate.
pub open spec fn agg_add(a: AggSpec, v: int) -> AggSpec {
    AggSpec {
        min: if v < a.min { v } else { a.min },
        max: if v > a.max { v } else { a.max },
        sum: a.sum + v,
        count: a.count + 1,
    }
}

/// Pointwise fold of two aggregates of the same station.
pub open spec fn agg_merge(a: AggSpec, b: AggSpec) -> AggSpec {
    AggSpec {
        min: if a.min < b.min { a.min } else { b.min },
        max: if a.max > b.max { a.max } else { b.max },
        sum: a.sum + b.sum,
        count: a.count + b.count,
    }
}

/// The aggregate of `k` in `m`, or the empty aggregate.
pub open spec fn get_or_empty(m: Map<Seq<u8>, AggSpec>, k: Seq<u8>) -> AggSpec {
    if m.contains_key(k) {
        m[k]
    } else {
        agg_empty()
    }
}

/// Bounds every stored aggregate satisfies.
pub open spec fn wf_agg(a: AggSpec) -> bool {
    &&& 1 <= a.count <= MAX_COUNT
    &&& -999 * a.count <= a.sum <= 999 * a.count
    &&& -999 <= a.min <= a.max <= 999
}

/// The map named by parallel key/aggregate sequences of length `n`.
pub open spec fn map_of(names: Seq<Seq<u8>>, aggs: Seq<AggSpec>, n: int) -> Map<Seq<u8>, AggSpec>
    decreases n,
{
    if n <= 0 {
        Map::empty()
    } else {
        map_of(names, aggs, n - 1).insert(names[n - 1], aggs[n - 1])
    }
}

/// `map_of` only reads the first `n` elements.
pub proof fn lemma_map_of_prefix(
    names1: Seq<Seq<u8>>,
    aggs1: Seq<AggSpec>,
    names2: Seq<Seq<u8>>,
    aggs2: Seq<AggSpec>,
    n: int,
)
    requires
        forall|j: int| 0 <= j < n ==> names1[j] == names2[j] && aggs1[j] == aggs2[j],
    ensures
        map_of(names1, aggs1, n) == map_of(names2, aggs2, n),
    decreases n,
{
    if n > 0 {
        lemma_map_of_prefix(names1, aggs1, names2, aggs2, n - 1);
    }
}

/// Membership in `map_of` is membership among the first `n` names.
pub proof fn lemma_map_of_contains(names: Seq<Seq<u8>>, aggs: Seq<AggSpec>, n: int, k: Seq<u8>)
    ensures
        map_of(names, aggs, n).contains_key(k) <==> exists|j: int| 0 <= j < n && names[j] == k,
    decreases n,
{
    if n > 0 {
        lemma_map_of_contains(names, aggs, n - 1, k);
        if names[n - 1] == k {
            assert(0 <= n - 1 < n && names[n - 1] == k);
        }
    }
}

/// With pairwise distinct names, `map_of` looks up the paired aggregate.
pub proof fn lemma_map_of_lookup(names: Seq<Seq<u8>>, aggs: Seq<AggSpec>, n: int, j: int)
    requires
        0 <= j < n,
        forall|j1: int, j2: int| 0 <= j1 < j2 < n ==> names[j1] != names[j2],
    ensures
        map_of(names, aggs, n).contains_key(names[j]),
        map_of(names, aggs, n)[names[j]] == aggs[j],
    decreases n,
{
    if j < n - 1 {
        lemma_map_of_lookup(names, aggs, n - 1, j);
    }
}

/// With pairwise distinct names, updating one paired aggregate updates the map
/// at that name alone.
pub proof fn lemma_map_of_update(names: Seq<Seq<u8>>, aggs: Seq<AggSpec>, n: int, j: int, a: AggSpec)
    requires
        0 <= j < n,
        n <= names.len(),
        n <= aggs.len(),
        forall|j1: int, j2: int| 0 <= j1 < j2 < n ==> names[j1] != names[j2],
    ensures
        map_of(names, aggs.update(j, a), n) == map_of(names, aggs, n).insert(names[j], a),
    decreases n,
{
    if j == n - 1 {
        lemma_map_of_prefix(names, aggs.update(j, a), names, aggs, n - 1);
        assert(map_of(names, aggs.update(j, a), n) =~= map_of(names, aggs, n).insert(names[j], a));
    } else {
        lemma_map_of_update(names, aggs, n - 1, j, a);
        lemma_map_of_contains(names, aggs, n - 1, names[n - 1]);
        assert(map_of(names, aggs.update(j, a), n) =~= map_of(names, aggs, n).insert(names[j], a));
    }
}

/// The named map has a finite domain.
pub proof fn lemma_map_of_finite(names: Seq<Seq<u8>>, aggs: Seq<AggSpec>, n: int)
    ensures
        map_of(names, aggs, n).dom().finite(),
    decreases n,
{
    if n <= 0 {
        assert(map_of(names, aggs, n).dom() =~= Set::<Seq<u8>>::empty());
    } else {
        lemma_map_of_finite(names, aggs, n - 1);
    }
}

/// Partition hash table: arena of per-station aggregates in first-seen order,
/// with buckets of arena indices.
pub struct Table {
    buckets: Vec<Vec<usize>>,
    names: Vec<Vec<u8>>,
    mins: Vec<i32>,
    maxs: Vec<i32>,
    sums: Vec<i64>,
    counts: Vec<u64>,
}

impl Table {
    /// Station names in first-seen order.
    pub closed spec fn key_seq(self) -> Seq<Seq<u8>> {
        self.names@.map_values(|v: Vec<u8>| v@)
    }

    /// The aggregate stored at arena slot `j`.
    pub closed spec fn agg_at(self, j: int) -> AggSpec {
        AggSpec {
            min: self.mins@[j] as int,
            max: self.maxs@[j] as int,
            sum: self.sums@[j] as int,
            count: self.counts@[j] as int,
        }
    }

    /// All aggregates, in arena order.
    pub closed spec fn agg_seq(self) -> Seq<AggSpec> {
        Seq::new(self.names@.len(), |j: int| self.agg_at(j))
    }

    /// The mapping this table holds.
    pub closed spec fn view(self) -> Map<Seq<u8>, AggSpec> {
        map_of(self.key_seq(), self.agg_seq(), self.names@.len() as int)
    }

    /// Bucket that the `j`-th stored key routes to.
    pub closed spec fn bucket_of(self, j: int) -> int {
        spec_hash_index(spec_key_hash(self.key_seq()[j]))
    }

    /// The `j`-th node is listed in its bucket.
    pub closed spec fn in_bucket(self, j: int) -> bool {
        exists|k: int|
            0 <= k < self.buckets@[self.bucket_of(j)]@.len() && self.buckets@[self.bucket_of(
                j,
            )]@[k] as int == j
    }

    /// Structural invariant: parallel arrays agree, buckets route by hash,
    /// every node is reachable from its bucket, names are distinct, and every
    /// aggregate is within bounds.
    pub closed spec fn wf(self) -> bool {
        &&& self.buckets@.len() == TABLE_SIZE
        &&& self.names@.len() == self.mins@.len()
        &&& self.names@.len() == self.maxs@.len()
        &&& self.names@.len() == self.sums@.len()
        &&& self.names@.len() == self.counts@.len()
        &&& forall|b: int, k: int|
            0 <= b < TABLE_SIZE && 0 <= k < self.buckets@[b]@.len() ==> {
                &&& #[trigger] self.buckets@[b]@[k] < self.names@.len()
                &&& spec_hash_index(spec_key_hash(self.key_seq()[self.buckets@[b]@[k] as int])) == b
            }
        &&& forall|j: int|
            0 <= j < self.names@.len() ==> 0 <= #[trigger] self.bucket_of(j) < TABLE_SIZE
        &&& forall|j: int| 0 <= j < self.names@.len() ==> #[trigger] self.in_bucket(j)
        &&& forall|j1: int, j2: int|
            0 <= j1 < j2 < self.names@.len() ==> self.key_seq()[j1] != self.key_seq()[j2]
        &&& forall|j: int| 0 <= j < self.names@.len() ==> wf_agg(#[trigger] self.agg_seq()[j])
    }

    /// The key list enumerates the map's domain, without duplicates.
    pub proof fn lemma_keys(self)
        requires
            self.wf(),
        ensures
            forall|k: Seq<u8>|
                self@.contains_key(k) <==> #[trigger] self.key_seq().contains(k),
            forall|j1: int, j2: int|
                0 <= j1 < j2 < self.key_seq().len() ==> self.key_seq()[j1] != self.key_seq()[j2],
            forall|k: Seq<u8>| #[trigger] self@.contains_key(k) ==> wf_agg(self@[k]),
            self@.dom().finite(),
    {
        lemma_map_of_finite(self.key_seq(), self.agg_seq(), self.names@.len() as int);
        let n = self.names@.len() as int;
        assert forall|k: Seq<u8>| self@.contains_key(k) <==> #[trigger] self.key_seq().contains(k) by {
            lemma_map_of_contains(self.key_seq(), self.agg_seq(), n, k);
        }
        assert forall|k: Seq<u8>| #[trigger] self@.contains_key(k) implies wf_agg(self@[k]) by {
            lemma_map_of_contains(self.key_seq(), self.agg_seq(), n, k);
            let j = choose|j: int| 0 <= j < n && self.key_seq()[j] == k;
            lemma_map_of_lookup(self.key_seq(), self.agg_seq(), n, j);
        }
    }

    /// A fresh, empty table.
    pub fn new() -> (t: Table)
        ensures
            t.wf(),
            t@ == Map::<Seq<u8>, AggSpec>::empty(),
            t.key_seq() == Seq::<Seq<u8>>::empty(),
    {
        let mut buckets: Vec<Vec<usize>> = Vec::new();
        let mut b: usize = 0;
        while b < TABLE_SIZE
            invariant
                b <= TABLE_SIZE,
                buckets@.len() == b,
                forall|i: int| 0 <= i < b ==> #[trigger] buckets@[i]@.len() == 0,
            decreases TABLE_SIZE - b,
        {
            buckets.push(Vec::new());
            b += 1;
        }
        let t = Table {
            buckets,
            names: Vec::new(),
            mins: Vec::new(),
            maxs: Vec::new(),
            sums: Vec::new(),
            counts: Vec::new(),
        };
        proof {
            assert(t.key_seq() =~= Seq::<Seq<u8>>::empty());
            assert(t@ =~= Map::<Seq<u8>, AggSpec>::empty());
        }
        t
    }

    /// Number of distinct stations seen.
    pub fn num_keys(&self) -> (n: usize)
        ensures
            n == self.key_seq().len(),
    {
        self.names.len()
    }

    /// The `j`-th station name in first-seen order.
    pub fn key_at(&self, j: usize) -> (k: &Vec<u8>)
        requires
            j < self.key_seq().len(),
        ensures
            k@ == self.key_seq()[j as int],
    {
        &self.names[j]
    }

    /// Arena slot holding `key`, if the station was seen.
    fn find_slot(&self, h: Hash, key: &[u8]) -> (r: Option<usize>)
        requires
            self.wf(),
            h.0 == spec_key_hash(key@),
        ensures
            match r {
                Some(j) => j < self.key_seq().len() && self.key_seq()[j as int] == key@,
                None => !self@.contains_key(key@),
            },
    {
        let b = h.index();
        let chain: &Vec<usize> = &self.buckets[b];
        let mut k: usize = 0;
        while k < chain.len()
            invariant
                self.wf(),
                h.0 == spec_key_hash(key@),
                b == spec_hash_index(spec_key_hash(key@)),
                b < TABLE_SIZE,
                chain == self.buckets@[b as int],
                k <= chain@.len(),
                forall|kk: int|
                    0 <= kk < k ==> self.key_seq()[#[trigger] chain@[kk] as int] != key@,
            decreases chain@.len() - k,
        {
            let j = chain[k];
            if bytes_eq(self.names[j].as_slice(), key) {
                return Some(j);
            }
            k += 1;
        }
        proof {
            lemma_map_of_contains(
                self.key_seq(),
                self.agg_seq(),
                self.names@.len() as int,
                key@,
            );
            if self@.contains_key(key@) {
                let j = choose|j: int| 0 <= j < self.names@.len() && self.key_seq()[j] == key@;
                assert(self.in_bucket(j));
                assert(self.bucket_of(j) == b as int);
                let kk = choose|kk: int|
                    0 <= kk < self.buckets@[self.bucket_of(j)]@.len() && self.buckets@[
                        self.bucket_of(j)
                    ]@[kk] as int == j;
                assert(self.key_seq()[chain@[kk] as int] != key@);
                assert(false);
            }
        }
        None
    }

    /// Read-only lookup of a station's aggregate: `(min, max, sum, count)`.
    pub fn find(&self, h: Hash, key: &[u8]) -> (r: Option<(i32, i32, i64, u64)>)
        requires
            self.wf(),
            h.0 == spec_key_hash(key@),
        ensures
            match r {
                Some(a) => self@.contains_key(key@) && self@[key@] == (AggSpec {
                    min: a.0 as int,
                    max: a.1 as int,
                    sum: a.2 as int,
                    count: a.3 as int,
                }),
                None => !self@.contains_key(key@),
            },
    {
        match self.find_slot(h, key) {
            Some(j) => {
                proof {
                    lemma_map_of_lookup(
                        self.key_seq(),
                        self.agg_seq(),
                        self.names@.len() as int,
                        j as int,
                    );
                }
                Some((self.mins[j], self.maxs[j], self.sums[j], self.counts[j]))
            },
            None => None,
        }
    }

    /// Fold one more observation into the aggregate at arena slot `j`.
    fn fold_at(&mut self, j: usize, value: i32)
        requires
            old(self).wf(),
            j < old(self).key_seq().len(),
            -999 <= value <= 999,
            old(self).agg_at(j as int).count < MAX_COUNT,
        ensures
            final(self).wf(),
            final(self).key_seq() == old(self).key_seq(),
            final(self)@ == old(self)@.insert(
                old(self).key_seq()[j as int],
                agg_add(old(self).agg_at(j as int), value as int),
            ),
    {
        let ghost n = self.names@.len() as int;
        let ghost olda = self.agg_at(j as int);
        proof {
            assert(wf_agg(old(self).agg_seq()[j as int]));
            assert(olda.sum <= 999 * MAX_COUNT && -999 * MAX_COUNT <= olda.sum)
                by (nonlinear_arith)
                requires
                    -999 * olda.count <= olda.sum <= 999 * olda.count,
                    1 <= olda.count <= MAX_COUNT,
            ;
        }
        if value < self.mins[j] {
            self.mins[j] = value;
        }
        if value > self.maxs[j] {
            self.maxs[j] = value;
        }
        let s = self.sums[j];
        let c = self.counts[j];
        self.sums[j] = s + value as i64;
        self.counts[j] = c + 1;
        proof {
            let ghost nt = *self;
            let ghost ot = *old(self);
            let ghost na = agg_add(olda, value as int);
            assert(nt.agg_seq() =~= ot.agg_seq().update(j as int, na));
            assert forall|jj: int|
                0 <= jj < nt.names@.len() implies wf_agg(#[trigger] nt.agg_seq()[jj]) by {
                assert(wf_agg(ot.agg_seq()[jj]));
                if jj == j as int {
                    assert(nt.agg_seq()[jj] == na);
                } else {
                    assert(nt.agg_seq()[jj] == ot.agg_seq()[jj]);
                }
            }
            assert forall|jj: int|
                0 <= jj < nt.names@.len() implies 0 <= #[trigger] nt.bucket_of(jj)
                < TABLE_SIZE by {
                assert(nt.bucket_of(jj) == ot.bucket_of(jj));
            }
            lemma_map_of_update(ot.key_seq(), ot.agg_seq(), n, j as int, na);
            lemma_map_of_prefix(nt.key_seq(), ot.agg_seq().update(j as int, na), ot.key_seq(),
                ot.agg_seq().update(j as int, na), n);
            assert forall|jj: int| 0 <= jj < nt.names@.len() implies #[trigger] nt.in_bucket(
                jj,
            ) by {
                assert(ot.in_bucket(jj));
                let bb = ot.bucket_of(jj);
                let kk = choose|kk: int|
                    0 <= kk < ot.buckets@[bb]@.len() && ot.buckets@[bb]@[kk] as int == jj;
                assert(nt.bucket_of(jj) == bb);
                assert(nt.buckets@[bb]@[kk] as int == jj);
            }
        }
    }

    /// Append a station seen for the first time, with its first observation.
    fn push_new(&mut self, b: usize, key: &[u8], value: i32)
        requires
            old(self).wf(),
            !old(self)@.contains_key(key@),
            b as int == spec_hash_index(spec_key_hash(key@)),
            b < TABLE_SIZE,
            -999 <= value <= 999,
        ensures
            final(self).wf(),
            final(self)@ == old(self)@.insert(key@, agg_add(agg_empty(), value as int)),
            final(self).key_seq() == old(self).key_seq().push(key@),
    {
        let ghost n = self.names@.len() as int;
        proof {
            lemma_map_of_contains(self.key_seq(), self.agg_seq(), n, key@);
        }
        let j = self.names.len();
        self.names.push(slice_to_vec_u8(key));
        self.mins.push(value);
        self.maxs.push(value);
        self.sums.push(value as i64);
        self.counts.push(1);
        let chain: &Vec<usize> = &self.buckets[b];
        let mut nb = copy_usize_vec(chain);
        nb.push(j);
        self.buckets[b] = nb;
        proof {
            let ghost nt = *self;
            let ghost ot = *old(self);
            assert(nt.key_seq() =~= ot.key_seq().push(key@));
            assert(nt.agg_seq() =~= ot.agg_seq().push(agg_add(agg_empty(), value as int)));
            lemma_map_of_prefix(nt.key_seq(), nt.agg_seq(), ot.key_seq(), ot.agg_seq(), n);
            assert(nt@ == map_of(nt.key_seq(), nt.agg_seq(), n).insert(
                key@,
                agg_add(agg_empty(), value as int),
            ));
            // buckets: the new chain extends the old one by `j`.
            assert forall|bb: int, k: int|
                0 <= bb < TABLE_SIZE && 0 <= k < nt.buckets@[bb]@.len() implies {
                &&& #[trigger] nt.buckets@[bb]@[k] < nt.names@.len()
                &&& spec_hash_index(spec_key_hash(nt.key_seq()[nt.buckets@[bb]@[k] as int]))
                    == bb
            } by {
                if bb == b && k == nt.buckets@[bb]@.len() - 1 {
                    assert(nt.buckets@[bb]@[k] == j);
                } else {
                    assert(nt.buckets@[bb]@[k] == ot.buckets@[bb]@[k]);
                    assert(ot.buckets@[bb]@[k] < ot.names@.len());
                }
            }
            assert forall|jj: int|
                0 <= jj < nt.names@.len() implies 0 <= #[trigger] nt.bucket_of(jj)
                < TABLE_SIZE by {
                lemma_hash_index_range(spec_key_hash(nt.key_seq()[jj]));
            }
            assert forall|jj: int| 0 <= jj < nt.names@.len() implies #[trigger] nt.in_bucket(
                jj,
            ) by {
                if jj == n {
                    assert(nt.key_seq()[jj] == key@);
                    assert(nt.bucket_of(jj) == b as int);
                    let kn = nt.buckets@[b as int]@.len() - 1;
                    assert(nt.buckets@[b as int]@[kn] as int == jj);
                } else {
                    assert(ot.in_bucket(jj));
                    let bb = ot.bucket_of(jj);
                    assert(nt.bucket_of(jj) == bb);
                    let kk = choose|kk: int|
                        0 <= kk < ot.buckets@[bb]@.len() && ot.buckets@[bb]@[kk] as int == jj;
                    if bb == b as int {
                        assert(nt.buckets@[bb]@[kk] as int == jj);
                    } else {
                        assert(nt.buckets@[bb] == ot.buckets@[bb]);
                        assert(nt.buckets@[bb]@[kk] as int == jj);
                    }
                }
            }
        }
    }

    /// Fold one observation of `key` into the table, creating the station's
    /// aggregate on first sight.
    pub fn record(&mut self, h: Hash, key: &[u8], value: i32)
        requires
            old(self).wf(),
            h.0 == spec_key_hash(key@),
            -999 <= value <= 999,
            old(self)@.contains_key(key@) ==> old(self)@[key@].count < MAX_COUNT,
        ensures
            final(self).wf(),
            final(self)@ == old(self)@.insert(
                key@,
                agg_add(get_or_empty(old(self)@, key@), value as int),
            ),
            final(self).key_seq() == if old(self)@.contains_key(key@) {
                old(self).key_seq()
            } else {
                old(self).key_seq().push(key@)
            },
    {
        let ghost n = self.names@.len() as int;
        match self.find_slot(h, key) {
            Some(j) => {
                proof {
                    lemma_map_of_lookup(self.key_seq(), self.agg_seq(), n, j as int);
                }
                self.fold_at(j, value);
            },
            None => {
                proof {
                    lemma_hash_index_range(spec_key_hash(key@));
                }
                let b = h.index();
                self.push_new(b, key, value);
            },
        }
    }
}

/// Byte-for-byte equality of two byte strings.
pub fn bytes_eq(a: &[u8], b: &[u8]) -> (r: bool)
    ensures
        r == (a@ == b@),
{
    if a.len() != b.len() {
        proof {
            assert(a@ != b@);
        }
        return false;
    }
    let n = a.len();
    let mut i: usize = 0;
    while i < n
        invariant
            i <= n,
            n == a@.len(),
            n == b@.len(),
            forall|k: int| 0 <= k < i ==> a@[k] == b@[k],
        decreases n - i,
    {
        if a[i] != b[i] {
            proof {
                assert(a@[i as int] != b@[i as int]);
            }
            return false;
        }
        i += 1;
    }
    proof {
        assert(a@ =~= b@);
    }
    true
}

/// Copy of a byte slice as an owned vector.
pub fn slice_to_vec_u8(s: &[u8]) -> (v: Vec<u8>)
    ensures
        v@ == s@,
{
    let mut v: Vec<u8> = Vec::new();
    let n = s.len();
    let mut i: usize = 0;
    while i < n
        invariant
            i <= n,
            n == s@.len(),
            v@ == s@.take(i as int),
        decreases n - i,
    {
        v.push(s[i]);
        proof {
            assert(v@ =~= s@.take(i + 1));
        }
        i += 1;
    }
    proof {
        assert(s@.take(n as int) =~= s@);
    }
    v
}

/// Copy of an index vector.
fn copy_usize_vec(s: &Vec<usize>) -> (v: Vec<usize>)
    ensures
        v@ == s@,
{
    let mut v: Vec<usize> = Vec::new();
    let n = s.len();
    let mut i: usize = 0;
    while i < n
        invariant
            i <= n,
            n == s@.len(),
            v@ == s@.take(i as int),
        decreases n - i,
    {
        v.push(s[i]);
        proof {
            assert(v@ =~= s@.take(i + 1));
        }
        i += 1;
    }
    proof {
        assert(s@.take(n as int) =~= s@);
    }
    v
}

} // verus!
