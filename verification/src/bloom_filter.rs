//! The Bloom filter of one bundle: a byte per position, set to one at the
//! positions that the keys of the bundle hash to. It may say that a key is
//! there when it is not, and never the reverse.
use crate::error::DbError;
use std::collections::hash_map::DefaultHasher;
use std::hash::Hasher;
use vstd::prelude::*;
use vstd::std_specs::hash::DefaultHasherAdditionalSpecFns;
use vstd::utf8::encode_utf8;

verus! {

/// The number of positions of a filter made by `default`.
pub const DEFAULT_SIZE: usize = 65536;

/// The number of hash rounds of a filter made by `default`.
pub const DEFAULT_HASHES: u8 = 5;

/// What has been written to the hasher when round `round` is read off: the
/// key, then the numbers of the rounds so far, one byte each.
pub open spec fn hash_feed(key: Seq<u8>, round: nat) -> Seq<Seq<u8>>
    decreases round,
{
    if round == 0 {
        seq![key, seq![0u8]]
    } else {
        hash_feed(key, (round - 1) as nat).push(seq![round as u8])
    }
}

/// The position that round `round` gives for `key` in a filter of `size`
/// positions.
pub open spec fn spec_index(key: Seq<char>, round: nat, size: nat) -> int {
    DefaultHasher::spec_finish(hash_feed(encode_utf8(key), round)) as int % size as int
}

/// Position `p` is one that some round below `n_hashes` gives for `key`.
pub open spec fn hits(key: Seq<char>, n_hashes: nat, size: nat, p: int) -> bool {
    exists|round: nat| round < n_hashes && p == #[trigger] spec_index(key, round, size)
}

/// Every position that `key` hashes to is set.
pub open spec fn spec_may_contain(bits: Seq<u8>, n_hashes: nat, key: Seq<char>) -> bool {
    forall|round: nat|
        round < n_hashes ==> bits[#[trigger] spec_index(key, round, bits.len())] == 1
}

/// The filter after `key` was added: one at the positions that `key` hashes
/// to, unchanged elsewhere.
pub open spec fn spec_add_key(bits: Seq<u8>, n_hashes: nat, key: Seq<char>) -> Seq<u8> {
    Seq::new(
        bits.len(),
        |p: int|
            if hits(key, n_hashes, bits.len(), p) {
                1u8
            } else {
                bits[p]
            },
    )
}

/// The bytes of a filter on disk: the positions, then the number of rounds.
pub open spec fn spec_bloom_bytes(bits: Seq<u8>, n_hashes: u8) -> Seq<u8> {
    bits.push(n_hashes)
}

/// Turns keys into positions of a filter.
#[derive(Debug)]
pub struct BloomHasher {
    pub size: usize,
    pub n_hashes: u8,
}

impl BloomHasher {
    /// The positions of `key`, one for each round, in the order of the
    /// rounds.
    pub fn hash_key(&self, key: &str) -> (indices: Vec<usize>)
        requires
            self.size > 0,
        ensures
            indices@.len() == self.n_hashes,
            forall|round: nat|
                round < self.n_hashes ==> indices@[round as int] == #[trigger] spec_index(
                    key@,
                    round,
                    self.size as nat,
                ),
            forall|i: int| 0 <= i < indices@.len() ==> indices@[i] < self.size,
    {
        let mut indices: Vec<usize> = Vec::new();
        let mut hasher = DefaultHasher::new();
        hasher.write(key.as_bytes());
        let mut idx: u8 = 0;
        while idx < self.n_hashes
            invariant
                self.size > 0,
                idx <= self.n_hashes,
                indices@.len() == idx,
                hasher@ == if idx == 0 {
                    seq![encode_utf8(key@)]
                } else {
                    hash_feed(encode_utf8(key@), (idx - 1) as nat)
                },
                forall|round: nat|
                    round < idx ==> indices@[round as int] == #[trigger] spec_index(
                        key@,
                        round,
                        self.size as nat,
                    ),
                forall|i: int| 0 <= i < indices@.len() ==> indices@[i] < self.size,
            decreases self.n_hashes - idx,
        {
            let round_byte: [u8; 1] = [idx];
            hasher.write(vstd::array::array_as_slice(&round_byte));
            assert(round_byte@ =~= seq![idx]);
            assert(hasher@ =~= hash_feed(encode_utf8(key@), idx as nat));
            let hash: u64 = hasher.finish();
            let index: usize = (hash % (self.size as u64)) as usize;
            indices.push(index);
            idx += 1;
        }
        indices
    }
}

/// A Bloom filter over string keys.
#[derive(Debug)]
pub struct DefaultBloomFilter {
    filter: Vec<u8>,
    hasher: BloomHasher,
}

impl DefaultBloomFilter {
    /// The positions of the filter.
    pub closed spec fn bits(&self) -> Seq<u8> {
        self.filter@
    }

    /// The number of hash rounds.
    pub closed spec fn n_hashes(&self) -> u8 {
        self.hasher.n_hashes
    }

    /// The filter has at least one position, and its hasher knows how many.
    pub closed spec fn wf(&self) -> bool {
        &&& self.filter@.len() > 0
        &&& self.hasher.size == self.filter@.len()
    }

    /// Whether the filter accepts that `key` may have been added.
    pub open spec fn may_contain(&self, key: Seq<char>) -> bool {
        spec_may_contain(self.bits(), self.n_hashes() as nat, key)
    }

    /// A filter of `size` positions, none set, with `n_hashes` rounds.
    pub fn new(size: usize, n_hashes: u8) -> (r: Self)
        requires
            size > 0,
        ensures
            r.wf(),
            r.bits() == Seq::new(size as nat, |i: int| 0u8),
            r.n_hashes() == n_hashes,
    {
        let mut filter: Vec<u8> = Vec::new();
        let mut i: usize = 0;
        while i < size
            invariant
                i <= size,
                filter@.len() == i,
                forall|j: int| 0 <= j < i ==> filter@[j] == 0u8,
            decreases size - i,
        {
            filter.push(0u8);
            i += 1;
        }
        assert(filter@ =~= Seq::new(size as nat, |i: int| 0u8));
        DefaultBloomFilter { filter, hasher: BloomHasher { size, n_hashes } }
    }

    /// Reads a filter from the bytes of its file: the positions, followed by
    /// one byte that holds the number of rounds. Fewer than two bytes are no
    /// filter.
    pub fn try_from(bytes: Vec<u8>) -> (r: Result<Self, DbError>)
        ensures
            bytes@.len() < 2 <==> r is Err,
            r matches Err(e) ==> e == DbError::Decode,
            r matches Ok(f) ==> f.wf() && spec_bloom_bytes(f.bits(), f.n_hashes()) == bytes@,
    {
        let mut bytes = bytes;
        if bytes.len() < 2 {
            return Err(DbError::Decode);
        }
        let ghost all = bytes@;
        let n_hashes = bytes.remove(bytes.len() - 1);
        let size = bytes.len();
        assert(bytes@.push(n_hashes) =~= all);
        Ok(DefaultBloomFilter { filter: bytes, hasher: BloomHasher { size, n_hashes } })
    }

    /// The bytes of the filter's file.
    pub fn into_bytes(self) -> (bytes: Vec<u8>)
        ensures
            bytes@ == spec_bloom_bytes(self.bits(), self.n_hashes()),
    {
        let mut value = self;
        value.filter.push(value.hasher.n_hashes);
        value.filter
    }

    /// Sets the positions that `key` hashes to.
    pub fn add_key(&mut self, key: &str)
        requires
            old(self).wf(),
        ensures
            final(self).wf(),
            final(self).n_hashes() == old(self).n_hashes(),
            final(self).bits() == spec_add_key(old(self).bits(), old(self).n_hashes() as nat, key@),
            final(self).may_contain(key@),
            forall|other: Seq<char>| old(self).may_contain(other) ==> final(self).may_contain(other),
    {
        let indices = self.hasher.hash_key(key);
        let ghost before = self.filter@;
        let ghost n = self.hasher.n_hashes as nat;
        let ghost size = before.len();
        let mut i: usize = 0;
        while i < indices.len()
            invariant
                i <= indices@.len(),
                indices@.len() == n,
                n == self.hasher.n_hashes,
                self.hasher.size == size,
                size > 0,
                self.filter@.len() == size,
                before.len() == size,
                forall|round: nat|
                    round < n ==> indices@[round as int] == #[trigger] spec_index(key@, round, size),
                forall|j: int| 0 <= j < indices@.len() ==> indices@[j] < size,
                forall|p: int|
                    0 <= p < size ==> self.filter@[p] == if hits(key@, i as nat, size, p) {
                        1u8
                    } else {
                        before[p]
                    },
            decreases indices@.len() - i,
        {
            let at: usize = indices[i];
            let ghost prev = self.filter@;
            self.filter.set(at, 1u8);
            proof {
                assert(at == spec_index(key@, i as nat, size));
                assert forall|p: int| 0 <= p < size implies self.filter@[p] == if hits(
                    key@,
                    (i + 1) as nat,
                    size,
                    p,
                ) {
                    1u8
                } else {
                    before[p]
                } by {
                    if hits(key@, i as nat, size, p) {
                        let r = choose|round: nat|
                            round < i && p == #[trigger] spec_index(key@, round, size);
                        assert(r < i + 1 && p == spec_index(key@, r, size));
                    }
                    if hits(key@, (i + 1) as nat, size, p) && !hits(key@, i as nat, size, p) {
                        let r = choose|round: nat|
                            round < i + 1 && p == #[trigger] spec_index(key@, round, size);
                        assert(r == i);
                    }
                    if p == at {
                        assert(hits(key@, (i + 1) as nat, size, p));
                    }
                }
            }
            i += 1;
        }
        proof {
            assert(self.filter@ =~= spec_add_key(before, n, key@));
            lemma_add_key(before, n, key@);
        }
    }

    /// Whether `key` may have been added: false only if it never was.
    pub fn may_contain_key(&self, key: &str) -> (b: bool)
        requires
            self.wf(),
        ensures
            b == self.may_contain(key@),
    {
        let indices = self.hasher.hash_key(key);
        let ghost size = self.filter@.len();
        let mut i: usize = 0;
        while i < indices.len()
            invariant
                i <= indices@.len(),
                indices@.len() == self.hasher.n_hashes,
                self.filter@.len() == size,
                forall|round: nat|
                    round < indices@.len() ==> indices@[round as int] == #[trigger] spec_index(
                        key@,
                        round,
                        size,
                    ),
                forall|j: int| 0 <= j < indices@.len() ==> indices@[j] < size,
                forall|round: nat|
                    round < i ==> self.filter@[#[trigger] spec_index(key@, round, size)] == 1,
            decreases indices@.len() - i,
        {
            if self.filter[indices[i]] != 1 {
                assert(indices@[i as int] == spec_index(key@, i as nat, size));
                return false;
            }
            assert(indices@[i as int] == spec_index(key@, i as nat, size));
            i += 1;
        }
        true
    }
}

impl Default for DefaultBloomFilter {
    fn default() -> (r: Self)
        ensures
            r.wf(),
            r.bits() == Seq::new(DEFAULT_SIZE as nat, |i: int| 0u8),
            r.n_hashes() == DEFAULT_HASHES,
    {
        DefaultBloomFilter::new(DEFAULT_SIZE, DEFAULT_HASHES)
    }
}

/// Each position that a key hashes to lies inside the filter.
pub proof fn lemma_index_in_range(key: Seq<char>, round: nat, size: nat)
    requires
        size > 0,
    ensures
        0 <= spec_index(key, round, size) < size,
{
}

/// A filter accepts every key that was added to it, and adding a key takes
/// back nothing that it accepted before.
pub proof fn lemma_add_key(bits: Seq<u8>, n_hashes: nat, key: Seq<char>)
    requires
        bits.len() > 0,
    ensures
        spec_may_contain(spec_add_key(bits, n_hashes, key), n_hashes, key),
        forall|other: Seq<char>|
            spec_may_contain(bits, n_hashes, other) ==> spec_may_contain(
                spec_add_key(bits, n_hashes, key),
                n_hashes,
                other,
            ),
{
    let after = spec_add_key(bits, n_hashes, key);
    assert forall|round: nat| round < n_hashes implies after[#[trigger] spec_index(
        key,
        round,
        after.len(),
    )] == 1 by {
        lemma_index_in_range(key, round, bits.len());
        assert(hits(key, n_hashes, bits.len(), spec_index(key, round, bits.len())));
    }
    assert forall|other: Seq<char>| spec_may_contain(bits, n_hashes, other) implies spec_may_contain(
        after,
        n_hashes,
        other,
    ) by {
        assert forall|round: nat| round < n_hashes implies after[#[trigger] spec_index(
            other,
            round,
            after.len(),
        )] == 1 by {
            lemma_index_in_range(other, round, bits.len());
        }
    }
}

/// A filter that is written out and read back is the same filter.
pub proof fn lemma_bloom_bytes_injective(a: Seq<u8>, n: u8, b: Seq<u8>, m: u8)
    requires
        spec_bloom_bytes(a, n) == spec_bloom_bytes(b, m),
    ensures
        a == b,
        n == m,
{
    assert(a.push(n).len() == b.push(m).len());
    assert(a.push(n).last() == n);
    assert(b.push(m).last() == m);
    assert(a =~= a.push(n).drop_last());
    assert(b =~= b.push(m).drop_last());
}

} // verus!
