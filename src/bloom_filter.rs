//! A bloom filter: a bit array and a number of hash rounds. Round `i` of a
//! value sets, or tests, the bit at the value's MurmurHash3 with seed `i`,
//! modulo the number of bits.
use vstd::prelude::*;

verus! {

/// MurmurHash3 (x86, 32 bits) of the UTF-8 bytes of `v`, with seed `seed`.
pub uninterp spec fn murmur3_32(v: Seq<char>, seed: u32) -> u32;

/// Relies on `fasthash::murmur3::hash32_with_seed`: the hash depends on the
/// value's bytes and the seed alone. The byte length is passed on as an `i32`,
/// so it must fit there; a character takes at most four bytes in UTF-8.
#[verifier::external_body]
fn murmur3(value: &str, seed: u32) -> (r: u32)
    requires
        4 * value@.len() <= i32::MAX,
    ensures
        r == murmur3_32(value@, seed),
{
    fasthash::murmur3::hash32_with_seed(value, seed)
}

/// The bit that round `round` of value `v` picks among `num_bits` bits.
pub open spec fn bit_index(v: Seq<char>, round: int, num_bits: int) -> int {
    (murmur3_32(v, round as u32) as int) % num_bits
}

/// The bits that the first `rounds` rounds of value `v` pick.
pub open spec fn picked_bits(v: Seq<char>, rounds: int, num_bits: int) -> Set<int> {
    Set::new(|p: int| exists|i: int| 0 <= i < rounds && p == bit_index(v, i, num_bits))
}

/// Whether bit `s` of byte `b` is set.
pub open spec fn byte_bit(b: u8, s: int) -> bool {
    (b >> (s as u8)) & 1u8 == 1u8
}

proof fn lemma_set_bit(b: u8, s: u8, t: u8)
    requires
        s < 8,
        t < 8,
    ensures
        ((b | (1u8 << s)) >> t) & 1u8 == (if s == t {
            1u8
        } else {
            (b >> t) & 1u8
        }),
{
    assert(((b | (1u8 << s)) >> t) & 1u8 == (if s == t {
        1u8
    } else {
        (b >> t) & 1u8
    })) by (bit_vector)
        requires
            s < 8,
            t < 8,
    ;
}

proof fn lemma_zero_byte(s: u8)
    ensures
        (0u8 >> s) & 1u8 == 0u8,
{
    assert((0u8 >> s) & 1u8 == 0u8) by (bit_vector);
}

pub struct BloomFilter {
    bitvec: Vec<u8>,
    hashes: usize,
}

impl BloomFilter {
    /// The number of bits.
    pub closed spec fn num_bits(&self) -> int {
        8 * self.bitvec@.len() as int
    }

    /// The number of hash rounds.
    pub closed spec fn num_hashes(&self) -> int {
        self.hashes as int
    }

    /// The bits that are set.
    pub closed spec fn bits(&self) -> Set<int> {
        Set::new(|p: int| 0 <= p < self.num_bits() && byte_bit(self.bitvec@[p / 8], p % 8))
    }

    /// Whether every bit that value `v` picks is set.
    pub closed spec fn may_contain(&self, v: Seq<char>) -> bool {
        forall|i: int|
            0 <= i < self.num_hashes() ==> self.bits().contains(
                #[trigger] bit_index(v, i, self.num_bits()),
            )
    }

    /// The filter's invariant: it has bits, their number fits in `u32`, and so
    /// does each round's seed.
    pub closed spec fn wf(&self) -> bool {
        &&& 0 < self.bitvec@.len()
        &&& 8 * self.bitvec@.len() <= u32::MAX
        &&& self.hashes <= u32::MAX
    }

    /// An empty filter of `num_bytes` bytes that hashes each value `hashes` times.
    pub fn with_sizes(num_bytes: usize, hashes: usize) -> (r: Self)
        requires
            0 < num_bytes,
            8 * num_bytes <= u32::MAX,
            hashes <= u32::MAX,
        ensures
            r.wf(),
            r.num_bits() == 8 * num_bytes,
            r.num_hashes() == hashes,
            r.bits() == Set::<int>::empty(),
    {
        let mut bitvec: Vec<u8> = Vec::new();
        let mut i: usize = 0;
        while i < num_bytes
            invariant
                i <= num_bytes,
                bitvec@.len() == i,
                forall|j: int| 0 <= j < i ==> #[trigger] bitvec@[j] == 0u8,
            decreases num_bytes - i,
        {
            bitvec.push(0u8);
            i += 1;
        }
        let r = BloomFilter { bitvec, hashes };
        assert forall|p: int| 0 <= p < r.num_bits() implies !#[trigger] byte_bit(r.bitvec@[p / 8], p % 8) by {
            assert(r.bitvec@[p / 8] == 0u8);
            lemma_zero_byte((p % 8) as u8);
        }
        assert(r.bits() =~= Set::<int>::empty());
        r
    }

    /// The bit that round `round` of `value` picks.
    fn index_of(&self, value: &str, round: usize) -> (r: usize)
        requires
            4 * value@.len() <= i32::MAX,
            self.wf(),
            round < self.hashes,
        ensures
            r == bit_index(value@, round as int, self.num_bits()),
            r < self.num_bits(),
    {
        self.bit_for_hash(murmur3(value, round as u32))
    }

    /// The bit that a round picks when its hash is `hash`.
    pub fn bit_for_hash(&self, hash: u32) -> (r: usize)
        requires
            self.wf(),
        ensures
            r == hash as int % self.num_bits(),
            r < self.num_bits(),
    {
        let num_bits = (self.bitvec.len() * 8) as u32;
        (hash % num_bits) as usize
    }

    /// Sets the bits that `value` picks.
    pub fn insert(&mut self, value: &str)
        requires
            4 * value@.len() <= i32::MAX,
            old(self).wf(),
        ensures
            final(self).wf(),
            final(self).num_bits() == old(self).num_bits(),
            final(self).num_hashes() == old(self).num_hashes(),
            final(self).bits() == old(self).bits().union(
                picked_bits(value@, old(self).num_hashes(), old(self).num_bits()),
            ),
            final(self).may_contain(value@),
            forall|v: Seq<char>| old(self).may_contain(v) ==> #[trigger] final(self).may_contain(v),
    {
        let ghost pre = *self;
        let mut i: usize = 0;
        proof {
            assert(picked_bits(value@, 0, pre.num_bits()) =~= Set::<int>::empty());
            assert(self.bits() =~= pre.bits().union(picked_bits(value@, 0, pre.num_bits())));
        }
        while i < self.hashes
            invariant
                self.wf(),
                4 * value@.len() <= i32::MAX,
                self.hashes == pre.hashes,
                self.bitvec@.len() == pre.bitvec@.len(),
                i <= self.hashes,
                self.bits() == pre.bits().union(picked_bits(value@, i as int, pre.num_bits())),
            decreases self.hashes - i,
        {
            let pos = self.index_of(value, i);
            let ghost before = self.bits();
            let byte = self.bitvec[pos / 8];
            self.bitvec.set(pos / 8, byte | (1u8 << ((pos % 8) as u8)));
            proof {
                assert forall|p: int| #[trigger] self.bits().contains(p) <==> (before.contains(p) || p == pos) by {
                    if 0 <= p < self.num_bits() {
                        if p / 8 == pos / 8 {
                            lemma_set_bit(byte, (pos % 8) as u8, (p % 8) as u8);
                        }
                    }
                }
                assert(self.bits() =~= before.insert(pos as int));
                assert(picked_bits(value@, i + 1, pre.num_bits()) =~= picked_bits(value@, i as int, pre.num_bits()).insert(pos as int));
                assert(self.bits() =~= pre.bits().union(picked_bits(value@, i + 1, pre.num_bits())));
            }
            i += 1;
        }
        proof {
            assert forall|j: int| 0 <= j < self.num_hashes() implies self.bits().contains(
                #[trigger] bit_index(value@, j, self.num_bits()),
            ) by {
                assert(picked_bits(value@, i as int, pre.num_bits()).contains(bit_index(value@, j, self.num_bits())));
            }
            assert forall|v: Seq<char>| pre.may_contain(v) implies #[trigger] self.may_contain(v) by {
                assert forall|j: int| 0 <= j < self.num_hashes() implies self.bits().contains(
                    #[trigger] bit_index(v, j, self.num_bits()),
                ) by {
                    assert(pre.bits().contains(bit_index(v, j, pre.num_bits())));
                }
            }
        }
    }

    /// Whether every bit that `value` picks is set: false means that `value`
    /// was never inserted.
    pub fn get(&self, value: &str) -> (r: bool)
        requires
            4 * value@.len() <= i32::MAX,
            self.wf(),
        ensures
            r == self.may_contain(value@),
    {
        let mut i: usize = 0;
        while i < self.hashes
            invariant
                self.wf(),
                4 * value@.len() <= i32::MAX,
                i <= self.hashes,
                forall|j: int| 0 <= j < i ==> self.bits().contains(
                    #[trigger] bit_index(value@, j, self.num_bits()),
                ),
            decreases self.hashes - i,
        {
            let pos = self.index_of(value, i);
            if (self.bitvec[pos / 8] >> ((pos % 8) as u8)) & 1u8 != 1u8 {
                proof {
                    assert(!self.bits().contains(bit_index(value@, i as int, self.num_bits())));
                }
                return false;
            }
            assert(self.bits().contains(pos as int));
            i += 1;
        }
        true
    }
}

/// A value inserted into a filter is reported as possibly present from then
/// on, whatever is inserted after it: the filter has no false negatives.
/// `filters[j + 1]` is `filters[j]` after `insert(values[j])`.
pub proof fn law_no_false_negatives(filters: Seq<BloomFilter>, values: Seq<Seq<char>>)
    requires
        filters.len() == values.len() + 1,
        forall|j: int|
            0 <= j < values.len() ==> (#[trigger] filters[j + 1]).bits() == filters[j].bits().union(
                picked_bits(values[j], filters[j].num_hashes(), filters[j].num_bits()),
            ) && filters[j + 1].num_bits() == filters[j].num_bits() && filters[j + 1].num_hashes()
                == filters[j].num_hashes(),
    ensures
        forall|j: int| 0 <= j < values.len() ==> filters.last().may_contain(#[trigger] values[j]),
{
    let n = values.len() as int;
    lemma_bits_grow(filters, values, n);
    assert forall|j: int| 0 <= j < n implies filters.last().may_contain(#[trigger] values[j]) by {
        let f = filters[j];
        let g = filters[j + 1];
        assert forall|i: int| 0 <= i < filters.last().num_hashes() implies filters.last().bits().contains(
            #[trigger] bit_index(values[j], i, filters.last().num_bits()),
        ) by {
            assert(picked_bits(values[j], f.num_hashes(), f.num_bits()).contains(bit_index(values[j], i, f.num_bits())));
            assert(g.bits().contains(bit_index(values[j], i, f.num_bits())));
        }
    }
}

proof fn lemma_bits_grow(filters: Seq<BloomFilter>, values: Seq<Seq<char>>, b: int)
    requires
        filters.len() == values.len() + 1,
        forall|j: int|
            0 <= j < values.len() ==> (#[trigger] filters[j + 1]).bits() == filters[j].bits().union(
                picked_bits(values[j], filters[j].num_hashes(), filters[j].num_bits()),
            ) && filters[j + 1].num_bits() == filters[j].num_bits() && filters[j + 1].num_hashes()
                == filters[j].num_hashes(),
        0 <= b <= values.len(),
    ensures
        forall|a: int|
            0 <= a <= b ==> (#[trigger] filters[a]).bits().subset_of(filters[b].bits())
                && filters[a].num_bits() == filters[b].num_bits() && filters[a].num_hashes()
                == filters[b].num_hashes(),
    decreases b,
{
    if b > 0 {
        let c = b - 1;
        lemma_bits_grow(filters, values, c);
        assert(filters[c + 1].bits() == filters[c].bits().union(
            picked_bits(values[c], filters[c].num_hashes(), filters[c].num_bits()),
        ));
        assert forall|a: int| 0 <= a <= b implies (#[trigger] filters[a]).bits().subset_of(filters[b].bits())
            && filters[a].num_bits() == filters[b].num_bits() && filters[a].num_hashes()
            == filters[b].num_hashes() by {
            if a < b {
                assert(filters[a].bits().subset_of(filters[c].bits()));
            }
        }
    }
}

} // verus!
