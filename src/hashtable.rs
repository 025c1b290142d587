//! An open-addressing hash map keyed by strings.
//!
//! Collisions are resolved by the probe recurrence `i -> (5 * i + 1) mod capacity`,
//! starting at the key's hash modulo the capacity. Every probe walk is cut off
//! after `capacity` steps, since that recurrence need not reach every slot.
//! Over a capacity where it does (`full_cycle`, which holds of every power of
//! two), an insertion into a map with a free slot, or into a full map whose
//! doubled capacity fits, always succeeds.
//!
//! Deletion leaves a `Deleted` marker (a tombstone) in the slot instead of
//! clearing it: a lookup walks past markers, and an insertion reuses the first
//! one on its walk. Clearing the slot outright would cut the probe walk of any
//! key placed past it, so that the key could no longer be found.
use crate::probe::{full_cycle, lemma_probe_slot_bound, probe_next, probe_slot, reaches};
use vstd::prelude::*;
use vstd::relations::injective_on;
use vstd::set_lib::{lemma_int_range, lemma_len_subset, lemma_map_size, set_int_range};

verus! {

/// The hash of a key, as std's `DefaultHasher` computes it.
pub uninterp spec fn key_hash(k: Seq<char>) -> u64;

/// Relies on `BuildHasher::hash_one` with std's `DefaultHasher`, whose keys are
/// fixed: the hash is a function of the key's characters.
#[verifier::external_body]
fn default_hash(key: &str) -> (r: u64)
    ensures
        r == key_hash(key@),
{
    std::hash::BuildHasher::hash_one(
        &std::hash::BuildHasherDefault::<std::collections::hash_map::DefaultHasher>::default(),
        key,
    )
}

/// The slot where the probe walk of `k` starts.
pub open spec fn home_slot(k: Seq<char>, cap: int) -> int {
    (key_hash(k) as int) % cap
}

/// The slot that the probe walk of `k` reaches after `step` steps.
pub open spec fn key_slot(k: Seq<char>, cap: int, step: nat) -> int {
    probe_slot(home_slot(k, cap), cap, step)
}

proof fn lemma_key_slot_bound(k: Seq<char>, cap: int, step: nat)
    requires
        0 < cap,
    ensures
        0 <= key_slot(k, cap, step) < cap,
{
    lemma_probe_slot_bound(home_slot(k, cap), cap, step);
}

/// Why an operation of the map could not be carried out.
#[derive(Debug, Clone, Copy, PartialEq, Eq, Structural)]
pub enum HashMapError {
    /// A map needs at least one slot.
    InvalidCapacity,
    /// The grown capacity does not fit in `usize`.
    CapacityOverflow,
    /// A probe walk went through as many slots as the map has without finding
    /// the key or a free slot.
    ProbeExhausted,
}

/// A key and its value.
#[derive(Debug, Clone)]
pub struct HashMapEntry<V> {
    pub key: String,
    pub value: V,
}

impl<V: Copy> HashMapEntry<V> {
    pub fn new(key: &str, value: V) -> (r: Self)
        ensures
            r.key@ == key@,
            r.value == value,
    {
        HashMapEntry { key: key.to_string(), value }
    }

    /// Puts `value` in place of the entry's value and returns the one it had.
    pub fn replace(&mut self, value: V) -> (r: V)
        ensures
            r == old(self).value,
            final(self).value == value,
            final(self).key == old(self).key,
    {
        let previous = self.value;
        self.value = value;
        previous
    }
}

/// The state of one slot of the map.
#[derive(Debug)]
pub enum Slot<V> {
    Empty,
    Deleted,
    Occupied(HashMapEntry<V>),
}

/// Whether slot `s` holds key `k`.
pub open spec fn holds_key<V>(s: Slot<V>, k: Seq<char>) -> bool {
    s is Occupied && s->Occupied_0.key@ == k
}

pub struct HashMap<V> {
    amount: usize,
    entries: Vec<Slot<V>>,
    /// For each stored key, the number of probe steps from its home slot to its slot.
    steps: Ghost<Map<Seq<char>, nat>>,
}

impl<V: Copy> View for HashMap<V> {
    type V = Map<Seq<char>, V>;

    closed spec fn view(&self) -> Map<Seq<char>, V> {
        Map::new(
            |k: Seq<char>| self.steps@.contains_key(k),
            |k: Seq<char>| self.entries@[self.slot_of(k)]->Occupied_0.value,
        )
    }
}

impl<V: Copy> HashMap<V> {
    /// The number of slots.
    pub closed spec fn capacity(&self) -> nat {
        self.entries@.len()
    }

    /// The slot where stored key `k` sits.
    closed spec fn slot_of(&self, k: Seq<char>) -> int {
        key_slot(k, self.entries@.len() as int, self.steps@[k])
    }

    /// Stored key `k` sits at the end of its recorded probe walk, and no slot
    /// on the way there is empty.
    closed spec fn key_placed(&self, k: Seq<char>) -> bool {
        let cap = self.entries@.len() as int;
        &&& self.steps@[k] < cap
        &&& holds_key(self.entries@[self.slot_of(k)], k)
        &&& forall|j: nat|
            j < self.steps@[k] ==> !(self.entries@[#[trigger] key_slot(k, cap, j)] is Empty)
    }

    /// Occupied slot `i` is the recorded slot of the key it holds.
    closed spec fn slot_recorded(&self, i: int) -> bool {
        let k = self.entries@[i]->Occupied_0.key@;
        self.steps@.contains_key(k) && self.slot_of(k) == i
    }

    /// The map's invariant.
    pub closed spec fn wf(&self) -> bool {
        &&& 0 < self.entries@.len()
        &&& self.steps@.dom().finite()
        &&& self.amount == self.steps@.dom().len()
        &&& self.amount <= self.entries@.len()
        &&& forall|k: Seq<char>| #[trigger] self.steps@.contains_key(k) ==> self.key_placed(k)
        &&& forall|i: int|
            0 <= i < self.entries@.len() && (#[trigger] self.entries@[i]) is Occupied
                ==> self.slot_recorded(i)
    }

    /// Every slot on the probe walk of `k` is occupied.
    pub closed spec fn walk_full(&self, k: Seq<char>) -> bool {
        let cap = self.entries@.len() as int;
        forall|j: nat| j < cap ==> (#[trigger] self.entries@[key_slot(k, cap, j)]) is Occupied
    }

    proof fn lemma_view_dom(&self)
        ensures
            self@.dom() == self.steps@.dom(),
    {
        assert(self@.dom() =~= self.steps@.dom());
    }

    /// A map with `size` slots, all empty.
    fn with_slots(size: usize) -> (r: Self)
        requires
            size > 0,
        ensures
            r.wf(),
            r@ == Map::<Seq<char>, V>::empty(),
            r.capacity() == size,
    {
        let mut entries: Vec<Slot<V>> = Vec::new();
        let mut i: usize = 0;
        while i < size
            invariant
                i <= size,
                entries@.len() == i,
                forall|j: int| 0 <= j < i ==> (#[trigger] entries@[j]) is Empty,
            decreases size - i,
        {
            entries.push(Slot::Empty);
            i += 1;
        }
        let r = HashMap { amount: 0, entries, steps: Ghost(Map::empty()) };
        assert(r@ =~= Map::<Seq<char>, V>::empty());
        r
    }

    /// A map with `size` empty slots; a map with no slot is refused.
    pub fn new(size: usize) -> (r: Result<Self, HashMapError>)
        ensures
            size == 0 <==> r is Err,
            r is Err ==> r == Err::<Self, HashMapError>(HashMapError::InvalidCapacity),
            r matches Ok(m) ==> m.wf() && m@ == Map::<Seq<char>, V>::empty() && m@.dom().finite()
                && m.capacity() == size,
    {
        if size == 0 {
            return Err(HashMapError::InvalidCapacity);
        }
        Ok(Self::with_slots(size))
    }

    /// The number of slots.
    pub fn size(&self) -> (r: usize)
        ensures
            r == self.capacity(),
    {
        self.entries.len()
    }

    /// The number of stored keys.
    pub fn amount(&self) -> (r: usize)
        requires
            self.wf(),
        ensures
            r == self@.len(),
            self@.dom().finite(),
    {
        proof {
            self.lemma_view_dom();
        }
        self.amount
    }

    /// The number of slots not holding a key.
    pub fn remaining_entries(&self) -> (r: usize)
        requires
            self.wf(),
        ensures
            r == self.capacity() - self@.len(),
    {
        proof {
            self.lemma_view_dom();
        }
        self.entries.len() - self.amount
    }

    /// The hash of `key`.
    pub fn hash_key(key: &str) -> (r: u64)
        ensures
            r == key_hash(key@),
    {
        default_hash(key)
    }

    /// The slot where the probe walk of `key` starts.
    pub fn get_index(&self, key: &str) -> (r: usize)
        requires
            self.wf(),
        ensures
            r == home_slot(key@, self.capacity() as int),
            r < self.capacity(),
    {
        self.index_for_hash(Self::hash_key(key))
    }

    /// The slot where a probe walk starts for a key with hash `hash`.
    pub fn index_for_hash(&self, hash: u64) -> (r: usize)
        requires
            self.wf(),
        ensures
            r == hash as int % self.capacity() as int,
            r < self.capacity(),
    {
        let cap = self.entries.len();
        (hash % (cap as u64)) as usize
    }

    /// The slot after `i` on a probe walk.
    fn next_index(&self, i: usize) -> (r: usize)
        requires
            self.wf(),
            i < self.capacity(),
        ensures
            r == probe_next(i as int, self.capacity() as int),
            r < self.capacity(),
    {
        let cap = self.entries.len();
        ((5 * (i as u128) + 1) % (cap as u128)) as usize
    }

    /// A key is not stored when its probe walk, followed for `step` steps past
    /// slots that do not hold it, has met an empty slot or gone through as
    /// many steps as there are slots.
    proof fn lemma_not_stored(&self, k: Seq<char>, step: nat)
        requires
            self.wf(),
            step <= self.entries@.len(),
            forall|j: nat|
                j < step ==> !holds_key(
                    self.entries@[#[trigger] key_slot(k, self.entries@.len() as int, j)],
                    k,
                ),
            step == self.entries@.len() || self.entries@[key_slot(
                k,
                self.entries@.len() as int,
                step,
            )] is Empty,
        ensures
            !self.steps@.contains_key(k),
    {
        let cap = self.entries@.len() as int;
        if self.steps@.contains_key(k) {
            let t = self.steps@[k];
            assert(self.key_placed(k));
            if t < step {
                assert(!holds_key(self.entries@[key_slot(k, cap, t)], k));
            } else if t > step {
                assert(!(self.entries@[key_slot(k, cap, step)] is Empty));
            }
        }
    }

    /// With fewer keys than slots, some slot holds no key.
    proof fn lemma_has_free_slot(&self) -> (free: int)
        requires
            self.wf(),
            self.steps@.dom().len() < self.entries@.len(),
        ensures
            0 <= free < self.entries@.len(),
            !(self.entries@[free] is Occupied),
    {
        let cap = self.entries@.len() as int;
        if forall|i: int| 0 <= i < cap ==> (#[trigger] self.entries@[i]) is Occupied {
            let range = set_int_range(0, cap);
            let f = |i: int| self.entries@[i]->Occupied_0.key@;
            assert forall|i1: int, i2: int|
                range.contains(i1) && range.contains(i2) && #[trigger] f(i1) == #[trigger] f(i2)
                    implies i1 == i2 by {
                assert(self.slot_recorded(i1));
                assert(self.slot_recorded(i2));
            }
            assert(injective_on(f, range));
            lemma_int_range(0, cap);
            lemma_map_size(range, range.map(f), f);
            assert forall|k: Seq<char>| range.map(f).contains(k) implies self.steps@.dom().contains(
                k,
            ) by {
                let i = choose|i: int| range.contains(i) && f(i) == k;
                assert(self.slot_recorded(i));
            }
            lemma_len_subset(range.map(f), self.steps@.dom());
            0
        } else {
            choose|i: int| 0 <= i < cap && !(self.entries@[i] is Occupied)
        }
    }

    /// With fewer keys than slots, over a capacity whose probe walk reaches
    /// every slot from every slot, the probe walk of any key meets a slot that
    /// holds no key.
    pub proof fn lemma_walk_has_room(&self, k: Seq<char>)
        requires
            self.wf(),
            self@.len() < self.capacity(),
            full_cycle(self.capacity() as int),
        ensures
            !self.walk_full(k),
    {
        self.lemma_view_dom();
        let cap = self.entries@.len() as int;
        let free = self.lemma_has_free_slot();
        let s = home_slot(k, cap);
        assert(reaches(s, free, cap));
        let j = choose|j: nat| j < cap && #[trigger] probe_slot(s, cap, j) == free;
        assert(key_slot(k, cap, j) == free);
    }

    /// With a slot that holds no key, fewer keys are stored than there are slots.
    proof fn lemma_free_slot(&self, free: int)
        requires
            0 < self.entries@.len(),
            self.steps@.dom().finite(),
            forall|k: Seq<char>| #[trigger] self.steps@.contains_key(k) ==> self.key_placed(k),
            0 <= free < self.entries@.len(),
            !(self.entries@[free] is Occupied),
        ensures
            self.steps@.dom().len() < self.entries@.len(),
    {
        let cap = self.entries@.len() as int;
        let dom = self.steps@.dom();
        let f = |k: Seq<char>| self.slot_of(k);
        let image = dom.map(f);
        let range = set_int_range(0, cap).remove(free);
        assert forall|k1: Seq<char>, k2: Seq<char>|
            dom.contains(k1) && dom.contains(k2) && #[trigger] f(k1) == #[trigger] f(k2) implies k1
            == k2 by {
            assert(self.key_placed(k1));
            assert(self.key_placed(k2));
        }
        assert(injective_on(f, dom));
        lemma_map_size(dom, image, f);
        assert forall|i: int| image.contains(i) implies range.contains(i) by {
            let k = choose|k: Seq<char>| dom.contains(k) && f(k) == i;
            assert(self.key_placed(k));
            lemma_key_slot_bound(k, cap, self.steps@[k]);
        }
        lemma_int_range(0, cap);
        lemma_len_subset(image, range);
    }

    /// Stores new key `k` in free slot `slot`, which its probe walk reaches
    /// after `step` steps through slots that are not empty.
    fn put_new(&mut self, k: String, value: V, slot: usize, Ghost(step): Ghost<nat>)
        requires
            old(self).wf(),
            !old(self)@.contains_key(k@),
            step < old(self).capacity(),
            slot == key_slot(k@, old(self).capacity() as int, step),
            !(old(self).entries@[slot as int] is Occupied),
            forall|j: nat|
                j < step ==> !(old(self).entries@[#[trigger] key_slot(
                    k@,
                    old(self).capacity() as int,
                    j,
                )] is Empty),
        ensures
            final(self).wf(),
            final(self)@ == old(self)@.insert(k@, value),
            final(self).capacity() == old(self).capacity(),
    {
        proof {
            self.lemma_view_dom();
            lemma_key_slot_bound(k@, self.capacity() as int, step);
            self.lemma_free_slot(slot as int);
        }
        let ghost pre = *self;
        let ghost kv = k@;
        let cap = self.entries.len();
        self.entries.set(slot, Slot::Occupied(HashMapEntry { key: k, value }));
        self.amount = self.amount + 1;
        self.steps = Ghost(self.steps@.insert(kv, step));
        proof {
            assert forall|k2: Seq<char>| #[trigger] self.steps@.contains_key(k2) implies self.key_placed(
                k2,
            ) by {
                if k2 != kv {
                    assert(pre.key_placed(k2));
                    assert forall|j: nat| j < self.steps@[k2] implies !(self.entries@[#[trigger] key_slot(k2, cap as int, j)] is Empty) by {
                        assert(!(pre.entries@[key_slot(k2, cap as int, j)] is Empty));
                    }
                }
            }
            assert forall|i: int| 0 <= i < self.entries@.len() && (#[trigger] self.entries@[i]) is Occupied implies self.slot_recorded(i) by {
                if i != slot {
                    assert(pre.slot_recorded(i));
                }
            }
            assert forall|k2: Seq<char>| pre.steps@.contains_key(k2) implies pre.slot_of(k2) != slot by {
                assert(pre.key_placed(k2));
            }
            assert(self@ =~= pre@.insert(kv, value));
        }
    }

    /// Puts `value` in place of the value of the key held at `slot`.
    fn overwrite(&mut self, slot: usize, value: V)
        requires
            old(self).wf(),
            slot < old(self).capacity(),
            old(self).entries@[slot as int] is Occupied,
        ensures
            final(self).wf(),
            final(self)@ == old(self)@.insert(old(self).entries@[slot as int]->Occupied_0.key@, value),
            final(self).capacity() == old(self).capacity(),
    {
        let ghost pre = *self;
        let k = match &self.entries[slot] {
            Slot::Occupied(e) => e.key.clone(),
            _ => { proof { assert(false); } String::new() },
        };
        let ghost kv = k@;
        let cap = self.entries.len();
        proof {
            assert(pre.slot_recorded(slot as int));
        }
        self.entries.set(slot, Slot::Occupied(HashMapEntry { key: k, value }));
        proof {
            assert forall|k2: Seq<char>| #[trigger] self.steps@.contains_key(k2) implies self.key_placed(
                k2,
            ) by {
                assert(pre.key_placed(k2));
                assert forall|j: nat| j < self.steps@[k2] implies !(self.entries@[#[trigger] key_slot(k2, cap as int, j)] is Empty) by {
                    assert(!(pre.entries@[key_slot(k2, cap as int, j)] is Empty));
                }
            }
            assert forall|i: int| 0 <= i < self.entries@.len() && (#[trigger] self.entries@[i]) is Occupied implies self.slot_recorded(i) by {
                if i != slot {
                    assert(pre.slot_recorded(i));
                }
            }
            assert forall|k2: Seq<char>| pre.steps@.contains_key(k2) && k2 != kv implies pre.slot_of(k2) != slot by {
                assert(pre.key_placed(k2));
            }
            assert(self@ =~= pre@.insert(kv, value));
        }
    }

    /// Stores `value` for `k` without growing: over the key's own slot if it is
    /// stored, else in the first free slot of its probe walk.
    fn place(&mut self, k: String, value: V) -> (r: Result<(), HashMapError>)
        requires
            old(self).wf(),
        ensures
            final(self).wf(),
            final(self).capacity() == old(self).capacity(),
            r is Ok <==> (old(self)@.contains_key(k@) || !old(self).walk_full(k@)),
            r is Ok ==> final(self)@ == old(self)@.insert(k@, value),
            r is Err ==> r == Err::<(), HashMapError>(HashMapError::ProbeExhausted) && *final(self)
                == *old(self),
    {
        let cap = self.entries.len();
        let mut idx = self.get_index(k.as_str());
        let mut step: usize = 0;
        let mut free: Option<usize> = None;
        let ghost mut free_step: nat = 0;
        proof {
            self.lemma_view_dom();
        }
        while step < cap
            invariant
                self.wf(),
                *self == *old(self),
                cap == self.entries@.len(),
                step <= cap,
                idx == key_slot(k@, cap as int, step as nat),
                forall|j: nat|
                    j < step ==> !holds_key(self.entries@[#[trigger] key_slot(k@, cap as int, j)], k@),
                forall|j: nat|
                    j < step ==> !(self.entries@[#[trigger] key_slot(k@, cap as int, j)] is Empty),
                free is None ==> forall|j: nat|
                    j < step ==> (self.entries@[#[trigger] key_slot(k@, cap as int, j)] is Occupied),
                free matches Some(f) ==> free_step < step && f == key_slot(k@, cap as int, free_step)
                    && !(self.entries@[f as int] is Occupied),
            decreases cap - step,
        {
            proof {
                lemma_key_slot_bound(k@, cap as int, step as nat);
            }
            match &self.entries[idx] {
                Slot::Empty => {
                    proof {
                        self.lemma_not_stored(k@, step as nat);
                        assert(self.entries@[key_slot(k@, cap as int, step as nat)] is Empty);
                    }
                    match free {
                        Some(f) => {
                            self.put_new(k, value, f, Ghost(free_step));
                        },
                        None => {
                            self.put_new(k, value, idx, Ghost(step as nat));
                        },
                    }
                    return Ok(());
                },
                Slot::Deleted => {
                    if free.is_none() {
                        free = Some(idx);
                        proof {
                            free_step = step as nat;
                        }
                    }
                },
                Slot::Occupied(e) => {
                    if e.key == k {
                        proof {
                            assert(self.slot_recorded(idx as int));
                        }
                        self.overwrite(idx, value);
                        return Ok(());
                    }
                },
            }
            idx = self.next_index(idx);
            step += 1;
        }
        proof {
            self.lemma_not_stored(k@, step as nat);
        }
        match free {
            Some(f) => {
                proof {
                    assert(!(self.entries@[key_slot(k@, cap as int, free_step)] is Occupied));
                }
                self.put_new(k, value, f, Ghost(free_step));
                Ok(())
            },
            None => Err(HashMapError::ProbeExhausted),
        }
    }

    /// The part of the map held in slots below `i`.
    closed spec fn below(&self, i: int) -> Map<Seq<char>, V> {
        self@.restrict(self.steps@.dom().filter(|k: Seq<char>| self.slot_of(k) < i))
    }

    /// A copy of the map with `additional` more slots, where every stored key
    /// is placed anew by its probe walk in the larger table.
    fn regrown(&self, additional: usize) -> (r: Result<HashMap<V>, HashMapError>)
        requires
            self.wf(),
        ensures
            r matches Ok(g) ==> g.wf() && g@ == self@ && g.capacity() == self.capacity()
                + additional,
            r == Err::<HashMap<V>, HashMapError>(HashMapError::CapacityOverflow) <==> self.capacity()
                + additional > usize::MAX,
            r is Err ==> r == Err::<HashMap<V>, HashMapError>(HashMapError::CapacityOverflow)
                || r == Err::<HashMap<V>, HashMapError>(HashMapError::ProbeExhausted),
            self.capacity() + additional <= usize::MAX && full_cycle(
                self.capacity() + additional as int,
            ) ==> r is Ok,
            self.capacity() + additional <= usize::MAX && self@.len() == 0 ==> r is Ok,
    {
        let new_size = match self.entries.len().checked_add(additional) {
            Some(n) => n,
            None => {
                return Err(HashMapError::CapacityOverflow);
            },
        };
        let mut grown: HashMap<V> = HashMap::with_slots(new_size);
        let mut i: usize = 0;
        proof {
            assert(grown@ =~= self.below(0));
        }
        while i < self.entries.len()
            invariant
                self.wf(),
                grown.wf(),
                grown.capacity() == new_size,
                new_size == self.entries@.len() + additional,
                i <= self.entries@.len(),
                grown@ == self.below(i as int),
            decreases self.entries@.len() - i,
        {
            let ghost before = grown@;
            match &self.entries[i] {
                Slot::Occupied(e) => {
                    proof {
                        assert(self.slot_recorded(i as int));
                        assert(!before.contains_key(e.key@));
                        self.lemma_view_dom();
                        assert(self@.dom().contains(e.key@));
                        if full_cycle(new_size as int) {
                            self.lemma_view_dom();
                            grown.lemma_view_dom();
                            assert(grown@.dom().subset_of(self@.dom().remove(e.key@)));
                            lemma_len_subset(grown@.dom(), self@.dom().remove(e.key@));
                            grown.lemma_walk_has_room(e.key@);
                        }
                    }
                    match grown.place(e.key.clone(), e.value) {
                        Ok(()) => {
                            proof {
                                assert forall|k: Seq<char>| self.steps@.contains_key(k) && self.slot_of(k) == i implies k == e.key@ by {
                                    assert(self.key_placed(k));
                                }
                                assert(grown@ =~= self.below(i + 1));
                            }
                        },
                        Err(_) => {
                            return Err(HashMapError::ProbeExhausted);
                        },
                    }
                },
                _ => {
                    proof {
                        assert forall|k: Seq<char>| self.steps@.contains_key(k) implies self.slot_of(k) != i by {
                            assert(self.key_placed(k));
                        }
                        assert(grown@ =~= self.below(i + 1));
                    }
                },
            }
            i += 1;
        }
        proof {
            assert(grown@ =~= self@);
        }
        Ok(grown)
    }


    /// Adds `additional` slots, and places every stored key anew by its probe
    /// walk in the larger table.
    ///
    /// Where a probe walk in the larger table finds no free slot, the map is
    /// left as it was and `ProbeExhausted` is returned.
    pub fn extend(&mut self, additional: usize) -> (r: Result<(), HashMapError>)
        requires
            old(self).wf(),
        ensures
            final(self).wf(),
            final(self)@ == old(self)@,
            r is Ok ==> final(self).capacity() == old(self).capacity() + additional,
            r is Err ==> *final(self) == *old(self),
            r == Err::<(), HashMapError>(HashMapError::CapacityOverflow) <==> old(self).capacity()
                + additional > usize::MAX,
            r is Err ==> r == Err::<(), HashMapError>(HashMapError::CapacityOverflow) || r == Err::<
                (),
                HashMapError,
            >(HashMapError::ProbeExhausted),
            old(self).capacity() + additional <= usize::MAX && full_cycle(
                old(self).capacity() + additional as int,
            ) ==> r is Ok,
            old(self).capacity() + additional <= usize::MAX && old(self)@.len() == 0 ==> r is Ok,
    {
        match self.regrown(additional) {
            Ok(grown) => {
                *self = grown;
                Ok(())
            },
            Err(e) => Err(e),
        }
    }

    /// Stores `value` for `key`. A map with no free slot first grows to twice
    /// its capacity. On an error the map is left as it was, grown or not.
    pub fn insert(&mut self, key: &str, value: V) -> (r: Result<(), HashMapError>)
        requires
            old(self).wf(),
        ensures
            final(self).wf(),
            r is Ok ==> final(self)@ == old(self)@.insert(key@, value),
            r is Err ==> final(self)@ == old(self)@,
            old(self)@.len() < old(self).capacity() ==> final(self).capacity() == old(self).capacity()
                && (r is Ok <==> (old(self)@.contains_key(key@) || !old(self).walk_full(key@))),
            old(self)@.len() == old(self).capacity() ==> (r == Err::<(), HashMapError>(
                HashMapError::CapacityOverflow) <==> 2 * old(self).capacity() > usize::MAX),
            old(self)@.len() == old(self).capacity() && r is Ok ==> final(self).capacity() == 2
                * old(self).capacity(),
            r is Err ==> r == Err::<(), HashMapError>(HashMapError::CapacityOverflow) || r == Err::<
                (),
                HashMapError,
            >(HashMapError::ProbeExhausted),
            old(self)@.len() < old(self).capacity() && r is Err ==> r == Err::<(), HashMapError>(
                HashMapError::ProbeExhausted,
            ),
            r == Err::<(), HashMapError>(HashMapError::CapacityOverflow) ==> final(self).capacity()
                == old(self).capacity(),
            r is Err ==> *final(self) == *old(self),
            r is Ok ==> final(self)@.len() == old(self)@.len() + (if old(self)@.contains_key(key@) {
                0int
            } else {
                1int
            }),
            old(self)@.len() < old(self).capacity() && full_cycle(old(self).capacity() as int)
                ==> r is Ok,
            old(self)@.len() == old(self).capacity() && 2 * old(self).capacity() <= usize::MAX
                && full_cycle(2 * old(self).capacity() as int) ==> r is Ok,
    {
        proof {
            self.lemma_view_dom();
        }
        if self.remaining_entries() == 0 {
            let size = self.size();
            match self.regrown(size) {
                Ok(g) => {
                    let mut grown = g;
                    proof {
                        grown.lemma_view_dom();
                        if full_cycle(grown.capacity() as int) {
                            grown.lemma_walk_has_room(key@);
                        }
                    }
                    let placed = grown.place(key.to_string(), value);
                    if placed.is_ok() {
                        *self = grown;
                    }
                    return placed;
                },
                Err(e) => {
                    return Err(e);
                },
            }
        }
        proof {
            self.lemma_view_dom();
            if full_cycle(self.capacity() as int) && self@.len() < self.capacity() {
                self.lemma_walk_has_room(key@);
            }
        }
        self.place(key.to_string(), value)
    }

    /// Removes `key` and returns its entry, if it is stored.
    pub fn delete(&mut self, key: &str) -> (r: Option<HashMapEntry<V>>)
        requires
            old(self).wf(),
        ensures
            final(self).wf(),
            final(self).capacity() == old(self).capacity(),
            final(self)@ == old(self)@.remove(key@),
            r is Some <==> old(self)@.contains_key(key@),
            r matches Some(e) ==> e.key@ == key@ && e.value == old(self)@[key@],
            final(self)@.len() == old(self)@.len() - (if old(self)@.contains_key(key@) {
                1int
            } else {
                0int
            }),
    {
        proof {
            self.lemma_view_dom();
        }
        let k = key.to_string();
        let cap = self.entries.len();
        let mut idx = self.get_index(key);
        let mut step: usize = 0;
        proof {
            self.lemma_view_dom();
        }
        while step < cap
            invariant
                self.wf(),
                *self == *old(self),
                k@ == key@,
                cap == self.entries@.len(),
                step <= cap,
                idx == key_slot(key@, cap as int, step as nat),
                forall|j: nat|
                    j < step ==> !holds_key(self.entries@[#[trigger] key_slot(key@, cap as int, j)], key@),
            decreases cap - step,
        {
            proof {
                lemma_key_slot_bound(key@, cap as int, step as nat);
            }
            match &self.entries[idx] {
                Slot::Empty => {
                    proof {
                        self.lemma_not_stored(key@, step as nat);
                        assert(self@.remove(key@) =~= self@);
                    }
                    return None;
                },
                Slot::Deleted => {},
                Slot::Occupied(e) => {
                    if e.key == k {
                        let removed = HashMapEntry { key: e.key.clone(), value: e.value };
                        proof {
                            assert(self.slot_recorded(idx as int));
                            self.lemma_view_dom();
                        }
                        self.clear_slot(idx);
                        return Some(removed);
                    }
                },
            }
            idx = self.next_index(idx);
            step += 1;
        }
        proof {
            self.lemma_not_stored(key@, step as nat);
            assert(self@.remove(key@) =~= self@);
        }
        None
    }

    /// Marks occupied slot `slot` as deleted.
    fn clear_slot(&mut self, slot: usize)
        requires
            old(self).wf(),
            slot < old(self).capacity(),
            old(self).entries@[slot as int] is Occupied,
        ensures
            final(self).wf(),
            final(self)@ == old(self)@.remove(old(self).entries@[slot as int]->Occupied_0.key@),
            final(self).capacity() == old(self).capacity(),
    {
        let ghost pre = *self;
        let ghost kv = self.entries@[slot as int]->Occupied_0.key@;
        let cap = self.entries.len();
        proof {
            assert(pre.slot_recorded(slot as int));
            pre.lemma_view_dom();
        }
        self.entries.set(slot, Slot::Deleted);
        self.amount = self.amount - 1;
        self.steps = Ghost(self.steps@.remove(kv));
        proof {
            assert forall|k2: Seq<char>| #[trigger] self.steps@.contains_key(k2) implies self.key_placed(
                k2,
            ) by {
                assert(pre.key_placed(k2));
                assert forall|j: nat| j < self.steps@[k2] implies !(self.entries@[#[trigger] key_slot(k2, cap as int, j)] is Empty) by {
                    assert(!(pre.entries@[key_slot(k2, cap as int, j)] is Empty));
                }
            }
            assert forall|i: int| 0 <= i < self.entries@.len() && (#[trigger] self.entries@[i]) is Occupied implies self.slot_recorded(i) by {
                assert(pre.slot_recorded(i));
            }
            assert(self@ =~= pre@.remove(kv));
        }
    }

    /// The value stored for `key`, if any.
    pub fn get(&self, key: &str) -> (r: Option<V>)
        requires
            self.wf(),
        ensures
            r == (if self@.contains_key(key@) {
                Some(self@[key@])
            } else {
                None
            }),
    {
        let k = key.to_string();
        let cap = self.entries.len();
        let mut idx = self.get_index(key);
        let mut step: usize = 0;
        proof {
            self.lemma_view_dom();
        }
        while step < cap
            invariant
                self.wf(),
                k@ == key@,
                cap == self.entries@.len(),
                step <= cap,
                idx == key_slot(key@, cap as int, step as nat),
                forall|j: nat|
                    j < step ==> !holds_key(self.entries@[#[trigger] key_slot(key@, cap as int, j)], key@),
            decreases cap - step,
        {
            proof {
                lemma_key_slot_bound(key@, cap as int, step as nat);
            }
            match &self.entries[idx] {
                Slot::Empty => {
                    proof {
                        self.lemma_not_stored(key@, step as nat);
                    }
                    return None;
                },
                Slot::Deleted => {},
                Slot::Occupied(e) => {
                    if e.key == k {
                        proof {
                            assert(self.slot_recorded(idx as int));
                        }
                        return Some(e.value);
                    }
                },
            }
            idx = self.next_index(idx);
            step += 1;
        }
        proof {
            self.lemma_not_stored(key@, step as nat);
        }
        None
    }
}

/// Keys inserted one after another, all distinct, into an empty map are all
/// stored, each with the value it was inserted with, and the map holds as many
/// keys as were inserted. `maps[j + 1]` is `maps[j]` after the insertion of
/// `keys[j]` with `values[j]` succeeded.
pub proof fn law_distinct_inserts<V: Copy>(
    maps: Seq<HashMap<V>>,
    keys: Seq<Seq<char>>,
    values: Seq<V>,
)
    requires
        maps.len() == keys.len() + 1,
        values.len() == keys.len(),
        maps[0]@ == Map::<Seq<char>, V>::empty(),
        forall|j: int| 0 <= j < keys.len() ==> #[trigger] maps[j + 1]@ == maps[j]@.insert(keys[j], values[j]),
        forall|i: int, j: int| 0 <= i < j < keys.len() ==> keys[i] != keys[j],
    ensures
        maps.last()@.len() == keys.len(),
        forall|j: int| 0 <= j < keys.len() ==> maps.last()@.contains_key(#[trigger] keys[j]) && maps.last()@[keys[j]] == values[j],
{
    lemma_distinct_prefix(maps, keys, values, keys.len() as int);
}

proof fn lemma_distinct_prefix<V: Copy>(
    maps: Seq<HashMap<V>>,
    keys: Seq<Seq<char>>,
    values: Seq<V>,
    n: int,
)
    requires
        maps.len() == keys.len() + 1,
        values.len() == keys.len(),
        maps[0]@ == Map::<Seq<char>, V>::empty(),
        forall|j: int| 0 <= j < keys.len() ==> #[trigger] maps[j + 1]@ == maps[j]@.insert(keys[j], values[j]),
        forall|i: int, j: int| 0 <= i < j < keys.len() ==> keys[i] != keys[j],
        0 <= n <= keys.len(),
    ensures
        maps[n]@.dom().finite(),
        maps[n]@.len() == n,
        forall|k: Seq<char>| maps[n]@.contains_key(k) <==> exists|j: int| 0 <= j < n && keys[j] == k,
        forall|j: int| 0 <= j < n ==> maps[n]@.contains_key(#[trigger] keys[j]) && maps[n]@[keys[j]] == values[j],
    decreases n,
{
    if n > 0 {
        lemma_distinct_prefix(maps, keys, values, n - 1);
        let p = n - 1;
        assert(maps[p + 1]@ == maps[p]@.insert(keys[p], values[p]));
        assert(p + 1 == n);
        assert(!maps[n - 1]@.contains_key(keys[n - 1]));
        assert forall|k: Seq<char>| maps[n]@.contains_key(k) implies exists|j: int| 0 <= j < n && keys[j] == k by {
            if k == keys[n - 1] {
                assert(keys[n - 1] == k);
            }
        }
    } else {
        assert(maps[0]@.dom() =~= Set::<Seq<char>>::empty());
    }
}

/// Storing a second value for a stored key leaves the number of keys as it was,
/// and the key then gives the second value.
pub proof fn law_reinsert<V: Copy>(m0: HashMap<V>, m1: HashMap<V>, m2: HashMap<V>, k: Seq<char>, v1: V, v2: V)
    requires
        m0.wf(),
        m1@ == m0@.insert(k, v1),
        m2@ == m1@.insert(k, v2),
    ensures
        m2@.len() == m1@.len(),
        m2@.contains_key(k),
        m2@[k] == v2,
{
    m0.lemma_view_dom();
    assert(m2@.dom() =~= m1@.dom());
}

/// After a key is deleted it is not found; deleting a key that is not stored
/// leaves the map, and its number of keys, as they were.
pub proof fn law_delete<V: Copy>(m0: HashMap<V>, m1: HashMap<V>, k: Seq<char>)
    requires
        m1@ == m0@.remove(k),
    ensures
        !m1@.contains_key(k),
        !m0@.contains_key(k) ==> m1@ == m0@ && m1@.len() == m0@.len(),
{
    if !m0@.contains_key(k) {
        assert(m1@ =~= m0@);
    }
}

/// Inserting a new key into a full map that then grows to twice its capacity
/// keeps every stored key with its value, and the capacity increases.
pub proof fn law_growth<V: Copy>(m0: HashMap<V>, m1: HashMap<V>, k: Seq<char>, v: V)
    requires
        m0.wf(),
        m0@.len() == m0.capacity(),
        !m0@.contains_key(k),
        m1@ == m0@.insert(k, v),
        m1.capacity() == 2 * m0.capacity(),
    ensures
        forall|k2: Seq<char>| #[trigger] m0@.contains_key(k2) ==> m1@.contains_key(k2) && m1@[k2] == m0@[k2],
        m1@.len() == m0@.len() + 1,
        m1.capacity() > m0.capacity(),
{
    m0.lemma_view_dom();
}

/// Inserting distinct keys one after another into an empty map, no more keys
/// than it has slots, over a capacity whose probe walk reaches every slot:
/// every insertion succeeds, the capacity stays, and the map then holds each
/// key with its value and as many keys as were inserted. `results[j]` is what
/// `insert(keys[j], values[j])` returned on `maps[j]`, leaving `maps[j + 1]`;
/// each step is taken as `insert`'s contract states it.
pub proof fn law_fill_within_capacity<V: Copy>(
    maps: Seq<HashMap<V>>,
    keys: Seq<Seq<char>>,
    values: Seq<V>,
    results: Seq<Result<(), HashMapError>>,
)
    requires
        maps.len() == keys.len() + 1,
        values.len() == keys.len(),
        results.len() == keys.len(),
        maps[0].wf(),
        maps[0]@ == Map::<Seq<char>, V>::empty(),
        keys.len() <= maps[0].capacity(),
        full_cycle(maps[0].capacity() as int),
        forall|i: int, j: int| 0 <= i < j < keys.len() ==> keys[i] != keys[j],
        forall|j: int|
            0 <= j < keys.len() ==> {
                let m0 = maps[j];
                let m1 = #[trigger] maps[j + 1];
                let r = results[j];
                &&& m1.wf()
                &&& r is Ok ==> m1@ == m0@.insert(keys[j], values[j])
                &&& r is Ok ==> m1@.len() == m0@.len() + (if m0@.contains_key(keys[j]) {
                    0int
                } else {
                    1int
                })
                &&& m0@.len() < m0.capacity() ==> m1.capacity() == m0.capacity()
                &&& m0@.len() < m0.capacity() && full_cycle(m0.capacity() as int) ==> r is Ok
            },
    ensures
        forall|j: int| 0 <= j < keys.len() ==> (#[trigger] results[j]) is Ok,
        maps.last()@.len() == keys.len(),
        maps.last().capacity() == maps[0].capacity(),
        forall|j: int|
            0 <= j < keys.len() ==> maps.last()@.contains_key(#[trigger] keys[j])
                && maps.last()@[keys[j]] == values[j],
{
    lemma_fill_prefix(maps, keys, values, results, keys.len() as int);
}

proof fn lemma_fill_prefix<V: Copy>(
    maps: Seq<HashMap<V>>,
    keys: Seq<Seq<char>>,
    values: Seq<V>,
    results: Seq<Result<(), HashMapError>>,
    n: int,
)
    requires
        maps.len() == keys.len() + 1,
        values.len() == keys.len(),
        results.len() == keys.len(),
        maps[0].wf(),
        maps[0]@ == Map::<Seq<char>, V>::empty(),
        keys.len() <= maps[0].capacity(),
        full_cycle(maps[0].capacity() as int),
        forall|i: int, j: int| 0 <= i < j < keys.len() ==> keys[i] != keys[j],
        forall|j: int|
            0 <= j < keys.len() ==> {
                let m0 = maps[j];
                let m1 = #[trigger] maps[j + 1];
                let r = results[j];
                &&& m1.wf()
                &&& r is Ok ==> m1@ == m0@.insert(keys[j], values[j])
                &&& r is Ok ==> m1@.len() == m0@.len() + (if m0@.contains_key(keys[j]) {
                    0int
                } else {
                    1int
                })
                &&& m0@.len() < m0.capacity() ==> m1.capacity() == m0.capacity()
                &&& m0@.len() < m0.capacity() && full_cycle(m0.capacity() as int) ==> r is Ok
            },
        0 <= n <= keys.len(),
    ensures
        forall|j: int| 0 <= j < n ==> (#[trigger] results[j]) is Ok,
        maps[n]@.len() == n,
        maps[n].capacity() == maps[0].capacity(),
        forall|k: Seq<char>| maps[n]@.contains_key(k) ==> exists|j: int| 0 <= j < n && keys[j] == k,
        forall|j: int|
            0 <= j < n ==> maps[n]@.contains_key(#[trigger] keys[j]) && maps[n]@[keys[j]]
                == values[j],
    decreases n,
{
    if n == 0 {
        assert(maps[0]@.dom() =~= Set::<Seq<char>>::empty());
    } else {
        let p = n - 1;
        lemma_fill_prefix(maps, keys, values, results, p);
        let m0 = maps[p];
        let m1 = maps[p + 1];
        assert(p + 1 == n);
        assert(m0@.len() < m0.capacity());
        assert(results[p] is Ok);
        assert(!m0@.contains_key(keys[p]));
        assert forall|k: Seq<char>| maps[n]@.contains_key(k) implies exists|j: int| 0 <= j < n && keys[j] == k by {
            if k == keys[p] {
                assert(keys[p] == k);
            }
        }
    }
}

} // verus!
