//! Deterministic open-addressing table of object identities.

use crate::order::views;
use crate::storage::{kind_tag, ObjectId, ObjectView};
use vstd::bytes::*;
use vstd::prelude::*;

verus! {

/// Deterministic hash of an identity: the start of its digest, mixed with its class.
pub open spec fn object_hash_of(object: ObjectView) -> u64 {
    spec_u64_from_le_bytes(object.digest.subrange(0, 8)) ^ (kind_tag(object.kind) as u64)
}

/// Computes the hash of an identity.
pub fn object_hash(object: &ObjectId) -> (r: u64)
    ensures
        r == object_hash_of(object@),
{
    let prefix = vstd::slice::slice_subrange(object.digest.bytes.as_slice(), 0, 8);
    let tag: u64 = object.kind.canonical_tag() as u64;
    u64_from_le_bytes(prefix) ^ tag
}

/// Where the search for an identity begins.
pub open spec fn home(object: ObjectView, slots: nat) -> int {
    object_hash_of(object) as int % slots as int
}

/// The slot that a search looks at after some steps.
pub open spec fn probed(object: ObjectView, slots: nat, steps: int) -> int {
    (home(object, slots) + steps) % slots as int
}

/// Abstract contents of a slot.
pub open spec fn slot_view(slot: Option<ObjectId>) -> Option<ObjectView> {
    match slot {
        Some(object) => Some(object@),
        None => None,
    }
}

/// Whether a search for an identity finds it after some steps.
pub open spec fn found_after(slots: Seq<Option<ObjectId>>, object: ObjectView, steps: int) -> bool {
    &&& 0 <= steps < slots.len()
    &&& slot_view(slots[probed(object, slots.len(), steps)]) == Some(object)
    &&& forall|earlier: int|
        0 <= earlier <= steps ==> slots[#[trigger] probed(object, slots.len(), earlier)] is Some
}

/// Slots looked at by a search from one of its steps on: up to the first that is
/// free or holds the identity.
pub open spec fn looks(slots: Seq<Option<ObjectView>>, object: ObjectView, step: nat) -> nat
    decreases slots.len() - step,
{
    if step >= slots.len() {
        0
    } else {
        match slots[probed(object, slots.len(), step as int)] {
            None => 1,
            Some(held) => if held == object {
                1
            } else {
                1 + looks(slots, object, step + 1)
            },
        }
    }
}

/// The slot where the search for an identity ends.
pub open spec fn search_end(slots: Seq<Option<ObjectView>>, object: ObjectView) -> int {
    probed(object, slots.len(), looks(slots, object, 0) - 1)
}

/// A search ends inside the table.
pub proof fn lemma_search_end(slots: Seq<Option<ObjectView>>, object: ObjectView)
    requires
        slots.len() > 0,
    ensures
        0 <= search_end(slots, object) < slots.len(),
{
    vstd::arithmetic::div_mod::lemma_mod_bound(
        home(object, slots.len()) + (looks(slots, object, 0) - 1),
        slots.len() as int,
    );
}

/// Whether no identity is held twice.
pub open spec fn held_once(slots: Seq<Option<ObjectId>>) -> bool {
    forall|i: int, j: int|
        0 <= i < slots.len() && 0 <= j < slots.len() && (#[trigger] slots[i]) is Some && slot_view(
            slots[i],
        ) == slot_view(#[trigger] slots[j]) ==> i == j
}

/// Whether some slot holds an identity.
pub open spec fn holds(slots: Seq<Option<ObjectId>>, object: ObjectView) -> bool {
    exists|i: int| 0 <= i < slots.len() && slot_view(#[trigger] slots[i]) == Some(object)
}

/// Whether every identity held is found by its search.
pub open spec fn searchable(slots: Seq<Option<ObjectId>>) -> bool {
    forall|object: ObjectView| #[trigger]
        holds(slots, object) ==> exists|steps: int| #[trigger] found_after(slots, object, steps)
}

/// Slots in use among the first `count`.
pub open spec fn used(slots: Seq<Option<ObjectId>>, count: nat) -> nat
    decreases count,
{
    if count == 0 {
        0
    } else {
        used(slots, (count - 1) as nat) + (if slots[count - 1] is Some {
            1nat
        } else {
            0nat
        })
    }
}

proof fn lemma_used_bound(slots: Seq<Option<ObjectId>>, count: nat)
    requires
        count <= slots.len(),
    ensures
        used(slots, count) <= count,
        (forall|i: int| 0 <= i < count ==> (#[trigger] slots[i]) is Some) ==> used(slots, count)
            == count,
    decreases count,
{
    if count > 0 {
        lemma_used_bound(slots, (count - 1) as nat);
    }
}

proof fn lemma_used_update(slots: Seq<Option<ObjectId>>, at: int, object: ObjectId, count: nat)
    requires
        0 <= at < slots.len(),
        slots[at] is None,
        count <= slots.len(),
    ensures
        used(slots.update(at, Some(object)), count) == used(slots, count) + (if at < count {
            1nat
        } else {
            0nat
        }),
    decreases count,
{
    if count > 0 {
        lemma_used_update(slots, at, object, (count - 1) as nat);
    }
}

/// A full turn of a search looks at every slot.
proof fn lemma_probe_covers(object: ObjectView, slots: nat, at: int)
    requires
        0 <= at < slots,
    ensures
        exists|steps: int| 0 <= steps < slots && #[trigger] probed(object, slots, steps) == at,
{
    let start = home(object, slots);
    let steps = if at >= start {
        at - start
    } else {
        at - start + slots
    };
    vstd::arithmetic::div_mod::lemma_mod_bound(object_hash_of(object) as int, slots as int);
    assert(0 <= start < slots);
    if at >= start {
        vstd::arithmetic::div_mod::lemma_small_mod(at as nat, slots);
    } else {
        vstd::arithmetic::div_mod::lemma_mod_add_multiples_vanish(at, slots as int);
        vstd::arithmetic::div_mod::lemma_small_mod(at as nat, slots);
        assert(start + steps == at + slots);
    }
    assert(probed(object, slots, steps) == at);
}

/// A table of identities.
pub struct ObjectTable {
    slots: Vec<Option<ObjectId>>,
    length: usize,
    contents: Ghost<Set<ObjectView>>,
}

impl View for ObjectTable {
    type V = Set<ObjectView>;

    closed spec fn view(&self) -> Set<ObjectView> {
        self.contents@
    }
}

impl ObjectTable {
    #[verifier::type_invariant]
    closed spec fn well_formed(self) -> bool {
        &&& self.length < self.slots@.len()
        &&& used(self.slots@, self.slots@.len()) == self.length
        &&& searchable(self.slots@)
        &&& held_once(self.slots@)
        &&& forall|object: ObjectView|
            self.contents@.contains(object) == #[trigger] holds(self.slots@, object)
        &&& self.contents@.finite()
        &&& self.contents@.len() == self.length
    }

    /// Number of slots.
    pub closed spec fn slot_count(&self) -> nat {
        self.slots@.len()
    }

    /// Contents of every slot.
    pub closed spec fn model(&self) -> Seq<Option<ObjectView>> {
        Seq::new(self.slots@.len(), |i: int| slot_view(self.slots@[i]))
    }

    /// Number of slots.
    pub fn slots(&self) -> (r: usize)
        ensures
            r == self.slot_count(),
            r == self.model().len(),
            r > self@.len(),
            self@.finite(),
    {
        proof {
            use_type_invariant(self);
        }
        self.slots.len()
    }

    /// An empty table.
    pub fn new(slot_count: usize) -> (r: Self)
        requires
            slot_count > 0,
        ensures
            r@ == Set::<ObjectView>::empty(),
            r.slot_count() == slot_count,
            r.model() == Seq::new(slot_count as nat, |i: int| None::<ObjectView>),
    {
        let mut slots: Vec<Option<ObjectId>> = Vec::new();
        while slots.len() < slot_count
            invariant
                slots@.len() <= slot_count,
                forall|i: int| 0 <= i < slots@.len() ==> (#[trigger] slots@[i]) is None,
                used(slots@, slots@.len()) == 0,
            decreases slot_count - slots@.len(),
        {
            let ghost before = slots@;
            slots.push(None);
            proof {
                lemma_used_prefix(before, slots@, before.len());
            }
        }
        assert forall|object: ObjectView| !#[trigger] holds(slots@, object) by {
        }
        let r = ObjectTable { slots, length: 0, contents: Ghost(Set::empty()) };
        assert(r.model() =~= Seq::new(slot_count as nat, |i: int| None::<ObjectView>));
        r
    }

    /// Contents of one slot.
    pub fn slot(&self, index: usize) -> (r: Option<ObjectId>)
        requires
            index < self.slot_count(),
        ensures
            slot_view(r) == self.model()[index as int],
            r matches Some(object) ==> self@.contains(object@),
    {
        proof {
            use_type_invariant(self);
            assert(self.slots@[index as int] is Some ==> holds(
                self.slots@,
                slot_view(self.slots@[index as int])->0,
            ));
        }
        self.slots[index]
    }

    /// No identity is held twice, and the identities held are those of the slots.
    pub fn check_slots(&self)
        ensures
            self.model().len() == self.slot_count(),
            forall|i: int, j: int|
                0 <= i < self.model().len() && 0 <= j < self.model().len() && (
                #[trigger] self.model()[i]) is Some && self.model()[i]
                    == #[trigger] self.model()[j] ==> i == j,
            forall|i: int|
                0 <= i < self.model().len() ==> ((#[trigger] self.model()[i]) matches Some(object)
                    ==> self@.contains(object)),
            forall|object: ObjectView| #[trigger]
                self@.contains(object) ==> exists|i: int|
                    0 <= i < self.model().len() && #[trigger] self.model()[i] == Some(object),
    {
        proof {
            use_type_invariant(self);
        }
        proof {
            assert forall|i: int, j: int|
                0 <= i < self.model().len() && 0 <= j < self.model().len() && (
                #[trigger] self.model()[i]) is Some && self.model()[i]
                    == #[trigger] self.model()[j] implies i == j by {
                assert(self.slots@[i] is Some);
                assert(slot_view(self.slots@[i]) == slot_view(self.slots@[j]));
            }
            assert forall|i: int| 0 <= i < self.model().len() implies ((
            #[trigger] self.model()[i]) matches Some(object) ==> self@.contains(object)) by {
                if let Some(object) = self.model()[i] {
                    assert(slot_view(self.slots@[i]) == Some(object));
                    assert(holds(self.slots@, object));
                }
            }
            assert forall|object: ObjectView| #[trigger] self@.contains(object) implies exists|i: int|
                0 <= i < self.model().len() && #[trigger] self.model()[i] == Some(object) by {
                assert(holds(self.slots@, object));
                let i = choose|i: int|
                    0 <= i < self.slots@.len() && slot_view(#[trigger] self.slots@[i]) == Some(object);
                assert(self.model()[i] == Some(object));
            }
        }
    }

    /// Number of identities.
    pub fn len(&self) -> (r: usize)
        ensures
            r == self@.len(),
            self@.finite(),
    {
        proof {
            use_type_invariant(self);
        }
        self.length
    }

    /// Searches for an identity: the slot where the search ends, whether it is held
    /// there, and the number of slots looked at.
    pub fn search(&self, object: &ObjectId) -> (r: (usize, bool, u64))
        ensures
            r.0 < self.slot_count(),
            r.1 == self@.contains(object@),
            1 <= r.2 <= self.slot_count(),
            self.ends_at(object@, r.0 as int, r.2 as int),
            r.2 == looks(self.model(), object@, 0),
            r.0 == search_end(self.model(), object@),
            r.1 == (self.model()[r.0 as int] == Some(object@)),
            !r.1 ==> self.model()[r.0 as int] is None,
            self.model().len() == self.slot_count(),
    {
        proof {
            use_type_invariant(self);
        }
        let size: usize = self.slots.len();
        let mut index: usize = (object_hash(object) % (size as u64)) as usize;
        let mut steps: usize = 0;
        proof {
            vstd::arithmetic::div_mod::lemma_mod_bound(
                object_hash_of(object@) as int,
                size as int,
            );
            vstd::arithmetic::div_mod::lemma_small_mod(index as nat, size as nat);
        }
        while steps < size
            invariant
                self.slots@.len() == size,
                0 < size,
                steps <= size,
                index < size,
                index == probed(object@, size as nat, steps as int),
                forall|earlier: int|
                    0 <= earlier < steps ==> self.slots@[#[trigger] probed(
                        object@,
                        size as nat,
                        earlier,
                    )] is Some,
                forall|earlier: int|
                    0 <= earlier < steps ==> slot_view(
                        self.slots@[#[trigger] probed(object@, size as nat, earlier)],
                    ) != Some(object@),
                self.well_formed(),
                self.model().len() == size,
                steps + looks(self.model(), object@, steps as nat) == looks(
                    self.model(),
                    object@,
                    0,
                ),
            decreases size - steps,
        {
            assert(self.model()[index as int] == slot_view(self.slots@[index as int]));
            match self.slots[index] {
                None => {
                    proof {
                        if holds(self.slots@, object@) {
                            let found = choose|found: int| #[trigger]
                                found_after(self.slots@, object@, found);
                            assert(found_after(self.slots@, object@, found));
                            if found < steps {
                                assert(slot_view(
                                    self.slots@[probed(object@, size as nat, found)],
                                ) == Some(object@));
                            } else {
                                assert(self.slots@[probed(
                                    object@,
                                    size as nat,
                                    steps as int,
                                )] is Some);
                            }
                        }
                    }
                    return (index, false, steps as u64 + 1);
                },
                Some(existing) => {
                    if existing.same(object) {
                        proof {
                            assert(slot_view(self.slots@[index as int]) == Some(object@));
                            assert(holds(self.slots@, object@));
                        }
                        return (index, true, steps as u64 + 1);
                    }
                    assert(slot_view(self.slots@[index as int]) != Some(object@));
                },
            }
            proof {
                lemma_probe_next(object@, size as nat, steps as int);
            }
            index =
            if index + 1 == size {
                0
            } else {
                index + 1
            };
            steps = steps + 1;
        }
        proof {
            assert forall|i: int| 0 <= i < size implies (#[trigger] self.slots@[i]) is Some by {
                lemma_probe_covers(object@, size as nat, i);
            }
            lemma_used_bound(self.slots@, size as nat);
        }
        (0, false, 1)
    }

    /// Whether the search for an identity ends at a slot after looking at a number
    /// of slots: all before it are in use by others, and it is free or holds the
    /// identity.
    pub closed spec fn ends_at(&self, object: ObjectView, index: int, looked: int) -> bool {
        &&& 1 <= looked <= self.slots@.len()
        &&& index == probed(object, self.slots@.len(), looked - 1)
        &&& forall|earlier: int|
            0 <= earlier < looked - 1 ==> self.slots@[#[trigger] probed(
                object,
                self.slots@.len(),
                earlier,
            )] is Some
        &&& !self.contents@.contains(object) ==> self.slots@[index] is None
    }

    /// Adds an identity at the slot where the search for it ended.
    pub fn place(&mut self, index: usize, object: ObjectId, Ghost(looked): Ghost<int>)
        requires
            !old(self)@.contains(object@),
            old(self).ends_at(object@, index as int, looked),
            old(self)@.len() + 1 < old(self).slot_count(),
        ensures
            final(self)@ == old(self)@.insert(object@),
            final(self).slot_count() == old(self).slot_count(),
            final(self).model() == old(self).model().update(index as int, Some(object@)),
    {
        proof {
            use_type_invariant(&*self);
        }
        let ghost before = self.slots@;
        let ghost contents = self.contents@;
        let length = self.length;
        let size: usize = self.slots.len();
        assert(length + 1 < size);
        proof {
            let size = before.len();
            vstd::arithmetic::div_mod::lemma_mod_bound(
                home(object@, size) + looked - 1,
                size as int,
            );
        }
        let mut empty = ObjectTable::new(1);
        core::mem::swap(&mut empty, self);
        let ObjectTable { slots: mut taken, .. } = empty;
        taken.set(index, Some(object));
        proof {
            let after = taken@;
            lemma_used_update(before, index as int, object, before.len());
            assert(after == before.update(index as int, Some(object)));
            assert forall|i: int| 0 <= i < before.len() implies slot_view(
                #[trigger] before[i],
            ) != Some(object@) by {
                assert(!holds(before, object@));
            }
            assert forall|i: int, j: int|
                0 <= i < after.len() && 0 <= j < after.len() && (#[trigger] after[i]) is Some
                    && slot_view(after[i]) == slot_view(#[trigger] after[j]) implies i == j by {
                if i != index && j != index {
                    assert(before[i] == after[i] && before[j] == after[j]);
                } else if i != index {
                    assert(slot_view(before[i]) != Some(object@));
                } else if j != index {
                    assert(slot_view(before[j]) != Some(object@));
                }
            }
            assert forall|other: ObjectView| #[trigger] holds(after, other) == (holds(before, other)
                || other == object@) by {
                if holds(before, other) {
                    let i = choose|i: int|
                        0 <= i < before.len() && slot_view(#[trigger] before[i]) == Some(other);
                    assert(after[i] == before[i]);
                }
                if holds(after, other) {
                    let i = choose|i: int|
                        0 <= i < after.len() && slot_view(#[trigger] after[i]) == Some(other);
                    if i != index {
                        assert(slot_view(before[i]) == Some(other));
                    }
                }
                if other == object@ {
                    assert(slot_view(after[index as int]) == Some(other));
                }
            }
            assert forall|other: ObjectView| #[trigger] holds(after, other) implies exists|
                steps: int,
            | #[trigger]
                found_after(after, other, steps) by {
                if other == object@ {
                    assert(found_after(after, other, looked - 1));
                } else {
                    let steps = choose|steps: int| #[trigger] found_after(before, other, steps);
                    assert(found_after(after, other, steps)) by {
                        assert(before[probed(other, before.len(), steps)] is Some);
                    }
                }
            }
        }
        *self =
        ObjectTable {
            slots: taken,
            length: length + 1,
            contents: Ghost(contents.insert(object@)),
        };
        assert(self.model() =~= old(self).model().update(index as int, Some(object@)));
    }

    /// The same identities in a table of another size, and the number of slots
    /// looked at to put them there.
    pub fn rehashed(&self, slot_count: usize) -> (r: (Self, u64))
        requires
            self@.len() < slot_count,
        ensures
            r.0@ == self@,
            r.0.slot_count() == slot_count,
    {
        proof {
            use_type_invariant(self);
        }
        let mut table = ObjectTable::new(slot_count);
        let mut looked: u64 = 0;
        let mut i: usize = 0;
        let size: usize = self.slots.len();
        while i < size
            invariant
                size == self.slots@.len(),
                i <= size,
                self@.len() < slot_count,
                self@.finite(),
                table.slot_count() == slot_count,
                self.well_formed(),
                forall|object: ObjectView| #[trigger]
                    table@.contains(object) ==> self@.contains(object),
                forall|j: int|
                    0 <= j < i ==> ((#[trigger] self.slots@[j]) matches Some(object)
                        ==> table@.contains(object@)),
            decreases size - i,
        {
            if let Some(object) = self.slots[i] {
                proof {
                    assert(slot_view(self.slots@[i as int]) == Some(object@));
                    assert(holds(self.slots@, object@));
                }
                let (index, found, probes) = table.search(&object);
                looked = looked.saturating_add(probes);
                if !found {
                    proof {
                        let grown = table@.insert(object@);
                        assert(grown.subset_of(self@));
                        vstd::set_lib::lemma_len_subset(grown, self@);
                        use_type_invariant(&table);
                    }
                    table.place(index, object, Ghost(probes as int));
                }
            }
            i = i + 1;
        }
        proof {
            assert forall|object: ObjectView| self@.contains(object) implies table@.contains(
                object,
            ) by {
                assert(holds(self.slots@, object));
            }
            assert(table@ =~= self@);
        }
        (table, looked)
    }

    /// Tells whether an identity is held.
    pub fn contains(&self, object: &ObjectId) -> (r: bool)
        ensures
            r == self@.contains(object@),
    {
        self.search(object).1
    }

    /// Adds an identity, and tells whether it was absent.
    pub fn insert(&mut self, object: ObjectId) -> (r: Option<bool>)
        ensures
            r matches Some(added) ==> added == !old(self)@.contains(object@) && final(self)@
                == old(self)@.insert(object@),
            r is None ==> final(self)@ == old(self)@ && !old(self)@.contains(object@)
                && old(self)@.len() >= usize::MAX / 4,
    {
        let (_, found, _) = self.search(&object);
        if found {
            assert(self@.insert(object@) =~= self@);
            return Some(false);
        }
        let size = self.slots();
        let length = self.len();
        if length + 1 >= size - length {
            if size > usize::MAX / 2 {
                return None;
            }
            let (table, _) = self.rehashed(size * 2);
            *self = table;
        }
        let (index, _, looked) = self.search(&object);
        self.place(index, object, Ghost(looked as int));
        Some(true)
    }

    /// Every identity held, in no particular order.
    pub fn listed(&self) -> (r: Vec<ObjectId>)
        ensures
            views(r@).to_set() == self@,
            r@.len() == self@.len(),
    {
        proof {
            use_type_invariant(self);
        }
        let size: usize = self.slots.len();
        let mut list: Vec<ObjectId> = Vec::new();
        let mut i: usize = 0;
        while i < size
            invariant
                size == self.slots@.len(),
                i <= size,
                self.well_formed(),
                list@.len() == used(self.slots@, i as nat),
                forall|j: int|
                    0 <= j < i ==> ((#[trigger] self.slots@[j]) matches Some(object)
                        ==> views(list@).contains(object@)),
                forall|k: int| 0 <= k < list@.len() ==> self@.contains((#[trigger] list@[k])@),
            decreases size - i,
        {
            if let Some(object) = self.slots[i] {
                let ghost before = list@;
                list.push(object);
                proof {
                    assert(slot_view(self.slots@[i as int]) == Some(object@));
                    assert(holds(self.slots@, object@));
                    let now = views(list@);
                    assert(now =~= views(before).push(object@));
                    assert(now[before.len() as int] == object@);
                    assert forall|j: int| 0 <= j < i + 1 implies ((#[trigger] self.slots@[j]) matches Some(
                        other,
                    ) ==> now.contains(other@)) by {
                        if j < i && self.slots@[j] is Some {
                            let other = self.slots@[j]->0;
                            let k = views(before).index_of(other@);
                            assert(now[k] == other@);
                        }
                    }
                }
            }
            i = i + 1;
        }
        proof {
            let all = views(list@);
            assert forall|object: ObjectView| all.to_set().contains(object) == self@.contains(
                object,
            ) by {
                if all.contains(object) {
                    let k = all.index_of(object);
                    assert(list@[k]@ == object);
                }
                if self@.contains(object) {
                    assert(holds(self.slots@, object));
                }
            }
            assert(all.to_set() =~= self@);
        }
        list
    }
}

proof fn lemma_probe_next(object: ObjectView, slots: nat, steps: int)
    requires
        slots > 0,
    ensures
        ({
            let at = probed(object, slots, steps);
            &&& 0 <= at < slots
            &&& probed(object, slots, steps + 1) == (if at + 1 == slots {
                0
            } else {
                at + 1
            })
        }),
{
    let sum = home(object, slots) + steps;
    let size = slots as int;
    vstd::arithmetic::div_mod::lemma_mod_bound(sum, size);
    vstd::arithmetic::div_mod::lemma_add_mod_noop(sum, 1, size);
    let at = sum % size;
    if size == 1 {
        vstd::arithmetic::div_mod::lemma_mod_bound(sum + 1, size);
    } else {
        vstd::arithmetic::div_mod::lemma_small_mod(1, slots);
        if at + 1 == size {
            vstd::arithmetic::div_mod::lemma_mod_self_0(size);
        } else {
            vstd::arithmetic::div_mod::lemma_small_mod((at + 1) as nat, slots);
        }
    }
}

proof fn lemma_used_prefix(a: Seq<Option<ObjectId>>, b: Seq<Option<ObjectId>>, count: nat)
    requires
        count <= a.len(),
        count <= b.len(),
        forall|i: int| 0 <= i < count ==> a[i] == b[i],
    ensures
        used(a, count) == used(b, count),
    decreases count,
{
    if count > 0 {
        lemma_used_prefix(a, b, (count - 1) as nat);
    }
}

} // verus!
