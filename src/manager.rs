//! The central authority over entities: creation, deferred removal and the
//! replay of the lifecycle event log.

use std::collections::HashMap;
use crate::codec::{
    be_bytes, encode_indices, lemma_be_bytes_injective, lemma_encode_indices, push_indices, push_u64,
    read_indices, read_u64,
};
use crate::collaborators::{ComponentManager, EntityBuilder, SystemManager};
use crate::entity::{Entity, Id, IndexedEntity};
use crate::index_pool::IndexPool;
use crate::laws::lemma_layout_injective;
use vstd::prelude::*;
use vstd::std_specs::hash::group_hash_axioms;

verus! {

broadcast use group_hash_axioms;

/// A structural change recorded now and applied by the next flush.
#[derive(Copy, Clone, Debug, PartialEq, Eq, Structural)]
pub enum Event {
    /// The entity has been built and is to become visible.
    BuildEntity(Entity),
    /// The entity is to be deactivated, stripped and removed.
    RemoveEntity(Entity),
}

/// What a flush did for one event, with the entity's dense index.
#[derive(Copy, Clone, Debug, PartialEq, Eq, Structural)]
pub enum Notice {
    Activated(Entity, usize),
    Deactivated(Entity, usize),
}

/// The live map after one event has been applied to it.
pub open spec fn step_live(live: Map<Id, usize>, ev: Event) -> Map<Id, usize> {
    match ev {
        Event::BuildEntity(_) => live,
        Event::RemoveEntity(e) => live.remove(e.spec_id()),
    }
}

/// The notice that one event yields against the live map; none where its
/// entity is no longer live.
pub open spec fn notice_of(live: Map<Id, usize>, ev: Event) -> Seq<Notice> {
    match ev {
        Event::BuildEntity(e) => if live.contains_key(e.spec_id()) {
            seq![Notice::Activated(e, live[e.spec_id()])]
        } else {
            Seq::empty()
        },
        Event::RemoveEntity(e) => if live.contains_key(e.spec_id()) {
            seq![Notice::Deactivated(e, live[e.spec_id()])]
        } else {
            Seq::empty()
        },
    }
}

/// The index that one event frees, if any.
pub open spec fn freed_of(live: Map<Id, usize>, ev: Event) -> Seq<usize> {
    match ev {
        Event::BuildEntity(_) => Seq::empty(),
        Event::RemoveEntity(e) => if live.contains_key(e.spec_id()) {
            seq![live[e.spec_id()]]
        } else {
            Seq::empty()
        },
    }
}

/// The live map after the events have been applied in order.
pub open spec fn replay_live(live: Map<Id, usize>, evs: Seq<Event>) -> Map<Id, usize>
    decreases evs.len(),
{
    if evs.len() == 0 {
        live
    } else {
        step_live(replay_live(live, evs.drop_last()), evs.last())
    }
}

/// The notices of the events, in order.
pub open spec fn replay_notices(live: Map<Id, usize>, evs: Seq<Event>) -> Seq<Notice>
    decreases evs.len(),
{
    if evs.len() == 0 {
        Seq::empty()
    } else {
        replay_notices(live, evs.drop_last()) + notice_of(
            replay_live(live, evs.drop_last()),
            evs.last(),
        )
    }
}

/// The indices that the events free, in order.
pub open spec fn replay_freed(live: Map<Id, usize>, evs: Seq<Event>) -> Seq<usize>
    decreases evs.len(),
{
    if evs.len() == 0 {
        Seq::empty()
    } else {
        replay_freed(live, evs.drop_last()) + freed_of(
            replay_live(live, evs.drop_last()),
            evs.last(),
        )
    }
}

/// The index that the pool hands out next.
pub open spec fn slot_choice(recycled: Seq<usize>, next_index: usize) -> usize {
    if recycled.len() > 0 {
        recycled.last()
    } else {
        next_index
    }
}

/// Why a snapshot was refused.
#[derive(Copy, Clone, Debug, PartialEq, Eq, Structural)]
pub enum SnapshotError {
    /// Events are still queued; flush them first.
    PendingEvents,
    /// The bytes are not the snapshot of a consistent manager.
    Malformed,
}

/// A slot table under reconstruction agrees with the identifier map and the
/// table of free indices, and every identifier is in `1..=max_id`.
pub open spec fn partial_slots_ok<T>(
    map: Map<Id, usize>,
    slots: Seq<Option<IndexedEntity<T>>>,
    free: Seq<bool>,
    max_id: u64,
) -> bool {
    &&& slots.len() <= free.len()
    &&& forall|id: Id| #[trigger]
        map.contains_key(id) ==> {
            &&& 0 < id <= max_id
            &&& map[id] < slots.len()
            &&& slots[map[id] as int] is Some
            &&& slots[map[id] as int]->0.spec_entity().spec_id() == id
        }
    &&& forall|i: int|
        0 <= i < slots.len() ==> match #[trigger] slots[i] {
            Some(ie) => {
                &&& ie.spec_index() == i
                &&& map.contains_key(ie.spec_entity().spec_id())
                &&& map[ie.spec_entity().spec_id()] == i
                &&& !free[i]
            },
            None => free[i],
        }
}

/// The live bindings of a slot table, in slot order, each as its identifier,
/// its index and its identifier again (key, then binding).
pub open spec fn encode_slots<T>(s: Seq<Option<IndexedEntity<T>>>) -> Seq<u8>
    decreases s.len(),
{
    if s.len() == 0 {
        Seq::empty()
    } else {
        encode_slots(s.drop_last()) + match s.last() {
            Some(ie) => be_bytes(ie.spec_entity().spec_id()) + be_bytes(ie.spec_index() as u64)
                + be_bytes(ie.spec_entity().spec_id()),
            None => Seq::empty(),
        }
    }
}

/// Number of occupied slots.
pub open spec fn count_some<T>(s: Seq<Option<IndexedEntity<T>>>) -> nat
    decreases s.len(),
{
    if s.len() == 0 {
        0
    } else {
        count_some(s.drop_last()) + if s.last() is Some {
            1nat
        } else {
            0nat
        }
    }
}

/// Replacing one slot changes the occupied count by what left and what came.
pub proof fn lemma_count_some_update<T>(
    s: Seq<Option<IndexedEntity<T>>>,
    i: int,
    v: Option<IndexedEntity<T>>,
)
    requires
        0 <= i < s.len(),
    ensures
        count_some(s.update(i, v)) + (if s[i] is Some {
            1int
        } else {
            0int
        }) == count_some(s) + (if v is Some {
            1int
        } else {
            0int
        }),
    decreases s.len(),
{
    let u = s.update(i, v);
    if i == s.len() - 1 {
        assert(u.drop_last() =~= s.drop_last());
    } else {
        assert(u.drop_last() =~= s.drop_last().update(i, v));
        lemma_count_some_update(s.drop_last(), i, v);
    }
}

/// The encoding of a slot table is 24 bytes per occupied slot.
pub proof fn lemma_encode_slots_len<T>(s: Seq<Option<IndexedEntity<T>>>)
    ensures
        encode_slots(s).len() == 24 * count_some(s),
    decreases s.len(),
{
    if s.len() > 0 {
        lemma_encode_slots_len(s.drop_last());
    }
}

/// The encoding of a prefix of a slot table is a prefix of its encoding.
pub proof fn lemma_encode_slots_prefix<T>(s: Seq<Option<IndexedEntity<T>>>, u: int)
    requires
        0 <= u <= s.len(),
    ensures
        encode_slots(s.take(u)).len() <= encode_slots(s).len(),
        encode_slots(s).subrange(0, encode_slots(s.take(u)).len() as int) == encode_slots(
            s.take(u),
        ),
    decreases s.len(),
{
    if u == s.len() {
        assert(s.take(u) =~= s);
        assert(encode_slots(s).subrange(0, encode_slots(s).len() as int) =~= encode_slots(s));
    } else {
        let d = s.drop_last();
        assert(s.take(u) =~= d.take(u));
        lemma_encode_slots_prefix(d, u);
        let l = encode_slots(s.take(u)).len() as int;
        assert(encode_slots(s).subrange(0, l) =~= encode_slots(d).subrange(0, l));
    }
}

/// The identifier bound to index `i` in `live`, if any.
pub open spec fn binding_at(live: Map<Id, usize>, i: int) -> Option<Id> {
    if exists|id: Id| live.contains_key(id) && live[id] == i {
        Some(choose|id: Id| live.contains_key(id) && live[id] == i)
    } else {
        None
    }
}

/// The bindings of `live` at indices below `u`, in index order.
pub open spec fn live_entries(live: Map<Id, usize>, u: nat) -> Seq<(Id, usize)>
    decreases u,
{
    if u == 0 {
        Seq::empty()
    } else {
        live_entries(live, (u - 1) as nat) + match binding_at(live, u - 1) {
            Some(id) => seq![(id, (u - 1) as usize)],
            None => Seq::empty(),
        }
    }
}

/// Each binding as its identifier, its index and its identifier again (the
/// map's key, then the bound entity).
pub open spec fn encode_entries(es: Seq<(Id, usize)>) -> Seq<u8>
    decreases es.len(),
{
    if es.len() == 0 {
        Seq::empty()
    } else {
        encode_entries(es.drop_last()) + be_bytes(es.last().0) + be_bytes(es.last().1 as u64)
            + be_bytes(es.last().0)
    }
}

/// The snapshot layout, all in 8-byte big-endian words: the index pool (the
/// count of recycled indices, each of them oldest first, the index bound),
/// then the identifier map (its size, then each binding in index order), then
/// the last identifier issued.
pub open spec fn snapshot_layout(
    recycled: Seq<usize>,
    bound: usize,
    live: Map<Id, usize>,
    issued: u64,
) -> Seq<u8> {
    be_bytes(recycled.len() as u64) + encode_indices(recycled) + be_bytes(bound as u64) + be_bytes(
        live.len() as u64,
    ) + encode_entries(live_entries(live, bound as nat)) + be_bytes(issued)
}

/// Handles creation, activation and validity of entities.
pub struct EntityManager<T> {
    indices: IndexPool,
    entities: HashMap<Id, usize>,
    slots: Vec<Option<IndexedEntity<T>>>,
    event_queue: Vec<Event>,
    next_id: Id,
}

impl<T> EntityManager<T> {
    /// Live identifiers, each with its dense index.
    pub closed spec fn live(&self) -> Map<Id, usize> {
        self.entities@
    }

    /// Events recorded and not yet flushed, oldest first.
    pub closed spec fn pending(&self) -> Seq<Event> {
        self.event_queue@
    }

    /// The last identifier issued (0 before the first).
    pub closed spec fn issued(&self) -> Id {
        self.next_id
    }

    /// Freed indices awaiting reuse, oldest first.
    pub closed spec fn recycled(&self) -> Seq<usize> {
        self.indices.spec_recycled()
    }

    /// Number of distinct indices ever handed out.
    pub closed spec fn index_bound(&self) -> usize {
        self.indices.spec_next_index()
    }

    /// The index that the next creation receives.
    pub open spec fn next_slot(&self) -> usize {
        slot_choice(self.recycled(), self.index_bound())
    }

    pub open spec fn is_live(&self, e: Entity) -> bool {
        self.live().contains_key(e.spec_id())
    }

    /// Whether one more entity can be created without a counter overflowing.
    pub open spec fn spec_can_create(&self) -> bool {
        self.issued() < u64::MAX && self.index_bound() < usize::MAX
    }

    pub closed spec fn slot_ok(&self, i: int) -> bool {
        match self.slots@[i] {
            Some(ie) => {
                &&& ie.spec_index() == i
                &&& self.entities@.contains_key(ie.spec_entity().spec_id())
                &&& self.entities@[ie.spec_entity().spec_id()] == i
                &&& !self.indices.spec_recycled().contains(i as usize)
            },
            None => self.indices.spec_recycled().contains(i as usize),
        }
    }

    /// The map, the slot table and the pool agree; identifiers are issued ones.
    pub closed spec fn wf(&self) -> bool {
        &&& self.indices.wf()
        &&& self.slots@.len() == self.indices.spec_next_index()
        &&& forall|id: Id| #[trigger]
            self.entities@.contains_key(id) ==> {
                &&& 0 < id <= self.next_id
                &&& self.entities@[id] < self.slots@.len()
                &&& self.slots@[self.entities@[id] as int] is Some
                &&& self.slots@[self.entities@[id] as int]->0.spec_entity().spec_id() == id
            }
        &&& forall|i: int| 0 <= i < self.slots@.len() ==> #[trigger] self.slot_ok(i)
        &&& count_some(self.slots@) == self.entities@.len()
        &&& self.entities@.len() + self.indices.spec_recycled().len()
            == self.indices.spec_next_index()
    }

    /// Well-formedness does not depend on the event log.
    proof fn lemma_wf_frame(a: &Self, b: &Self)
        requires
            a.wf(),
            a.indices == b.indices,
            a.entities@ == b.entities@,
            a.slots@ == b.slots@,
            a.next_id == b.next_id,
        ensures
            b.wf(),
    {
        assert forall|i: int| 0 <= i < b.slots@.len() implies #[trigger] b.slot_ok(i) by {
            assert(a.slot_ok(i));
        }
    }

    /// What well-formedness gives a caller: the live map is finite, every
    /// live identifier is non-zero and issued, live indices are distinct,
    /// below the index bound and not recycled, and live plus recycled indices
    /// make up the index bound.
    pub proof fn lemma_live_facts(&self)
        requires
            self.wf(),
        ensures
            self.live().dom().finite(),
            self.live().len() + self.recycled().len() == self.index_bound(),
            forall|id: Id|
                #[trigger] self.live().contains_key(id) ==> {
                    &&& 0 < id <= self.issued()
                    &&& self.live()[id] < self.index_bound()
                    &&& !self.recycled().contains(self.live()[id])
                },
            forall|a: Id, b: Id|
                #[trigger] self.live().contains_key(a) && #[trigger] self.live().contains_key(b)
                    && a != b ==> self.live()[a] != self.live()[b],
    {
        assert forall|id: Id| #[trigger] self.live().contains_key(id) implies {
            &&& 0 < id <= self.issued()
            &&& self.live()[id] < self.index_bound()
            &&& !self.recycled().contains(self.live()[id])
        } by {
            assert(self.slot_ok(self.live()[id] as int));
        }
    }

    /// Returns a new, empty manager.
    pub fn new() -> (r: EntityManager<T>)
        ensures
            r.wf(),
            r.live() == Map::<Id, usize>::empty(),
            r.pending() == Seq::<Event>::empty(),
            r.issued() == 0,
            r.recycled() == Seq::<usize>::empty(),
            r.index_bound() == 0,
    {
        EntityManager {
            indices: IndexPool::new(),
            entities: HashMap::new(),
            slots: Vec::new(),
            event_queue: Vec::new(),
            next_id: 0,
        }
    }

    /// Returns true if the entity is live (not yet removed by a flush).
    pub fn is_valid(&self, entity: &Entity) -> (r: bool)
        requires
            self.wf(),
        ensures
            r == self.is_live(*entity),
    {
        self.entities.contains_key(&entity.id())
    }

    /// Number of live entities.
    pub fn count(&self) -> (r: usize)
        requires
            self.wf(),
        ensures
            r == self.live().len(),
    {
        self.indices.count()
    }

    /// The binding of a live entity to its dense index. Asking for one that
    /// is not live is a contract breach, ruled out by the precondition.
    pub fn indexed(&self, entity: &Entity) -> (r: &IndexedEntity<T>)
        requires
            self.wf(),
            self.is_live(*entity),
        ensures
            r.spec_index() == self.live()[entity.spec_id()],
            r.spec_entity() == *entity,
    {
        proof {
            Entity::lemma_eq_by_id(*entity, self.slots@[self.live()[entity.spec_id()] as int]->0.spec_entity());
        }
        let id = entity.id();
        let idx = *self.entities.get(&id).unwrap();
        match &self.slots[idx] {
            Some(ie) => {
                assert(self.slot_ok(idx as int));
                ie
            },
            None => {
                assert(false);
                unreached()
            },
        }
    }

    /// Creates a new entity, assigning it the first available index.
    pub fn create(&mut self) -> (r: Entity)
        requires
            old(self).wf(),
            old(self).spec_can_create(),
        ensures
            final(self).wf(),
            r.spec_id() == old(self).issued() + 1,
            final(self).issued() == r.spec_id(),
            !old(self).is_live(r),
            final(self).is_live(r),
            final(self).live() == old(self).live().insert(r.spec_id(), old(self).next_slot()),
            final(self).live().len() == old(self).live().len() + 1,
            final(self).pending() == old(self).pending(),
            old(self).recycled().len() > 0 ==> final(self).recycled()
                == old(self).recycled().drop_last(),
            old(self).recycled().len() == 0 ==> final(self).recycled() == old(self).recycled(),
            final(self).index_bound() == if old(self).recycled().len() > 0 {
                old(self).index_bound()
            } else {
                (old(self).index_bound() + 1) as usize
            },
    {
        let ghost old_slots = self.slots@;
        let ghost old_map = self.entities@;
        let ghost old_rec = self.indices.spec_recycled();
        self.next_id = self.next_id + 1;
        let ret = Entity::with_id(self.next_id);
        let idx = self.indices.get_index();
        if idx == self.slots.len() {
            self.slots.push(Some(IndexedEntity::mint(idx, ret)));
            assert(self.slots@.drop_last() =~= old_slots);
        } else {
            proof {
                let k = old_rec.len() - 1;
                assert(old_rec[k] == idx);
                assert(old_rec[k] < old_slots.len());
                assert(old(self).slot_ok(idx as int));
                assert(old_rec.contains(idx));
                assert(old_slots[idx as int] is None);
            }
            self.slots.set(idx, Some(IndexedEntity::mint(idx, ret)));
            proof {
                lemma_count_some_update(old_slots, idx as int, self.slots@[idx as int]);
            }
        }
        self.entities.insert(ret.id(), idx);
        proof {
            assert(!old_map.contains_key(ret.spec_id()));
            let rec = self.indices.spec_recycled();
            assert(rec.len() + 1 == old_rec.len() || rec == old_rec);
            assert forall|i: int| 0 <= i < self.slots@.len() implies #[trigger] self.slot_ok(i) by {
                if i != idx as int {
                    assert(old(self).slot_ok(i));
                    assert(self.slots@[i] == old_slots[i]);
                    if old_rec.len() > 0 {
                        assert(rec == old_rec.drop_last());
                        assert(old_rec.no_duplicates());
                        if old_slots[i] is None {
                            let k = choose|k: int| 0 <= k < old_rec.len() && old_rec[k] == i as usize;
                            assert(k != old_rec.len() - 1);
                            assert(rec[k] == i as usize);
                        } else {
                            if rec.contains(i as usize) {
                                let k = choose|k: int| 0 <= k < rec.len() && rec[k] == i as usize;
                                assert(old_rec[k] == i as usize);
                            }
                        }
                    }
                } else {
                    if old_rec.len() > 0 {
                        assert(rec == old_rec.drop_last());
                        if rec.contains(i as usize) {
                            let k = choose|k: int| 0 <= k < rec.len() && rec[k] == i as usize;
                            assert(old_rec[k] == old_rec[old_rec.len() - 1]);
                        }
                    } else {
                        assert(!rec.contains(i as usize));
                    }
                }
            }
            assert forall|id: Id| #[trigger] self.entities@.contains_key(id) implies {
                &&& 0 < id <= self.next_id
                &&& self.entities@[id] < self.slots@.len()
                &&& self.slots@[self.entities@[id] as int] is Some
                &&& self.slots@[self.entities@[id] as int]->0.spec_entity().spec_id() == id
            } by {
                if id != ret.spec_id() {
                    assert(old_map.contains_key(id));
                    let j = old_map[id];
                    assert(old(self).slot_ok(j as int));
                    assert(j != idx);
                }
            }
        }
        ret
    }

    /// Deletes an entity from the manager at once and frees its index.
    pub fn remove(&mut self, entity: &Entity)
        requires
            old(self).wf(),
        ensures
            final(self).wf(),
            final(self).live() == old(self).live().remove(entity.spec_id()),
            final(self).recycled() == old(self).recycled() + freed_of(
                old(self).live(),
                Event::RemoveEntity(*entity),
            ),
            final(self).pending() == old(self).pending(),
            final(self).issued() == old(self).issued(),
            final(self).index_bound() == old(self).index_bound(),
    {
        let id = entity.id();
        let ghost old_slots = self.slots@;
        let ghost old_map = self.entities@;
        let ghost old_rec = self.indices.spec_recycled();
        match self.entities.remove(&id) {
            Some(idx) => {
                proof {
                    assert(old_map.contains_key(id));
                    assert(old(self).slot_ok(idx as int));
                }
                let ghost before_set = self.slots@;
                self.slots.set(idx, None);
                proof {
                    lemma_count_some_update(before_set, idx as int, None);
                }
                self.indices.return_id(idx);
                proof {
                    let rec = self.indices.spec_recycled();
                    assert(rec == old_rec.push(idx));
                    assert(rec[old_rec.len() as int] == idx);
                    assert forall|i: int| 0 <= i < self.slots@.len() implies #[trigger] self.slot_ok(i) by {
                        if i != idx as int {
                            assert(old(self).slot_ok(i));
                            assert(self.slots@[i] == old_slots[i]);
                            if old_slots[i] is None {
                                let k = choose|k: int| 0 <= k < old_rec.len() && old_rec[k] == i as usize;
                                assert(rec[k] == i as usize);
                            } else {
                                if rec.contains(i as usize) {
                                    let k = choose|k: int| 0 <= k < rec.len() && rec[k] == i as usize;
                                    if k < old_rec.len() {
                                        assert(old_rec[k] == i as usize);
                                    }
                                }
                            }
                        } else {
                            assert(rec.contains(idx));
                        }
                    }
                    assert forall|j: Id| #[trigger] self.entities@.contains_key(j) implies {
                        &&& 0 < j <= self.next_id
                        &&& self.entities@[j] < self.slots@.len()
                        &&& self.slots@[self.entities@[j] as int] is Some
                        &&& self.slots@[self.entities@[j] as int]->0.spec_entity().spec_id() == j
                    } by {
                        assert(old_map.contains_key(j));
                        assert(j != id);
                        assert(old_map[j] != idx);
                    }
                    assert(old_map.remove(id).len() == old_map.len() - 1);
                }
            },
            None => {
                proof {
                    assert(self.entities@ =~= old_map.remove(id));
                    assert(old_map.remove(id) =~= old_map);
                    assert(old_rec + Seq::<usize>::empty() =~= old_rec);
                    Self::lemma_wf_frame(old(self), self);
                }
            },
        }
    }

    /// Schedules the entity's removal for the next flush; it stays live until then.
    pub fn remove_entity(&mut self, entity: Entity)
        requires
            old(self).wf(),
        ensures
            final(self).wf(),
            final(self).pending() == old(self).pending().push(Event::RemoveEntity(entity)),
            final(self).live() == old(self).live(),
            final(self).recycled() == old(self).recycled(),
            final(self).issued() == old(self).issued(),
            final(self).index_bound() == old(self).index_bound(),
    {
        self.event_queue.push(Event::RemoveEntity(entity));
        proof {
            Self::lemma_wf_frame(old(self), self);
        }
    }

    /// Creates an entity, lets the builder fill its attributes at once, and
    /// schedules its activation for the next flush.
    pub fn create_entity<B: EntityBuilder<T>>(&mut self, builder: B, c: &mut T) -> (r: Entity)
        requires
            old(self).wf(),
            old(self).spec_can_create(),
        ensures
            final(self).wf(),
            r.spec_id() == old(self).issued() + 1,
            final(self).issued() == r.spec_id(),
            !old(self).is_live(r),
            final(self).is_live(r),
            final(self).live() == old(self).live().insert(r.spec_id(), old(self).next_slot()),
            final(self).live().len() == old(self).live().len() + 1,
            final(self).pending() == old(self).pending().push(Event::BuildEntity(r)),
            old(self).recycled().len() > 0 ==> final(self).recycled()
                == old(self).recycled().drop_last(),
            old(self).recycled().len() == 0 ==> final(self).recycled() == old(self).recycled(),
            final(self).index_bound() == if old(self).recycled().len() > 0 {
                old(self).index_bound()
            } else {
                (old(self).index_bound() + 1) as usize
            },
    {
        let entity = self.create();
        builder.build(self.indexed(&entity), c);
        let ghost before = *self;
        self.event_queue.push(Event::BuildEntity(entity));
        proof {
            Self::lemma_wf_frame(&before, self);
        }
        entity
    }

    /// Each listed binding is a live one with an index below `bound`.
    pub open spec fn listed_below(&self, out: Seq<&IndexedEntity<T>>, bound: int) -> bool {
        forall|k: int|
            0 <= k < out.len() ==> {
                &&& self.live().contains_key(#[trigger] out[k].spec_entity().spec_id())
                &&& self.live()[out[k].spec_entity().spec_id()] == out[k].spec_index()
                &&& out[k].spec_index() < bound
            }
    }

    /// The live entities in order of their dense index.
    pub fn iter(&self) -> (r: Vec<&IndexedEntity<T>>)
        requires
            self.wf(),
        ensures
            forall|k: int|
                0 <= k < r@.len() ==> {
                    &&& self.live().contains_key(#[trigger] r@[k].spec_entity().spec_id())
                    &&& self.live()[r@[k].spec_entity().spec_id()] == r@[k].spec_index()
                },
            forall|a: int, b: int|
                0 <= a < b < r@.len() ==> #[trigger] r@[a].spec_index() < #[trigger] r@[b].spec_index(),
            forall|id: Id|
                #[trigger] self.live().contains_key(id) ==> exists|k: int|
                    0 <= k < r@.len() && #[trigger] r@[k].spec_entity().spec_id() == id,
    {
        let mut out: Vec<&IndexedEntity<T>> = Vec::new();
        let mut i: usize = 0;
        while i < self.slots.len()
            invariant
                self.wf(),
                0 <= i <= self.slots@.len(),
                forall|k: int|
                    0 <= k < out@.len() ==> {
                        &&& self.live().contains_key(#[trigger] out@[k].spec_entity().spec_id())
                        &&& self.live()[out@[k].spec_entity().spec_id()] == out@[k].spec_index()
                        &&& out@[k].spec_index() < i
                    },
                forall|a: int, b: int|
                    0 <= a < b < out@.len() ==> #[trigger] out@[a].spec_index()
                        < #[trigger] out@[b].spec_index(),
                forall|id: Id|
                    #[trigger] self.live().contains_key(id) && self.live()[id] < i ==> exists|k: int|
                        0 <= k < out@.len() && #[trigger] out@[k].spec_entity().spec_id() == id,
            decreases self.slots@.len() - i,
        {
            proof {
                assert(self.slot_ok(i as int));
            }
            match &self.slots[i] {
                Some(ie) => {
                    let ghost prev = out@;
                    out.push(ie);
                    proof {
                        let n = out@.len() - 1;
                        assert(out@ == prev.push(ie));
                        assert(ie.spec_index() == i);
                        assert forall|k: int| 0 <= k < out@.len() implies {
                            &&& self.live().contains_key(#[trigger] out@[k].spec_entity().spec_id())
                            &&& self.live()[out@[k].spec_entity().spec_id()] == out@[k].spec_index()
                            &&& out@[k].spec_index() < i + 1
                        } by {
                            if k < n {
                                assert(out@[k] == prev[k]);
                                assert(self.live().contains_key(prev[k].spec_entity().spec_id()));
                            }
                        }
                        assert forall|a: int, b: int|
                            0 <= a < b < out@.len() implies #[trigger] out@[a].spec_index()
                                < #[trigger] out@[b].spec_index() by {
                            if b == n {
                                assert(out@[a] == prev[a]);
                                assert(self.live().contains_key(prev[a].spec_entity().spec_id()));
                            } else {
                                assert(out@[a] == prev[a] && out@[b] == prev[b]);
                            }
                        }
                        assert forall|id: Id|
                            #[trigger] self.live().contains_key(id) && self.live()[id] < i + 1 implies exists|k: int|
                                0 <= k < out@.len() && #[trigger] out@[k].spec_entity().spec_id() == id by {
                            if self.live()[id] == i {
                                assert(out@[n].spec_entity().spec_id() == id);
                            } else {
                                let k = choose|k: int| 0 <= k < prev.len() && #[trigger] prev[k].spec_entity().spec_id() == id;
                                assert(out@[k] == prev[k]);
                            }
                        }
                    }
                },
                None => {
                    proof {
                        assert forall|id: Id| #[trigger] self.live().contains_key(id) implies self.live()[id] != i by {}
                    }
                },
            }
            i = i + 1;
        }
        out
    }

    /// The live entities, in order of their dense index, on which `aspect`
    /// returned true; on each of the others it returned false.
    pub fn filter<F: Fn(&IndexedEntity<T>) -> bool>(&self, aspect: F) -> (r: Vec<&IndexedEntity<T>>)
        requires
            self.wf(),
            forall|x: &IndexedEntity<T>| #[trigger] aspect.requires((x,)),
        ensures
            forall|k: int|
                0 <= k < r@.len() ==> {
                    &&& self.live().contains_key(#[trigger] r@[k].spec_entity().spec_id())
                    &&& self.live()[r@[k].spec_entity().spec_id()] == r@[k].spec_index()
                    &&& aspect.ensures((r@[k],), true)
                },
            forall|a: int, b: int|
                0 <= a < b < r@.len() ==> #[trigger] r@[a].spec_index() < #[trigger] r@[b].spec_index(),
            forall|id: Id|
                #[trigger] self.live().contains_key(id) ==> (exists|k: int|
                    0 <= k < r@.len() && #[trigger] r@[k].spec_entity().spec_id() == id) || (exists|
                    x: &IndexedEntity<T>,
                |
                    x.spec_entity().spec_id() == id && x.spec_index() == self.live()[id]
                        && #[trigger] aspect.ensures((x,), false)),
    {
        let mut out: Vec<&IndexedEntity<T>> = Vec::new();
        let mut i: usize = 0;
        while i < self.slots.len()
            invariant
                self.wf(),
                0 <= i <= self.slots@.len(),
                forall|x: &IndexedEntity<T>| #[trigger] aspect.requires((x,)),
                self.listed_below(out@, i as int),
                forall|k: int| 0 <= k < out@.len() ==> aspect.ensures((#[trigger] out@[k],), true),
                forall|a: int, b: int|
                    0 <= a < b < out@.len() ==> #[trigger] out@[a].spec_index()
                        < #[trigger] out@[b].spec_index(),
                forall|id: Id|
                    #[trigger] self.live().contains_key(id) && self.live()[id] < i ==> (exists|k: int|
                        0 <= k < out@.len() && #[trigger] out@[k].spec_entity().spec_id() == id) || (exists|
                        x: &IndexedEntity<T>,
                    |
                        x.spec_entity().spec_id() == id && x.spec_index() == self.live()[id]
                            && #[trigger] aspect.ensures((x,), false)),
            decreases self.slots@.len() - i,
        {
            proof {
                assert(self.slot_ok(i as int));
            }
            match &self.slots[i] {
                Some(ie) => {
                    let keep = aspect(ie);
                    if keep {
                        let ghost prev = out@;
                        out.push(ie);
                        proof {
                            let n = out@.len() - 1;
                            assert(out@ == prev.push(ie));
                            assert(ie.spec_index() == i);
                            assert forall|k: int| 0 <= k < out@.len() implies {
                                &&& self.live().contains_key(#[trigger] out@[k].spec_entity().spec_id())
                                &&& self.live()[out@[k].spec_entity().spec_id()] == out@[k].spec_index()
                                &&& out@[k].spec_index() < i + 1
                                &&& aspect.ensures((out@[k],), true)
                            } by {
                                if k < n {
                                    assert(out@[k] == prev[k]);
                                    assert(self.live().contains_key(prev[k].spec_entity().spec_id()));
                                }
                            }
                            assert forall|a: int, b: int|
                                0 <= a < b < out@.len() implies #[trigger] out@[a].spec_index()
                                    < #[trigger] out@[b].spec_index() by {
                                if b == n {
                                    assert(out@[a] == prev[a]);
                                    assert(self.live().contains_key(prev[a].spec_entity().spec_id()));
                                } else {
                                    assert(out@[a] == prev[a] && out@[b] == prev[b]);
                                }
                            }
                            assert forall|id: Id|
                                #[trigger] self.live().contains_key(id) && self.live()[id] < i + 1 implies (exists|k: int|
                                    0 <= k < out@.len() && #[trigger] out@[k].spec_entity().spec_id() == id) || (exists|
                                    x: &IndexedEntity<T>,
                                |
                                    x.spec_entity().spec_id() == id && x.spec_index() == self.live()[id]
                                        && #[trigger] aspect.ensures((x,), false)) by {
                                if self.live()[id] == i {
                                    assert(out@[n].spec_entity().spec_id() == id);
                                } else if exists|k: int| 0 <= k < prev.len() && #[trigger] prev[k].spec_entity().spec_id() == id {
                                    let k = choose|k: int| 0 <= k < prev.len() && #[trigger] prev[k].spec_entity().spec_id() == id;
                                    assert(out@[k] == prev[k]);
                                }
                            }
                        }
                    } else {
                        proof {
                            assert forall|id: Id|
                                #[trigger] self.live().contains_key(id) && self.live()[id] < i + 1 implies (exists|k: int|
                                    0 <= k < out@.len() && #[trigger] out@[k].spec_entity().spec_id() == id) || (exists|
                                    x: &IndexedEntity<T>,
                                |
                                    x.spec_entity().spec_id() == id && x.spec_index() == self.live()[id]
                                        && #[trigger] aspect.ensures((x,), false)) by {
                                if self.live()[id] == i {
                                    assert(aspect.ensures((ie,), false));
                                    assert(ie.spec_entity().spec_id() == id);
                                }
                            }
                        }
                    }
                },
                None => {
                    proof {
                        assert forall|id: Id| #[trigger] self.live().contains_key(id) implies self.live()[id] != i by {}
                    }
                },
            }
            assert(self.listed_below(out@, i + 1));
            i = i + 1;
        }
        out
    }

    /// The slot table encodes to the live bindings in index order.
    proof fn lemma_slots_as_entries(&self, u: nat)
        requires
            self.wf(),
            u <= self.slots@.len(),
        ensures
            encode_slots(self.slots@.take(u as int)) == encode_entries(live_entries(self.live(), u)),
        decreases u,
    {
        if u > 0 {
            let t = u - 1;
            self.lemma_slots_as_entries(t as nat);
            let sl = self.slots@;
            assert(sl.take(u as int).drop_last() =~= sl.take(t));
            assert(sl.take(u as int).last() == sl[t]);
            assert(self.slot_ok(t));
            let prev = live_entries(self.live(), t as nat);
            match sl[t] {
                Some(ie) => {
                    let id = ie.spec_entity().spec_id();
                    assert(self.live().contains_key(id) && self.live()[id] == t);
                    let c = choose|c: Id| self.live().contains_key(c) && self.live()[c] == t;
                    assert(self.slots@[self.live()[c] as int]->0.spec_entity().spec_id() == c);
                    assert(binding_at(self.live(), t) == Some(id));
                    let es = live_entries(self.live(), u);
                    assert(es == prev.push((id, t as usize)));
                    assert(es.drop_last() =~= prev);
                    assert(encode_slots(sl.take(u as int)) =~= encode_entries(es));
                },
                None => {
                    assert forall|id: Id| self.live().contains_key(id) implies self.live()[id] != t by {
                        if self.live()[id] == t {
                            assert(self.slots@[self.live()[id] as int] is Some);
                        }
                    }
                    assert(binding_at(self.live(), t) is None);
                    assert(live_entries(self.live(), u) =~= prev);
                    assert(encode_slots(sl.take(u as int)) =~= encode_slots(sl.take(t)));
                },
            }
        }
    }

    /// The bytes read off the slot table are the layout over the views.
    proof fn lemma_raw_is_layout(&self)
        requires
            self.wf(),
        ensures
            self.raw_bytes() == self.snapshot_bytes(),
    {
        self.lemma_slots_as_entries(self.slots@.len() as nat);
        assert(self.slots@.take(self.slots@.len() as int) =~= self.slots@);
    }

    /// The snapshot of this manager, laid out by [`snapshot_layout`].
    pub open spec fn snapshot_bytes(&self) -> Seq<u8> {
        snapshot_layout(self.recycled(), self.index_bound(), self.live(), self.issued())
    }

    /// The same bytes, read off the slot table.
    spec fn raw_bytes(&self) -> Seq<u8> {
        be_bytes(self.recycled().len() as u64) + encode_indices(self.recycled()) + be_bytes(
            self.index_bound() as u64,
        ) + be_bytes(self.live().len() as u64) + encode_slots(self.slots@) + be_bytes(self.issued())
    }

    /// Encodes the manager's state; refused while events are queued.
    pub fn snapshot(&self) -> (r: Result<Vec<u8>, SnapshotError>)
        requires
            self.wf(),
        ensures
            match r {
                Ok(b) => self.pending().len() == 0 && b@ == snapshot_layout(
                    self.recycled(),
                    self.index_bound(),
                    self.live(),
                    self.issued(),
                ),
                Err(e) => self.pending().len() > 0 && e == SnapshotError::PendingEvents,
            },
    {
        if self.event_queue.len() != 0 {
            return Err(SnapshotError::PendingEvents);
        }
        let mut out: Vec<u8> = Vec::new();
        let rec = self.indices.recycled();
        push_u64(&mut out, rec.len() as u64);
        push_indices(&mut out, rec);
        push_u64(&mut out, self.indices.next_index() as u64);
        push_u64(&mut out, self.entities.len() as u64);
        let ghost head = out@;
        let mut i: usize = 0;
        assert(self.slots@.take(0) =~= Seq::<Option<IndexedEntity<T>>>::empty());
        assert(head + Seq::<u8>::empty() =~= head);
        while i < self.slots.len()
            invariant
                0 <= i <= self.slots@.len(),
                out@ == head + encode_slots(self.slots@.take(i as int)),
            decreases self.slots@.len() - i,
        {
            let ghost before = out@;
            match &self.slots[i] {
                Some(ie) => {
                    let id = ie.entity().id();
                    push_u64(&mut out, id);
                    push_u64(&mut out, ie.index() as u64);
                    push_u64(&mut out, id);
                },
                None => {},
            }
            proof {
                let next = self.slots@.take(i as int + 1);
                assert(next.drop_last() =~= self.slots@.take(i as int));
                assert(next.last() == self.slots@[i as int]);
                match self.slots@[i as int] {
                    Some(ie) => {
                        assert(out@ =~= head + encode_slots(next));
                    },
                    None => {
                        assert(out@ =~= head + encode_slots(next));
                    },
                }
            }
            i = i + 1;
        }
        assert(self.slots@.take(self.slots@.len() as int) =~= self.slots@);
        push_u64(&mut out, self.next_id);
        proof {
            self.lemma_raw_is_layout();
            assert(out@ =~= self.raw_bytes());
        }
        Ok(out)
    }

    /// Whether one more entity can be created without a counter overflowing.
    pub fn can_create(&self) -> (r: bool)
        ensures
            r == self.spec_can_create(),
    {
        self.next_id < u64::MAX && self.indices.next_index_below_max()
    }
}

impl<T: ComponentManager> EntityManager<T> {
    /// Drains the event log in order: activates built entities, and for each
    /// removed one deactivates it, strips its attributes and frees its index.
    /// Events whose entity is no longer live are dropped. Returns what was done.
    pub fn flush_queue<M, S: SystemManager<T, M>>(
        &mut self,
        c: &mut T,
        m: &mut M,
        s: &mut S,
    ) -> (r: Vec<Notice>)
        requires
            old(self).wf(),
        ensures
            final(self).wf(),
            final(self).pending() == Seq::<Event>::empty(),
            final(self).live() == replay_live(old(self).live(), old(self).pending()),
            r@ == replay_notices(old(self).live(), old(self).pending()),
            final(self).live().len() + replay_freed(old(self).live(), old(self).pending()).len()
                == old(self).live().len(),
            final(self).recycled() == old(self).recycled() + replay_freed(
                old(self).live(),
                old(self).pending(),
            ),
            final(self).issued() == old(self).issued(),
            final(self).index_bound() == old(self).index_bound(),
    {
        let mut queue: Vec<Event> = Vec::new();
        std::mem::swap(&mut queue, &mut self.event_queue);
        proof {
            Self::lemma_wf_frame(old(self), self);
            assert(queue@.take(0) =~= Seq::<Event>::empty());
            assert(old(self).recycled() + Seq::<usize>::empty() =~= old(self).recycled());
        }
        let ghost live0 = old(self).live();
        let ghost rec0 = old(self).recycled();
        let mut out: Vec<Notice> = Vec::new();
        let mut i: usize = 0;
        while i < queue.len()
            invariant
                self.wf(),
                0 <= i <= queue.len(),
                queue@ == old(self).pending(),
                self.pending() == Seq::<Event>::empty(),
                self.live() == replay_live(live0, queue@.take(i as int)),
                out@ == replay_notices(live0, queue@.take(i as int)),
                self.recycled() == rec0 + replay_freed(live0, queue@.take(i as int)),
                self.issued() == old(self).issued(),
                self.index_bound() == old(self).index_bound(),
            decreases queue.len() - i,
        {
            let ev = queue[i];
            let ghost live_before = self.live();
            let ghost rec_before = self.recycled();
            match ev {
                Event::BuildEntity(e) => {
                    if self.is_valid(&e) {
                        let ie = self.indexed(&e);
                        let idx = ie.index();
                        s.activated(ie, c, m);
                        out.push(Notice::Activated(e, idx));
                    }
                },
                Event::RemoveEntity(e) => {
                    if self.is_valid(&e) {
                        let ie = self.indexed(&e);
                        let idx = ie.index();
                        s.deactivated(ie, c, m);
                        c.remove_all(ie);
                        self.remove(&e);
                        out.push(Notice::Deactivated(e, idx));
                    } else {
                        proof {
                            assert(live_before.remove(e.spec_id()) =~= live_before);
                        }
                    }
                },
            }
            proof {
                let pre = queue@.take(i as int);
                let next = queue@.take(i as int + 1);
                assert(next.drop_last() =~= pre);
                assert(next.last() == ev);
                assert(rec_before + freed_of(live_before, ev) == rec0 + replay_freed(live0, next))
                    by {
                    assert(rec0 + (replay_freed(live0, pre) + freed_of(live_before, ev)) =~= rec0
                        + replay_freed(live0, pre) + freed_of(live_before, ev));
                }
                if !(ev is RemoveEntity && live_before.contains_key(ev->RemoveEntity_0.spec_id())) {
                    assert(rec_before + freed_of(live_before, ev) =~= rec_before);
                }
                if !live_before.contains_key(
                    match ev {
                        Event::BuildEntity(e) => e.spec_id(),
                        Event::RemoveEntity(e) => e.spec_id(),
                    },
                ) {
                    assert(replay_notices(live0, next) =~= replay_notices(live0, pre));
                }
            }
            i = i + 1;
        }
        proof {
            assert(queue@.take(queue@.len() as int) =~= queue@);
        }
        out
    }
}

impl<T> EntityManager<T> {
    /// Appends an empty slot at a free index.
    fn push_free_slot(
        slots: &mut Vec<Option<IndexedEntity<T>>>,
        map: &HashMap<Id, usize>,
        free: &Vec<bool>,
        max_id: u64,
    )
        requires
            partial_slots_ok(map@, old(slots)@, free@, max_id),
            old(slots)@.len() < free@.len(),
            free@[old(slots)@.len() as int],
        ensures
            partial_slots_ok(map@, final(slots)@, free@, max_id),
            final(slots)@ == old(slots)@.push(None),
            encode_slots(final(slots)@) == encode_slots(old(slots)@),
            count_some(final(slots)@) == count_some(old(slots)@),
    {
        slots.push(None);
        proof {
            assert(slots@.drop_last() =~= old(slots)@);
            assert forall|i: int| 0 <= i < slots@.len() implies match #[trigger] slots@[i] {
                Some(ie) => {
                    &&& ie.spec_index() == i
                    &&& map@.contains_key(ie.spec_entity().spec_id())
                    &&& map@[ie.spec_entity().spec_id()] == i
                    &&& !free@[i]
                },
                None => free@[i],
            } by {
                if i < old(slots)@.len() {
                    assert(slots@[i] == old(slots)@[i]);
                }
            }
        }
    }

    /// The table of recycled indices below `next_index`; none where an index
    /// repeats or is out of range.
    fn free_table(rec: &Vec<usize>, next_index: usize) -> (r: Option<Vec<bool>>)
        ensures
            match r {
                Some(free) => {
                    &&& free@.len() == next_index
                    &&& rec@.no_duplicates()
                    &&& forall|t: int| 0 <= t < rec@.len() ==> #[trigger] rec@[t] < next_index
                    &&& forall|t: int|
                        0 <= t < next_index ==> (#[trigger] free@[t] <==> rec@.contains(t as usize))
                },
                None => true,
            },
            rec@.no_duplicates() && (forall|t: int|
                0 <= t < rec@.len() ==> #[trigger] rec@[t] < next_index) ==> r is Some,
    {
        let mut free: Vec<bool> = Vec::new();
        let mut i: usize = 0;
        while i < next_index
            invariant
                i <= next_index,
                free@.len() == i,
                forall|t: int| 0 <= t < i ==> !#[trigger] free@[t],
            decreases next_index - i,
        {
            free.push(false);
            i = i + 1;
        }
        let mut j: usize = 0;
        assert(rec@.take(0) =~= Seq::<usize>::empty());
        while j < rec.len()
            invariant
                free@.len() == next_index,
                j <= rec@.len(),
                rec@.take(j as int).no_duplicates(),
                forall|t: int| 0 <= t < j ==> #[trigger] rec@[t] < next_index,
                forall|t: int|
                    0 <= t < next_index ==> (#[trigger] free@[t] <==> rec@.take(j as int).contains(
                        t as usize,
                    )),
            decreases rec@.len() - j,
        {
            let v = rec[j];
            proof {
                if rec@.no_duplicates() && rec@.take(j as int).contains(v) {
                    let w = choose|w: int| 0 <= w < j && rec@.take(j as int)[w] == v;
                    assert(rec@[w] == rec@[j as int]);
                }
            }
            if v >= next_index || free[v] {
                return None;
            }
            let ghost old_free = free@;
            free.set(v, true);
            proof {
                let a = rec@.take(j as int);
                let b = rec@.take(j as int + 1);
                assert(b =~= a.push(v));
                assert(!a.contains(v));
                assert forall|t: int| 0 <= t < next_index implies (#[trigger] free@[t] <==> b.contains(
                    t as usize,
                )) by {
                    if t == v as int {
                        assert(b[j as int] == v);
                    } else {
                        assert(free@[t] == old_free[t]);
                        if a.contains(t as usize) {
                            let w = choose|w: int| 0 <= w < a.len() && a[w] == t as usize;
                            assert(b[w] == t as usize);
                        }
                        if b.contains(t as usize) {
                            let w = choose|w: int| 0 <= w < b.len() && b[w] == t as usize;
                            assert(w != j as int);
                            assert(a[w] == t as usize);
                        }
                    }
                }
                assert forall|x: int, y: int| 0 <= x < b.len() && 0 <= y < b.len() && x != y implies b[x]
                    != b[y] by {
                    if x == j as int {
                        assert(a.contains(b[y]) || y == j as int);
                    } else if y == j as int {
                        assert(a.contains(b[x]));
                    }
                }
            }
            j = j + 1;
        }
        assert(rec@.take(rec@.len() as int) =~= rec@);
        Some(free)
    }

    /// Both sides of the snapshot's slot table: the bytes hold it after
    /// `prefix`, empty exactly at the free indices, with its bindings agreeing
    /// with `live0` and identifiers no greater than `nid0`.
    spec fn slots_match(
        bytes: Seq<u8>,
        prefix: Seq<u8>,
        free: Seq<bool>,
        s0: Seq<Option<IndexedEntity<T>>>,
        live0: Map<Id, usize>,
        nid0: u64,
    ) -> bool {
        &&& bytes == prefix + encode_slots(s0) + be_bytes(nid0)
        &&& s0.len() == free.len()
        &&& forall|t: int|
            0 <= t < s0.len() ==> (#[trigger] s0[t] is None <==> free[t]) && match s0[t] {
                Some(ie) => {
                    &&& ie.spec_index() == t
                    &&& live0.contains_key(ie.spec_entity().spec_id())
                    &&& live0[ie.spec_entity().spec_id()] == t
                    &&& 0 < ie.spec_entity().spec_id() <= nid0
                },
                None => true,
            }
    }

    /// Reads one slot per entry of `free`, starting at `start`: nothing for a
    /// free index, else a binding for exactly that index with a fresh
    /// non-zero identifier.
    #[verifier::rlimit(100)]
    fn decode_slots(
        bytes: &Vec<u8>,
        start: usize,
        free: &Vec<bool>,
        Ghost(prefix): Ghost<Seq<u8>>,
        Ghost(ok0): Ghost<bool>,
        Ghost(s0): Ghost<Seq<Option<IndexedEntity<T>>>>,
        Ghost(live0): Ghost<Map<Id, usize>>,
        Ghost(nid0): Ghost<u64>,
    ) -> (r: Option<(HashMap<Id, usize>, Vec<Option<IndexedEntity<T>>>, usize, usize, u64)>)
        requires
            start <= bytes@.len(),
            bytes@.subrange(0, start as int) == prefix,
            ok0 ==> Self::slots_match(bytes@, prefix, free@, s0, live0, nid0),
        ensures
            match r {
                Some((map, slots, pos, e, max_id)) => {
                    &&& slots@.len() == free@.len()
                    &&& map@.len() == e
                    &&& count_some(slots@) == e
                    &&& partial_slots_ok(map@, slots@, free@, max_id)
                    &&& pos <= bytes@.len()
                    &&& bytes@.subrange(0, pos as int) == prefix + encode_slots(slots@)
                    &&& ok0 ==> pos + 8 == bytes@.len() && e == count_some(s0) && max_id <= nid0
                },
                None => true,
            },
            ok0 ==> r is Some,
    {
        let next_index = free.len();
        let len = bytes.len();
        let mut pos = start;
        let mut map: HashMap<Id, usize> = HashMap::new();
        let mut slots: Vec<Option<IndexedEntity<T>>> = Vec::new();
        let mut max_id: u64 = 0;
        let mut e: usize = 0;
        proof {
            assert(bytes@.subrange(0, pos as int) =~= prefix + encode_slots(slots@));
            if ok0 {
                assert(s0.take(0) =~= slots@);
                lemma_encode_slots_len(s0);
            }
        }
        while slots.len() < next_index
            invariant
                len == bytes@.len(),
                pos <= len,
                next_index == free@.len(),
                slots@.len() <= next_index,
                map@.len() == e,
                e <= slots@.len(),
                count_some(slots@) == e,
                partial_slots_ok(map@, slots@, free@, max_id),
                bytes@.subrange(0, pos as int) == prefix + encode_slots(slots@),
                ok0 ==> Self::slots_match(bytes@, prefix, free@, s0, live0, nid0),
                ok0 ==> encode_slots(slots@) == encode_slots(s0.take(slots@.len() as int)),
                ok0 ==> e == count_some(s0.take(slots@.len() as int)),
                ok0 ==> max_id <= nid0,
                ok0 ==> forall|x: Id| #[trigger]
                    map@.contains_key(x) ==> live0.contains_key(x) && live0[x] < slots@.len(),
            decreases next_index - slots@.len(),
        {
            let t = slots.len();
            let ghost old_slots = slots@;
            let ghost old_map = map@;
            proof {
                if ok0 {
                    assert(s0[t as int] is None <==> free@[t as int]);
                    assert(s0.take(t + 1).drop_last() =~= s0.take(t as int));
                    assert(s0.take(t + 1).last() == s0[t as int]);
                }
            }
            if free[t] {
                Self::push_free_slot(&mut slots, &map, &free, max_id);
            } else {
                proof {
                    if ok0 {
                        let ie = s0[t as int]->0;
                        let l0 = encode_slots(s0.take(t as int)).len() as int;
                        lemma_encode_slots_prefix(s0, t + 1);
                        lemma_encode_slots_len(s0);
                        let ent = be_bytes(ie.spec_entity().spec_id()) + be_bytes(
                            ie.spec_index() as u64,
                        ) + be_bytes(ie.spec_entity().spec_id());
                        assert(encode_slots(s0.take(t + 1)) == encode_slots(s0.take(t as int))
                            + ent);
                        assert(bytes@.subrange(0, pos as int).len() == pos);
                        assert(pos == prefix.len() + l0);
                        assert(bytes@.subrange(pos as int, pos + 24) =~= encode_slots(s0).subrange(
                            l0,
                            l0 + 24,
                        ));
                        assert(encode_slots(s0).subrange(l0, l0 + 24) =~= encode_slots(
                            s0.take(t + 1),
                        ).subrange(l0, l0 + 24));
                        assert(bytes@.subrange(pos as int, pos + 24) =~= ent);
                    }
                }
                if len - pos < 24 {
                    return None;
                }
                let id = read_u64(bytes, pos);
                let idx_w = read_u64(bytes, pos + 8);
                let id2 = read_u64(bytes, pos + 16);
                proof {
                    if ok0 {
                        let ie = s0[t as int]->0;
                        let w = bytes@.subrange(pos as int, pos + 24);
                        let ent = be_bytes(ie.spec_entity().spec_id()) + be_bytes(
                            ie.spec_index() as u64,
                        ) + be_bytes(ie.spec_entity().spec_id());
                        assert(w == ent);
                        assert(bytes@.subrange(pos + 8, pos + 16) =~= w.subrange(8, 16));
                        assert(bytes@.subrange(pos + 16, pos + 24) =~= w.subrange(16, 24));
                        assert(bytes@.subrange(pos as int, pos + 8) =~= w.subrange(0, 8));
                        assert(w.subrange(0, 8) =~= be_bytes(ie.spec_entity().spec_id()));
                        assert(w.subrange(8, 16) =~= be_bytes(ie.spec_index() as u64));
                        assert(w.subrange(16, 24) =~= be_bytes(ie.spec_entity().spec_id()));
                        assert(bytes@.subrange(pos as int, pos + 8) =~= be_bytes(
                            ie.spec_entity().spec_id(),
                        ));
                        assert(bytes@.subrange(pos + 8, pos + 16) =~= be_bytes(
                            ie.spec_index() as u64,
                        ));
                        assert(bytes@.subrange(pos + 16, pos + 24) =~= be_bytes(
                            ie.spec_entity().spec_id(),
                        ));
                        lemma_be_bytes_injective(id, ie.spec_entity().spec_id());
                        lemma_be_bytes_injective(idx_w, ie.spec_index() as u64);
                        lemma_be_bytes_injective(id2, ie.spec_entity().spec_id());
                        assert(live0.contains_key(id));
                        assert(!map@.contains_key(id));
                    }
                }
                if id2 != id || id == 0 || idx_w != t as u64 {
                    return None;
                }
                if map.contains_key(&id) {
                    return None;
                }
                let entity = Entity::with_id(id);
                slots.push(Some(IndexedEntity::mint(t, entity)));
                map.insert(id, t);
                if id > max_id {
                    max_id = id;
                }
                proof {
                    assert(slots@.drop_last() =~= old_slots);
                    assert(bytes@.subrange(0, pos + 24) =~= bytes@.subrange(0, pos as int)
                        + bytes@.subrange(pos as int, pos + 8) + bytes@.subrange(pos + 8, pos + 16)
                        + bytes@.subrange(pos + 16, pos + 24));
                    assert(bytes@.subrange(0, pos + 24) =~= prefix + encode_slots(slots@));
                    assert forall|x: Id| #[trigger] map@.contains_key(x) implies {
                        &&& 0 < x <= max_id
                        &&& map@[x] < slots@.len()
                        &&& slots@[map@[x] as int] is Some
                        &&& slots@[map@[x] as int]->0.spec_entity().spec_id() == x
                    } by {
                        if x != id {
                            assert(old_map.contains_key(x));
                        }
                    }
                    assert forall|q: int| 0 <= q < slots@.len() implies match #[trigger] slots@[q] {
                        Some(ie) => {
                            &&& ie.spec_index() == q
                            &&& map@.contains_key(ie.spec_entity().spec_id())
                            &&& map@[ie.spec_entity().spec_id()] == q
                            &&& !free@[q]
                        },
                        None => free@[q],
                    } by {
                        if q < old_slots.len() {
                            assert(slots@[q] == old_slots[q]);
                            if let Some(ie) = old_slots[q] {
                                assert(old_map.contains_key(ie.spec_entity().spec_id()));
                            }
                        }
                    }
                    if ok0 {
                        assert forall|x: Id| #[trigger] map@.contains_key(x) implies live0.contains_key(
                            x,
                        ) && live0[x] < slots@.len() by {
                            if x != id {
                                assert(old_map.contains_key(x));
                            }
                        }
                    }
                }
                pos = pos + 24;
                e = e + 1;
            }
        }
        proof {
            if ok0 {
                assert(s0.take(s0.len() as int) =~= s0);
                lemma_encode_slots_len(s0);
                lemma_encode_slots_len(slots@);
            }
        }
        Some((map, slots, pos, e, max_id))
    }

    /// Puts decoded parts together into a manager with an empty event log.
    fn assemble(
        rec: Vec<usize>,
        map: HashMap<Id, usize>,
        slots: Vec<Option<IndexedEntity<T>>>,
        next_id: u64,
        Ghost(free): Ghost<Seq<bool>>,
        Ghost(max_id): Ghost<u64>,
    ) -> (m: Self)
        requires
            rec@.no_duplicates(),
            forall|t: int| 0 <= t < rec@.len() ==> #[trigger] rec@[t] < free.len(),
            forall|t: int| 0 <= t < free.len() ==> (#[trigger] free[t] <==> rec@.contains(t as usize)),
            slots@.len() == free.len(),
            partial_slots_ok(map@, slots@, free, max_id),
            max_id <= next_id,
            count_some(slots@) == map@.len(),
            map@.len() + rec@.len() == free.len(),
        ensures
            m.wf(),
            m.pending() == Seq::<Event>::empty(),
            m.raw_bytes() == be_bytes(rec@.len() as u64) + encode_indices(rec@) + be_bytes(
                slots@.len() as u64,
            ) + be_bytes(map@.len() as u64) + encode_slots(slots@) + be_bytes(next_id),
    {
        let next_index = slots.len();
        let m = EntityManager {
            indices: IndexPool::from_parts(rec, next_index),
            entities: map,
            slots,
            event_queue: Vec::new(),
            next_id,
        };
        proof {
            assert forall|t: int| 0 <= t < m.slots@.len() implies #[trigger] m.slot_ok(t) by {
                assert(free[t] <==> m.indices.spec_recycled().contains(t as usize));
                match m.slots@[t] {
                    Some(ie) => {},
                    None => {},
                }
            }
        }
        m
    }

    /// Rebuilds a manager from the bytes of [`EntityManager::snapshot`].
    /// Succeeds exactly on the snapshots of well-formed managers with no
    /// queued events: recycled indices distinct and below the index bound,
    /// one binding per index that is not recycled, in index order, with
    /// distinct non-zero identifiers no greater than the last one issued,
    /// and nothing left over.
    pub fn restore(bytes: &Vec<u8>) -> (r: Result<EntityManager<T>, SnapshotError>)
        ensures
            match r {
                Ok(m) => m.wf() && m.pending() == Seq::<Event>::empty() && m.snapshot_bytes()
                    == bytes@,
                Err(e) => e == SnapshotError::Malformed,
            },
            forall|m: EntityManager<T>|
                m.wf() && m.pending() == Seq::<Event>::empty() && m.snapshot_bytes() == bytes@
                    ==> r is Ok && #[trigger] m.live() == r->Ok_0.live() && m.recycled()
                    == r->Ok_0.recycled() && m.index_bound() == r->Ok_0.index_bound()
                    && m.issued() == r->Ok_0.issued(),
    {
        let r = Self::decode_manager(bytes);
        proof {
            if r is Ok {
                let m = r->Ok_0;
                assert forall|m2: EntityManager<T>|
                    m2.wf() && m2.pending() == Seq::<Event>::empty() && m2.snapshot_bytes() == bytes@
                        implies #[trigger] m2.live() == m.live() && m2.recycled() == m.recycled()
                        && m2.index_bound() == m.index_bound() && m2.issued() == m.issued() by {
                    m2.lemma_live_facts();
                    m.lemma_live_facts();
                    assert(m2.snapshot_bytes() == m.snapshot_bytes());
                    lemma_layout_injective(
                        m2.recycled(),
                        m2.index_bound(),
                        m2.live(),
                        m2.issued(),
                        m.recycled(),
                        m.index_bound(),
                        m.live(),
                        m.issued(),
                    );
                }
            }
        }
        r
    }

    /// Decodes and checks a snapshot; the work behind [`EntityManager::restore`].
    #[verifier::rlimit(100)]
    #[verifier::spinoff_prover]
    fn decode_manager(bytes: &Vec<u8>) -> (r: Result<EntityManager<T>, SnapshotError>)
        ensures
            match r {
                Ok(m) => m.wf() && m.pending() == Seq::<Event>::empty() && m.snapshot_bytes()
                    == bytes@,
                Err(e) => e == SnapshotError::Malformed,
            },
            (exists|m: EntityManager<T>|
                m.wf() && m.pending() == Seq::<Event>::empty() && m.snapshot_bytes() == bytes@)
                ==> r is Ok,
    {
        let ghost ok0 = exists|m: EntityManager<T>|
            m.wf() && m.pending() == Seq::<Event>::empty() && m.snapshot_bytes() == bytes@;
        let ghost m0 = choose|m: EntityManager<T>|
            m.wf() && m.pending() == Seq::<Event>::empty() && m.snapshot_bytes() == bytes@;
        let ghost s0 = m0.slots@;
        let ghost rec0 = m0.recycled();
        let ghost ni0 = m0.index_bound();
        let ghost n0 = m0.live().len();
        let ghost nid0 = m0.issued();
        let ghost p0 = be_bytes(rec0.len() as u64) + encode_indices(rec0) + be_bytes(ni0 as u64)
            + be_bytes(n0 as u64);
        proof {
            if ok0 {
                m0.lemma_raw_is_layout();
                lemma_encode_indices(rec0);
                lemma_encode_slots_len(s0);
                assert(bytes@ == p0 + encode_slots(s0) + be_bytes(nid0));
            }
        }
        let len = bytes.len();
        if len < 8 {
            return Err(SnapshotError::Malformed);
        }
        let rc = read_u64(bytes, 0);
        proof {
            if ok0 {
                assert(bytes@.subrange(0, 8) =~= be_bytes(rec0.len() as u64));
                lemma_be_bytes_injective(rc, rec0.len() as u64);
            }
        }
        if rc > ((len - 8) / 8) as u64 {
            return Err(SnapshotError::Malformed);
        }
        let rc_n = rc as usize;
        proof {
            if ok0 {
                assert(bytes@.subrange(8, 8 + 8 * rc_n) =~= encode_indices(rec0));
            }
        }
        let rec = match read_indices(bytes, 8, rc_n, Ghost(ok0), Ghost(rec0)) {
            Some(v) => v,
            None => {
                return Err(SnapshotError::Malformed);
            },
        };
        let pos: usize = 8 + 8 * rc_n;
        proof {
            assert(bytes@.subrange(0, pos as int) =~= bytes@.subrange(0, 8) + bytes@.subrange(
                8,
                pos as int,
            ));
        }
        if len - pos < 16 {
            return Err(SnapshotError::Malformed);
        }
        let ni_w = read_u64(bytes, pos);
        let n_w = read_u64(bytes, pos + 8);
        proof {
            if ok0 {
                assert(bytes@.subrange(pos as int, pos + 8) =~= be_bytes(ni0 as u64));
                assert(bytes@.subrange(pos + 8, pos + 16) =~= be_bytes(n0 as u64));
                lemma_be_bytes_injective(ni_w, ni0 as u64);
                lemma_be_bytes_injective(n_w, n0 as u64);
                m0.indices.lemma_recycled_fit();
            }
        }
        if ni_w > len as u64 || n_w > ni_w || ni_w - n_w != rc {
            return Err(SnapshotError::Malformed);
        }
        let next_index = ni_w as usize;
        let n = n_w as usize;
        let ghost prefix = be_bytes(rc) + encode_indices(rec@) + be_bytes(ni_w) + be_bytes(n_w);
        proof {
            assert(bytes@.subrange(0, pos + 16) =~= bytes@.subrange(0, pos as int)
                + bytes@.subrange(pos as int, pos + 8) + bytes@.subrange(pos + 8, pos + 16));
            if ok0 {
                assert(prefix == p0);
            }
        }
        let pos = pos + 16;
        let free = match Self::free_table(&rec, next_index) {
            Some(f) => f,
            None => {
                proof {
                    if ok0 {
                        assert(m0.indices.wf());
                    }
                }
                return Err(SnapshotError::Malformed);
            },
        };
        // One slot per index: recycled ones empty, the others bound in order.
        proof {
            if ok0 {
                assert forall|t: int| 0 <= t < s0.len() implies (#[trigger] s0[t] is None <==> free@[t])
                    && match s0[t] {
                    Some(ie) => {
                        &&& ie.spec_index() == t
                        &&& m0.live().contains_key(ie.spec_entity().spec_id())
                        &&& m0.live()[ie.spec_entity().spec_id()] == t
                        &&& 0 < ie.spec_entity().spec_id() <= nid0
                    },
                    None => true,
                } by {
                    assert(m0.slot_ok(t));
                }
                assert(bytes@.subrange(0, pos as int) == p0);
            }
        }
        let decoded = Self::decode_slots(
            bytes,
            pos,
            &free,
            Ghost(prefix),
            Ghost(ok0),
            Ghost(s0),
            Ghost(m0.live()),
            Ghost(nid0),
        );
        let (map, slots, pos, e, max_id) = match decoded {
            Some(d) => d,
            None => {
                return Err(SnapshotError::Malformed);
            },
        };
        proof {
            if ok0 {
                lemma_encode_slots_len(s0);
            }
        }
        if e != n {
            return Err(SnapshotError::Malformed);
        }
        if len - pos != 8 {
            return Err(SnapshotError::Malformed);
        }
        let next_id = read_u64(bytes, pos);
        proof {
            if ok0 {
                assert(bytes@.subrange(pos as int, pos + 8) =~= be_bytes(nid0));
                lemma_be_bytes_injective(next_id, nid0);
            }
        }
        if max_id > next_id {
            return Err(SnapshotError::Malformed);
        }
        let m = Self::assemble(rec, map, slots, next_id, Ghost(free@), Ghost(max_id));
        proof {
            m.lemma_raw_is_layout();
            assert(bytes@ =~= bytes@.subrange(0, pos as int) + bytes@.subrange(pos as int, pos + 8));
        }
        Ok(m)
    }
}

} // verus!
