//! Properties that hold across several calls on a manager.

use crate::entity::{Entity, Id};
use crate::codec::{be_bytes, encode_indices, lemma_be_bytes_injective, lemma_encode_indices};
use crate::manager::{
    EntityManager, Event, Notice, binding_at, encode_entries, live_entries, replay_freed,
    replay_live, replay_notices, slot_choice, snapshot_layout,
};
use vstd::prelude::*;

verus! {

/// The entity an event is about.
pub open spec fn event_entity(ev: Event) -> Entity {
    match ev {
        Event::BuildEntity(e) => e,
        Event::RemoveEntity(e) => e,
    }
}

/// The notice an event yields when its entity is live at index `index`.
pub open spec fn expected_notice(ev: Event, index: usize) -> Notice {
    match ev {
        Event::BuildEntity(e) => Notice::Activated(e, index),
        Event::RemoveEntity(e) => Notice::Deactivated(e, index),
    }
}

/// Identifiers are never zero and never repeat: `first` was returned by a
/// creation on `before`, `second` by a creation on a later state `later` of the
/// same manager (whose issued counter has since passed `first`).
pub proof fn lemma_identifiers_unique<T>(
    before: &EntityManager<T>,
    first: Entity,
    later: &EntityManager<T>,
    second: Entity,
)
    requires
        first.spec_id() == before.issued() + 1,
        later.issued() >= first.spec_id(),
        second.spec_id() == later.issued() + 1,
    ensures
        first.spec_id() != 0,
        second.spec_id() != 0,
        first.spec_id() != second.spec_id(),
{
}

/// Once a flush has replayed a removal of `e`, `e` is no longer live.
pub proof fn lemma_flush_invalidates(live: Map<Id, usize>, evs: Seq<Event>, e: Entity)
    requires
        evs.contains(Event::RemoveEntity(e)),
    ensures
        !replay_live(live, evs).contains_key(e.spec_id()),
    decreases evs.len(),
{
    if evs.last() != Event::RemoveEntity(e) {
        let k = choose|k: int| 0 <= k < evs.len() && evs[k] == Event::RemoveEntity(e);
        assert(k != evs.len() - 1);
        assert(evs.drop_last()[k] == evs[k]);
        lemma_flush_invalidates(live, evs.drop_last(), e);
    }
}

/// The index freed by the last event of a flush, a removal of a live entity,
/// is the one that the next creation receives.
pub proof fn lemma_lifo_reuse(
    live: Map<Id, usize>,
    recycled: Seq<usize>,
    next_index: usize,
    evs: Seq<Event>,
    a: Entity,
)
    requires
        evs.len() > 0,
        evs.last() == Event::RemoveEntity(a),
        replay_live(live, evs.drop_last()).contains_key(a.spec_id()),
    ensures
        slot_choice(recycled + replay_freed(live, evs), next_index) == replay_live(
            live,
            evs.drop_last(),
        )[a.spec_id()],
{
    let f = replay_freed(live, evs);
    assert(f == replay_freed(live, evs.drop_last()) + seq![
        replay_live(live, evs.drop_last())[a.spec_id()],
    ]);
    assert((recycled + f).last() == f.last());
}

/// When each event's entity is live at its turn, a flush yields one notice per
/// event, in the order of the events, each naming that event's entity.
pub proof fn lemma_notices_follow_events(live: Map<Id, usize>, evs: Seq<Event>)
    requires
        forall|k: int|
            0 <= k < evs.len() ==> #[trigger] replay_live(live, evs.take(k)).contains_key(
                event_entity(evs[k]).spec_id(),
            ),
    ensures
        replay_notices(live, evs).len() == evs.len(),
        forall|k: int|
            0 <= k < evs.len() ==> #[trigger] replay_notices(live, evs)[k] == expected_notice(
                evs[k],
                replay_live(live, evs.take(k))[event_entity(evs[k]).spec_id()],
            ),
    decreases evs.len(),
{
    if evs.len() > 0 {
        let pre = evs.drop_last();
        let n = evs.len() - 1;
        assert forall|k: int| 0 <= k < pre.len() implies #[trigger] replay_live(
            live,
            pre.take(k),
        ).contains_key(event_entity(pre[k]).spec_id()) by {
            assert(pre.take(k) =~= evs.take(k));
            assert(replay_live(live, evs.take(k)).contains_key(event_entity(evs[k]).spec_id()));
        }
        lemma_notices_follow_events(live, pre);
        assert(evs.take(n) =~= pre);
        assert(replay_live(live, evs.take(n)).contains_key(event_entity(evs[n]).spec_id()));
        let ns = replay_notices(live, evs);
        assert forall|k: int| 0 <= k < evs.len() implies #[trigger] ns[k] == expected_notice(
            evs[k],
            replay_live(live, evs.take(k))[event_entity(evs[k]).spec_id()],
        ) by {
            if k < n {
                assert(pre.take(k) =~= evs.take(k));
                assert(ns[k] == replay_notices(live, pre)[k]);
            }
        }
    }
}

/// Distinct identifiers of `live` are bound to distinct indices below `bound`.
pub open spec fn bindings_ok(live: Map<Id, usize>, bound: usize) -> bool {
    &&& live.dom().finite()
    &&& forall|x: Id| #[trigger] live.contains_key(x) ==> live[x] < bound
    &&& forall|a: Id, b: Id|
        #[trigger] live.contains_key(a) && #[trigger] live.contains_key(b) && a != b ==> live[a]
            != live[b]
}

/// The encoding of bindings is 24 bytes each: identifier, then index.
pub proof fn lemma_encode_entries(es: Seq<(Id, usize)>)
    ensures
        encode_entries(es).len() == 24 * es.len(),
        forall|k: int|
            0 <= k < es.len() ==> #[trigger] encode_entries(es).subrange(24 * k, 24 * k + 8)
                == be_bytes(es[k].0) && encode_entries(es).subrange(24 * k + 8, 24 * k + 16)
                == be_bytes(es[k].1 as u64),
    decreases es.len(),
{
    if es.len() > 0 {
        let d = es.drop_last();
        lemma_encode_entries(d);
        assert forall|k: int| 0 <= k < es.len() implies #[trigger] encode_entries(es).subrange(
            24 * k,
            24 * k + 8,
        ) == be_bytes(es[k].0) && encode_entries(es).subrange(24 * k + 8, 24 * k + 16)
            == be_bytes(es[k].1 as u64) by {
            if k < es.len() - 1 {
                assert(encode_entries(es).subrange(24 * k, 24 * k + 8) =~= encode_entries(
                    d,
                ).subrange(24 * k, 24 * k + 8));
                assert(encode_entries(es).subrange(24 * k + 8, 24 * k + 16) =~= encode_entries(
                    d,
                ).subrange(24 * k + 8, 24 * k + 16));
                assert(d[k] == es[k]);
            } else {
                assert(encode_entries(es).subrange(24 * k, 24 * k + 8) =~= be_bytes(es.last().0));
                assert(encode_entries(es).subrange(24 * k + 8, 24 * k + 16) =~= be_bytes(
                    es.last().1 as u64,
                ));
            }
        }
    }
}

/// The listed bindings are exactly those of `live` below `u`.
pub proof fn lemma_live_entries(live: Map<Id, usize>, bound: usize, u: nat)
    requires
        bindings_ok(live, bound),
        u <= bound,
    ensures
        forall|k: int|
            0 <= k < live_entries(live, u).len() ==> #[trigger] live.contains_key(
                live_entries(live, u)[k].0,
            ) && live[live_entries(live, u)[k].0] == live_entries(live, u)[k].1,
        forall|x: Id|
            #[trigger] live.contains_key(x) && live[x] < u ==> exists|k: int|
                0 <= k < live_entries(live, u).len() && live_entries(live, u)[k] == (x, live[x]),
    decreases u,
{
    if u > 0 {
        let t = u - 1;
        lemma_live_entries(live, bound, t as nat);
        let prev = live_entries(live, t as nat);
        let es = live_entries(live, u);
        match binding_at(live, t) {
            Some(id) => {
                assert(live.contains_key(id) && live[id] == t);
                assert(es == prev.push((id, t as usize)));
                assert forall|x: Id| #[trigger] live.contains_key(x) && live[x] < u implies exists|
                    k: int,
                | 0 <= k < es.len() && es[k] == (x, live[x]) by {
                    if live[x] == t {
                        assert(x == id);
                        assert(es[prev.len() as int] == (x, live[x]));
                    } else {
                        let k = choose|k: int| 0 <= k < prev.len() && prev[k] == (x, live[x]);
                        assert(es[k] == prev[k]);
                    }
                }
                assert forall|k: int| 0 <= k < es.len() implies #[trigger] live.contains_key(
                    es[k].0,
                ) && live[es[k].0] == es[k].1 by {
                    if k < prev.len() {
                        assert(es[k] == prev[k]);
                        assert(live.contains_key(prev[k].0));
                    } else {
                        assert(es[k] == (id, t as usize));
                    }
                }
            },
            None => {
                assert(es =~= prev);
                assert forall|k: int| 0 <= k < es.len() implies #[trigger] live.contains_key(
                    es[k].0,
                ) && live[es[k].0] == es[k].1 by {
                    assert(es[k] == prev[k]);
                    assert(live.contains_key(prev[k].0));
                }
                assert forall|x: Id| #[trigger] live.contains_key(x) && live[x] < u implies exists|
                    k: int,
                | 0 <= k < es.len() && es[k] == (x, live[x]) by {
                    assert(live[x] != t);
                }
            },
        }
    }
}

/// A snapshot determines the state it was taken of: equal layouts of
/// consistent bindings have equal recycled indices, index bound, bindings and
/// last identifier.
pub proof fn lemma_layout_injective(
    rec_a: Seq<usize>,
    bound_a: usize,
    live_a: Map<Id, usize>,
    issued_a: u64,
    rec_b: Seq<usize>,
    bound_b: usize,
    live_b: Map<Id, usize>,
    issued_b: u64,
)
    requires
        bindings_ok(live_a, bound_a),
        bindings_ok(live_b, bound_b),
        rec_a.len() <= bound_a,
        rec_b.len() <= bound_b,
        snapshot_layout(rec_a, bound_a, live_a, issued_a) == snapshot_layout(
            rec_b,
            bound_b,
            live_b,
            issued_b,
        ),
    ensures
        rec_a == rec_b,
        bound_a == bound_b,
        live_a == live_b,
        issued_a == issued_b,
{
    let la = snapshot_layout(rec_a, bound_a, live_a, issued_a);
    let ea = live_entries(live_a, bound_a as nat);
    let eb = live_entries(live_b, bound_b as nat);
    lemma_encode_indices(rec_a);
    lemma_encode_indices(rec_b);
    lemma_encode_entries(ea);
    lemma_encode_entries(eb);
    assert(la.subrange(0, 8) =~= be_bytes(rec_a.len() as u64));
    assert(la.subrange(0, 8) =~= be_bytes(rec_b.len() as u64));
    lemma_be_bytes_injective(rec_a.len() as u64, rec_b.len() as u64);
    let n = rec_a.len() as int;
    let o: int = 8 + 8 * n;
    assert(la.subrange(8, o) =~= encode_indices(rec_a));
    assert(la.subrange(8, o) =~= encode_indices(rec_b));
    assert forall|k: int| 0 <= k < n implies rec_a[k] == rec_b[k] by {
        assert(encode_indices(rec_a).subrange(8 * k, 8 * k + 8) == be_bytes(rec_a[k] as u64));
        assert(encode_indices(rec_b).subrange(8 * k, 8 * k + 8) == be_bytes(rec_b[k] as u64));
        lemma_be_bytes_injective(rec_a[k] as u64, rec_b[k] as u64);
    }
    assert(rec_a =~= rec_b);
    assert(la.subrange(o, o + 8) =~= be_bytes(bound_a as u64));
    assert(la.subrange(o, o + 8) =~= be_bytes(bound_b as u64));
    lemma_be_bytes_injective(bound_a as u64, bound_b as u64);
    let l = la.len() as int;
    assert(la.subrange(l - 8, l) =~= be_bytes(issued_a));
    assert(la.subrange(l - 8, l) =~= be_bytes(issued_b));
    lemma_be_bytes_injective(issued_a, issued_b);
    assert(ea.len() == eb.len());
    let p: int = o + 16;
    assert(la.subrange(p, l - 8) =~= encode_entries(ea));
    assert(la.subrange(p, l - 8) =~= encode_entries(eb));
    assert forall|k: int| 0 <= k < ea.len() implies ea[k] == eb[k] by {
        assert(encode_entries(ea).subrange(24 * k, 24 * k + 8) == be_bytes(ea[k].0));
        assert(encode_entries(eb).subrange(24 * k, 24 * k + 8) == be_bytes(eb[k].0));
        assert(encode_entries(ea).subrange(24 * k + 8, 24 * k + 16) == be_bytes(ea[k].1 as u64));
        assert(encode_entries(eb).subrange(24 * k + 8, 24 * k + 16) == be_bytes(eb[k].1 as u64));
        lemma_be_bytes_injective(ea[k].0, eb[k].0);
        lemma_be_bytes_injective(ea[k].1 as u64, eb[k].1 as u64);
    }
    assert(ea =~= eb);
    lemma_live_entries(live_a, bound_a, bound_a as nat);
    lemma_live_entries(live_b, bound_b, bound_b as nat);
    assert forall|x: Id| live_a.contains_key(x) implies live_b.contains_key(x) && live_b[x]
        == live_a[x] by {
        let k = choose|k: int| 0 <= k < ea.len() && ea[k] == (x, live_a[x]);
        assert(live_b.contains_key(eb[k].0));
    }
    assert forall|x: Id| live_b.contains_key(x) implies live_a.contains_key(x) by {
        let k = choose|k: int| 0 <= k < eb.len() && eb[k] == (x, live_b[x]);
        assert(live_a.contains_key(ea[k].0));
    }
    assert(live_a =~= live_b);
}

} // verus!
