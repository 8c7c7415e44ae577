use ecs::codec::push_u64;
use ecs::collaborators::{ComponentManager, EntityBuilder, SystemManager};
use ecs::entity::{Entity, IndexedEntity};
use ecs::index_pool::IndexPool;
use ecs::manager::{EntityManager, Event, Notice, SnapshotError};

#[derive(Default)]
struct Attrs {
    x: Vec<Option<u32>>,
    stripped: Vec<usize>,
}

impl ComponentManager for Attrs {
    fn remove_all(&mut self, entity: &IndexedEntity<Self>) {
        let i = entity.index();
        if i < self.x.len() {
            self.x[i] = None;
        }
        self.stripped.push(i);
    }
}

struct WriteX(u32);

impl EntityBuilder<Attrs> for WriteX {
    fn build(self, entity: &IndexedEntity<Attrs>, components: &mut Attrs) {
        let i = entity.index();
        if components.x.len() <= i {
            components.x.resize(i + 1, None);
        }
        components.x[i] = Some(self.0);
    }
}

struct NoAttrs;

impl EntityBuilder<Attrs> for NoAttrs {
    fn build(self, _entity: &IndexedEntity<Attrs>, _components: &mut Attrs) {}
}

#[derive(Default)]
struct Systems {
    log: Vec<(char, u64, usize)>,
    seen_at_deactivation: Vec<Option<u32>>,
}

impl SystemManager<Attrs, ()> for Systems {
    fn activated(&mut self, entity: &IndexedEntity<Attrs>, _c: &Attrs, _m: &mut ()) {
        self.log.push(('a', entity.entity().id(), entity.index()));
    }

    fn deactivated(&mut self, entity: &IndexedEntity<Attrs>, c: &Attrs, _m: &mut ()) {
        self.seen_at_deactivation.push(c.x.get(entity.index()).cloned().flatten());
        self.log.push(('d', entity.entity().id(), entity.index()));
    }
}

fn flush(m: &mut EntityManager<Attrs>, c: &mut Attrs, s: &mut Systems) -> Vec<Notice> {
    m.flush_queue(c, &mut (), s)
}

#[test]
fn nil_entity_has_id_zero() {
    assert_eq!(Entity::nil().id(), 0);
    assert_eq!(Entity::default(), Entity::nil());
}

#[test]
fn index_pool_hands_out_fresh_then_recycled_last_first() {
    let mut p = IndexPool::new();
    assert_eq!(p.count(), 0);
    assert_eq!(p.get_index(), 0);
    assert_eq!(p.get_index(), 1);
    assert_eq!(p.get_index(), 2);
    assert_eq!(p.count(), 3);
    p.return_id(0);
    p.return_id(2);
    assert_eq!(p.count(), 1);
    assert_eq!(p.get_index(), 2);
    assert_eq!(p.get_index(), 0);
    assert_eq!(p.get_index(), 3);
    assert_eq!(p.count(), 4);
}

#[test]
fn identifiers_are_unique_and_nonzero() {
    let mut m: EntityManager<Attrs> = EntityManager::new();
    let mut c = Attrs::default();
    let mut s = Systems::default();
    let mut seen: Vec<u64> = Vec::new();
    for round in 0..5 {
        let a = m.create();
        let b = m.create_entity(NoAttrs, &mut c);
        seen.push(a.id());
        seen.push(b.id());
        if round % 2 == 0 {
            m.remove_entity(a);
        }
        m.remove_entity(b);
        flush(&mut m, &mut c, &mut s);
    }
    for (k, id) in seen.iter().enumerate() {
        assert_ne!(*id, 0);
        assert!(!seen[k + 1..].contains(id));
    }
    assert_eq!(seen[0], 1);
    assert_eq!(seen[9], 10);
}

#[test]
fn validity_follows_create_remove_flush() {
    let mut m: EntityManager<Attrs> = EntityManager::new();
    let mut c = Attrs::default();
    let mut s = Systems::default();
    let e = m.create();
    assert!(m.is_valid(&e));
    m.remove_entity(e);
    assert!(m.is_valid(&e));
    flush(&mut m, &mut c, &mut s);
    assert!(!m.is_valid(&e));
    assert!(!m.is_valid(&Entity::nil()));
}

#[test]
fn count_matches_valid_entities() {
    let mut m: EntityManager<Attrs> = EntityManager::new();
    let mut c = Attrs::default();
    let mut s = Systems::default();
    assert_eq!(m.count(), 0);
    let es: Vec<Entity> = (0..6).map(|_| m.create()).collect();
    assert_eq!(m.count(), 6);
    m.remove_entity(es[1]);
    m.remove_entity(es[4]);
    assert_eq!(m.count(), 6);
    flush(&mut m, &mut c, &mut s);
    let valid = es.iter().filter(|e| m.is_valid(e)).count();
    assert_eq!(m.count(), valid);
    assert_eq!(m.count(), 4);
    m.remove(&es[0]);
    assert_eq!(m.count(), 3);
    m.remove(&es[0]);
    assert_eq!(m.count(), 3);
}

#[test]
fn freed_index_is_reused_last_first() {
    let mut m: EntityManager<Attrs> = EntityManager::new();
    let mut c = Attrs::default();
    let mut s = Systems::default();
    let es: Vec<Entity> = (0..4).map(|_| m.create()).collect();
    m.remove_entity(es[0]);
    m.remove_entity(es[2]);
    flush(&mut m, &mut c, &mut s);
    let b = m.create();
    assert_eq!(m.indexed(&b).index(), 2);
    let d = m.create();
    assert_eq!(m.indexed(&d).index(), 0);
    let f = m.create();
    assert_eq!(m.indexed(&f).index(), 4);
}

#[test]
fn flush_notifies_in_enqueue_order_once() {
    let mut m: EntityManager<Attrs> = EntityManager::new();
    let mut c = Attrs::default();
    let mut s = Systems::default();
    let e1 = m.create_entity(WriteX(1), &mut c);
    let e2 = m.create_entity(WriteX(2), &mut c);
    m.remove_entity(e1);
    let e3 = m.create_entity(WriteX(3), &mut c);
    m.remove_entity(e2);
    let notices = flush(&mut m, &mut c, &mut s);
    assert_eq!(
        notices,
        vec![
            Notice::Activated(e1, 0),
            Notice::Activated(e2, 1),
            Notice::Deactivated(e1, 0),
            Notice::Activated(e3, 2),
            Notice::Deactivated(e2, 1),
        ]
    );
    assert_eq!(
        s.log,
        vec![
            ('a', e1.id(), 0),
            ('a', e2.id(), 1),
            ('d', e1.id(), 0),
            ('a', e3.id(), 2),
            ('d', e2.id(), 1),
        ]
    );
    assert_eq!(s.seen_at_deactivation, vec![Some(1), Some(2)]);
    assert_eq!(c.stripped, vec![0, 1]);
    assert_eq!(c.x[2], Some(3));
    assert_eq!(c.x[0], None);
    // A second flush has nothing left to replay.
    assert!(flush(&mut m, &mut c, &mut s).is_empty());
    assert_eq!(s.log.len(), 5);
}

#[test]
fn flush_drops_events_of_entities_already_gone() {
    let mut m: EntityManager<Attrs> = EntityManager::new();
    let mut c = Attrs::default();
    let mut s = Systems::default();
    let e = m.create();
    m.remove_entity(e);
    m.remove_entity(e);
    let notices = flush(&mut m, &mut c, &mut s);
    assert_eq!(notices, vec![Notice::Deactivated(e, 0)]);
    assert_eq!(c.stripped, vec![0]);
    assert_eq!(m.count(), 0);
}

#[test]
fn filter_yields_exactly_matching_entities() {
    let mut m: EntityManager<Attrs> = EntityManager::new();
    let mut c = Attrs::default();
    let mut s = Systems::default();
    for k in 0..7u32 {
        m.create_entity(WriteX(k), &mut c);
    }
    flush(&mut m, &mut c, &mut s);
    let all = m.iter();
    assert_eq!(all.len(), 7);
    let even = |e: &IndexedEntity<Attrs>| c.x[e.index()].map_or(false, |v| v % 2 == 0);
    let picked = m.filter(even);
    assert_eq!(picked.len(), 4);
    for e in &picked {
        assert!(even(e));
    }
    let idx: Vec<usize> = picked.iter().map(|e| e.index()).collect();
    assert_eq!(idx, vec![0, 2, 4, 6]);
    assert!(m.filter(|_e: &IndexedEntity<Attrs>| false).is_empty());
}

#[test]
fn iter_lists_live_entities_by_index() {
    let mut m: EntityManager<Attrs> = EntityManager::new();
    let mut c = Attrs::default();
    let mut s = Systems::default();
    assert!(m.iter().is_empty());
    let es: Vec<Entity> = (0..4).map(|_| m.create()).collect();
    m.remove_entity(es[1]);
    flush(&mut m, &mut c, &mut s);
    let ids: Vec<u64> = m.iter().iter().map(|e| e.entity().id()).collect();
    assert_eq!(ids, vec![es[0].id(), es[2].id(), es[3].id()]);
    let idx: Vec<usize> = m.iter().iter().map(|e| e.index()).collect();
    assert_eq!(idx, vec![0, 2, 3]);
}

#[test]
fn three_entities_remove_middle_then_reuse() {
    let mut m: EntityManager<Attrs> = EntityManager::new();
    let mut c = Attrs::default();
    let mut s = Systems::default();
    let e1 = m.create();
    let e2 = m.create();
    let e3 = m.create();
    assert_eq!(m.indexed(&e1).index(), 0);
    assert_eq!(m.indexed(&e2).index(), 1);
    assert_eq!(m.indexed(&e3).index(), 2);
    m.remove_entity(e2);
    flush(&mut m, &mut c, &mut s);
    assert_eq!(m.count(), 2);
    assert!(!m.is_valid(&e2));
    let e4 = m.create();
    assert_eq!(m.indexed(&e4).index(), 1);
    flush(&mut m, &mut c, &mut s);
    assert_eq!(m.count(), 3);
}

#[test]
fn builder_writes_before_flush() {
    let mut m: EntityManager<Attrs> = EntityManager::new();
    let mut c = Attrs::default();
    let e1 = m.create_entity(WriteX(42), &mut c);
    let i = m.indexed(&e1).index();
    assert_eq!(c.x[i], Some(42));
    assert_eq!(m.indexed(&e1).entity(), e1);
}

#[test]
fn snapshot_refused_with_pending_removal() {
    let mut m: EntityManager<Attrs> = EntityManager::new();
    let e = m.create();
    m.remove_entity(e);
    assert_eq!(m.snapshot(), Err(SnapshotError::PendingEvents));
    assert!(m.is_valid(&e));
    assert_eq!(m.count(), 1);
    let mut c = Attrs::default();
    let mut s = Systems::default();
    assert_eq!(flush(&mut m, &mut c, &mut s), vec![Notice::Deactivated(e, 0)]);
    assert!(m.snapshot().is_ok());
}

fn words(ws: &[u64]) -> Vec<u8> {
    let mut out = Vec::new();
    for w in ws {
        out.extend_from_slice(&w.to_be_bytes());
    }
    out
}

#[test]
fn snapshot_layout() {
    let mut m: EntityManager<Attrs> = EntityManager::new();
    assert_eq!(m.snapshot(), Ok(words(&[0, 0, 0, 0])));
    let _a = m.create();
    let b = m.create();
    let _c = m.create();
    m.remove(&b);
    // recycled: [1]; bound 3; two live: (1 -> 0), (3 -> 2); last id 3
    assert_eq!(m.snapshot(), Ok(words(&[1, 1, 3, 2, 1, 0, 1, 3, 2, 3, 3])));
}

#[test]
fn push_u64_is_big_endian() {
    let mut v = vec![9u8];
    push_u64(&mut v, 0x0102_0304_0506_0708);
    assert_eq!(v, vec![9, 1, 2, 3, 4, 5, 6, 7, 8]);
}

#[test]
fn events_are_inspectable_values() {
    let e = Entity::nil();
    assert_eq!(Event::RemoveEntity(e), Event::RemoveEntity(Entity::default()));
    assert_ne!(Event::RemoveEntity(e), Event::BuildEntity(e));
}

#[test]
fn restore_round_trips_a_snapshot() {
    let mut m: EntityManager<Attrs> = EntityManager::new();
    let es: Vec<Entity> = (0..5).map(|_| m.create()).collect();
    m.remove(&es[1]);
    m.remove(&es[3]);
    let bytes = m.snapshot().unwrap();
    let mut r: EntityManager<Attrs> = EntityManager::restore(&bytes).unwrap();
    assert_eq!(r.snapshot(), Ok(bytes));
    assert_eq!(r.count(), 3);
    assert!(r.is_valid(&es[0]) && !r.is_valid(&es[1]) && r.is_valid(&es[4]));
    assert_eq!(r.indexed(&es[4]).index(), 4);
    let f = r.create();
    assert_eq!(f.id(), 6);
    assert_eq!(r.indexed(&f).index(), 3);
}

#[test]
fn restore_rejects_inconsistent_bytes() {
    let malformed = |b: Vec<u8>| {
        let r: Result<EntityManager<Attrs>, SnapshotError> = EntityManager::restore(&b);
        r.err() == Some(SnapshotError::Malformed)
    };
    // Truncated.
    assert!(malformed(vec![0, 0, 0]));
    assert!(malformed(words(&[0, 0, 0])));
    // Trailing bytes.
    assert!(malformed(words(&[0, 0, 0, 0, 0])));
    // Live count plus recycled count differs from the index bound.
    assert!(malformed(words(&[0, 1, 0, 0])));
    // A recycled index listed twice.
    assert!(malformed(words(&[2, 0, 0, 2, 0, 0])));
    // A recycled index at or above the bound.
    assert!(malformed(words(&[1, 1, 1, 0, 0])));
    // Key and stored identifier disagree.
    assert!(malformed(words(&[0, 1, 1, 1, 0, 2, 2])));
    // Identifier above the last one issued.
    assert!(malformed(words(&[0, 1, 1, 5, 0, 5, 4])));
    // Identifier zero.
    assert!(malformed(words(&[0, 1, 1, 0, 0, 0, 0])));
    // Bindings out of index order.
    assert!(malformed(words(&[0, 2, 2, 1, 1, 1, 2, 0, 2, 2])));
    // Fewer bindings than the index bound leaves room for.
    assert!(malformed(words(&[0, 2, 1, 1, 0, 1, 1])));
    // The smallest valid snapshots are accepted.
    assert!(!malformed(words(&[0, 0, 0, 0])));
    assert!(!malformed(words(&[0, 1, 1, 1, 0, 1, 1])));
}
