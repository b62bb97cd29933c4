//! The registry of pools: one per component type, reached by type.

use vstd::prelude::*;
use vstd::multiset::Multiset;
use vstd::std_specs::iter::IteratorSpec;
use crate::pool::{
    fresh_shape, shape_added, shape_has, shape_removed, shape_wf, Component, EntityId, Pool, Shape,
};

verus! {

/// A registered pool, with its slot: the position of its entry in the
/// broadcast list.
pub struct Registered<T: Component + Eq> {
    slot: usize,
    pool: Pool<T>,
}

/// A registered pool seen as its slot and its shape.
pub type Entry = (usize, Shape);

impl<T: Component + Eq> Registered<T> {
    /// The slot and the shape of the pool.
    pub closed spec fn entry(&self) -> Entry {
        (self.slot, self.pool.shape())
    }
}

/// The registered pools of all component types, keyed by type.
#[verifier::external_body]
pub struct PoolMap {
    map: anymap::AnyMap,
}

/// The slot and shape of each registered pool that `m` holds, one per
/// registered type.
pub uninterp spec fn pool_entries(m: PoolMap) -> Multiset<Entry>;

/// Every pool of `m` keeps the invariants of a pool.
pub open spec fn all_wf(m: Multiset<Entry>) -> bool {
    forall|e: Entry| #[trigger] m.contains(e) ==> shape_wf(e.1)
}

/// No two entries of `m` share a slot, and every slot is below `n`.
pub open spec fn slots_distinct(m: Multiset<Entry>, n: nat) -> bool {
    &&& forall|e: Entry| #[trigger] m.contains(e) ==> e.0 < n && m.count(e) == 1
    &&& forall|e: Entry, f: Entry|
        #[trigger] m.contains(e) && #[trigger] m.contains(f) && e.0 == f.0 ==> e == f
}

/// `after` is `before` with the pool of entry `a` changed to entry `b`, in
/// the same slot.
pub open spec fn replaced(before: Multiset<Entry>, after: Multiset<Entry>, a: Entry, b: Entry) -> bool {
    before.contains(a) && a.0 == b.0 && after == before.remove(a).insert(b)
}

/// `after` is `before` with at most one pool changed, by storing a component
/// for handle `h`.
pub open spec fn added_in_one(before: Multiset<Entry>, after: Multiset<Entry>, h: int) -> bool {
    after == before || exists|a: Entry, b: Entry|
        #[trigger] replaced(before, after, a, b) && shape_added(a.1, b.1, h)
}

/// `after` is `before` with at most one pool changed, by removing the
/// component of handle `h`.
pub open spec fn removed_in_one(before: Multiset<Entry>, after: Multiset<Entry>, h: int) -> bool {
    after == before || exists|a: Entry, b: Entry|
        #[trigger] replaced(before, after, a, b) && shape_removed(a.1, b.1, h)
}

/// Entry `e` is entry `o`, in the same slot, either kept as it was or with
/// the component of handle `h` swap-removed.
#[verifier::opaque]
pub open spec fn kept_or_removed(o: Entry, e: Entry, h: int) -> bool {
    o.0 == e.0 && (o.1 == e.1 || shape_removed(o.1, e.1, h))
}

/// Each entry of `before` has a successor in `after`: itself in the same
/// slot, kept or with the component of `h` swap-removed.
#[verifier::opaque]
pub open spec fn broadcast_step(before: Multiset<Entry>, after: Multiset<Entry>, h: int) -> bool {
    forall|o: Entry| #[trigger]
        before.contains(o) ==> exists|e: Entry| after.contains(e) && #[trigger] kept_or_removed(o, e, h)
}

impl PoolMap {
    /// Relies on `anymap::Map::new`: the map starts with no entries.
    #[verifier::external_body]
    fn new() -> (r: PoolMap)
        ensures
            pool_entries(r) == Multiset::<Entry>::empty(),
    {
        PoolMap { map: anymap::AnyMap::new() }
    }

    /// Relies on `anymap::Map::insert`: the value is stored under its own
    /// type, and the value it replaced, if any, comes back.
    #[verifier::external_body]
    fn insert<T: Component + Eq + 'static>(&mut self, reg: Registered<T>) -> (r: Option<
        Registered<T>,
    >)
        ensures
            r is None ==> pool_entries(*final(self)) == pool_entries(*old(self)).insert(reg.entry()),
            r is Some ==> pool_entries(*old(self)).contains(r.unwrap().entry()) && pool_entries(
                *final(self),
            ) == pool_entries(*old(self)).remove(r.unwrap().entry()).insert(reg.entry()),
    {
        self.map.insert(reg)
    }

    /// Relies on `anymap::Map::get`: a lookup by type, which finds one of the
    /// stored values or none.
    #[verifier::external_body]
    fn get<T: Component + Eq + 'static>(&self) -> (r: Option<&Registered<T>>)
        ensures
            r is Some ==> pool_entries(*self).contains(r.unwrap().entry()),
    {
        self.map.get::<Registered<T>>()
    }

    /// Relies on `anymap::Map::get_mut`: a lookup by type, which finds one of
    /// the stored values, to be changed in place, or none.
    #[verifier::external_body]
    fn get_mut<T: Component + Eq + 'static>(&mut self) -> (r: Option<&mut Registered<T>>)
        ensures
            r is None ==> pool_entries(*final(self)) == pool_entries(*old(self)),
            r is Some ==> pool_entries(*old(self)).contains(r.unwrap().entry()) && pool_entries(
                *final(self),
            ) == pool_entries(*old(self)).remove(r.unwrap().entry()).insert(
                (*final(r.unwrap())).entry(),
            ),
    {
        self.map.get_mut::<Registered<T>>()
    }
}

/// Putting an entry in place of one of `m`'s, in the same slot, keeps the
/// number of pools and the slots distinct, and keeps every shape well formed
/// where the new one is.
proof fn lemma_replace_one(m: Multiset<Entry>, n: nat, a: Entry, b: Entry)
    requires
        all_wf(m),
        slots_distinct(m, n),
        m.contains(a),
        a.0 == b.0,
    ensures
        shape_wf(b.1) ==> all_wf(m.remove(a).insert(b)),
        slots_distinct(m.remove(a).insert(b), n),
        m.remove(a).insert(b).len() == m.len(),
        forall|e: Entry|
            #[trigger] m.remove(a).insert(b).contains(e) ==> e == b || (m.contains(e) && e.0
                != a.0),
{
    let m2 = m.remove(a).insert(b);
    assert(Multiset::singleton(a).subset_of(m));
    assert forall|e: Entry| #[trigger] m2.contains(e) implies e == b || (m.contains(e) && e.0
        != a.0) by {
        if e != b {
            assert(m.remove(a).count(e) > 0);
            assert(m.contains(e));
            assert(e != a);
        }
    }
    assert forall|e: Entry| #[trigger] m2.contains(e) implies e.0 < n && m2.count(e) == 1 by {
        if e != b {
            assert(m.contains(e));
        } else {
            assert(m.contains(a));
            if m.contains(b) {
                assert(b == a);
            }
        }
    }
    if shape_wf(b.1) {
        assert forall|e: Entry| #[trigger] m2.contains(e) implies shape_wf(e.1) by {
            if e != b {
                assert(m.contains(e));
            }
        }
    }
}

/// Putting an entry in place of one of `m`'s keeps every shape well formed
/// where the new one is.
proof fn lemma_replace_wf(m: Multiset<Entry>, a: Entry, b: Entry)
    requires
        all_wf(m),
        m.contains(a),
    ensures
        shape_wf(b.1) ==> all_wf(m.remove(a).insert(b)),
{
    if shape_wf(b.1) {
        assert forall|e: Entry| #[trigger] m.remove(a).insert(b).contains(e) implies shape_wf(
            e.1,
        ) by {
            if e != b {
                assert(m.remove(a).count(e) > 0);
                assert(m.contains(e));
            }
        }
    }
}

/// Adding an entry in a new slot `n` to `m`, or in place of one of its
/// entries, keeps the slots distinct below `n + 1`.
proof fn lemma_new_slot(m: Multiset<Entry>, n: nat, p: Option<Entry>, b: Entry)
    requires
        all_wf(m),
        slots_distinct(m, n),
        p is Some ==> m.contains(p.unwrap()),
        b.0 == n,
        shape_wf(b.1),
    ensures
        ({
            let m1 = if p is Some { m.remove(p.unwrap()) } else { m };
            &&& all_wf(m1.insert(b))
            &&& slots_distinct(m1.insert(b), n + 1)
            &&& forall|e: Entry| #[trigger] m1.insert(b).contains(e) ==> e == b || m.contains(e)
        }),
{
    let m1 = if p is Some { m.remove(p.unwrap()) } else { m };
    assert forall|e: Entry| #[trigger] m1.contains(e) implies m.contains(e) && m1.count(e) == 1 by {
        if p is Some {
            assert(m.remove(p.unwrap()).count(e) > 0);
        }
    }
    let m2 = m1.insert(b);
    assert forall|e: Entry| #[trigger] m2.contains(e) implies e == b || m.contains(e) by {
        if e != b {
            assert(m1.contains(e));
        }
    }
    assert forall|e: Entry| #[trigger] m2.contains(e) implies shape_wf(e.1) && e.0 < n + 1
        && m2.count(e) == 1 by {
        if e != b {
            assert(m1.contains(e));
        } else {
            assert(!m.contains(b));
        }
    }
    assert forall|e: Entry, f: Entry|
        #[trigger] m2.contains(e) && #[trigger] m2.contains(f) && e.0 == f.0 implies e == f by {
        if e != b {
            assert(m1.contains(e));
        }
        if f != b {
            assert(m1.contains(f));
        }
    }
}

/// Once the component of `h` is swap-removed, `h` has none.
proof fn lemma_removed_lacks(a: Shape, b: Shape, h: int)
    requires
        shape_wf(a),
        shape_removed(a, b, h),
    ensures
        !shape_has(b, h),
{
    if shape_has(a, h) {
        let i = a.0[h].unwrap() as int;
        let last = a.1.len() - 1;
        let moved = a.1[last];
        assert(a.0[moved as int] == Some(last as EntityId));
    }
}

/// A pool kept or swap-removed once, then swap-removed again, is still its
/// first self kept or swap-removed once.
proof fn lemma_chain(o: Entry, a: Entry, b: Entry, h: int)
    requires
        shape_wf(o.1),
        kept_or_removed(o, a, h),
        a.0 == b.0,
        shape_removed(a.1, b.1, h),
    ensures
        kept_or_removed(o, b, h),
{
    reveal(kept_or_removed);
    if o.1 != a.1 {
        lemma_removed_lacks(o.1, a.1, h);
        assert(b.1 == a.1);
    }
}

/// Every multiset of entries is a broadcast step away from itself.
proof fn lemma_step_refl(m: Multiset<Entry>, h: int)
    ensures
        broadcast_step(m, m, h),
{
    reveal(broadcast_step);
    reveal(kept_or_removed);
    assert forall|o: Entry| #[trigger] m.contains(o) implies exists|e: Entry|
        m.contains(e) && #[trigger] kept_or_removed(o, e, h) by {
        assert(kept_or_removed(o, o, h));
    }
}

/// One more pool changed by a swap-remove of `h` keeps `cur` a broadcast
/// step away from `start`.
proof fn lemma_step(start: Multiset<Entry>, cur: Multiset<Entry>, a: Entry, b: Entry, h: int)
    requires
        all_wf(start),
        broadcast_step(start, cur, h),
        cur.contains(a),
        a.0 == b.0,
        shape_removed(a.1, b.1, h),
    ensures
        broadcast_step(start, cur.remove(a).insert(b), h),
{
    reveal(broadcast_step);
    let next = cur.remove(a).insert(b);
    assert(next.contains(b));
    assert forall|o2: Entry| #[trigger] start.contains(o2) implies exists|e: Entry|
        next.contains(e) && #[trigger] kept_or_removed(o2, e, h) by {
        let e = choose|e: Entry| cur.contains(e) && #[trigger] kept_or_removed(o2, e, h);
        if e == a {
            lemma_chain(o2, a, b, h);
        } else {
            assert(cur.remove(a).count(e) == cur.count(e));
            assert(next.contains(e));
        }
    }
}

/// Putting an entry back in place of itself changes nothing.
proof fn lemma_replace_same(m: Multiset<Entry>, a: Entry)
    requires
        m.contains(a),
    ensures
        m.remove(a).insert(a) == m,
{
    assert(m.remove(a).insert(a) =~= m);
}

/// An entry of the broadcast list: removes one entity's component from the
/// pool of one component type. It reports whether it reached the pool
/// registered in `slot`; where it did not, nothing changes.
pub trait PoolRemoval {
    fn remove_from(&self, pools: &mut PoolMap, slot: usize, entity_id: EntityId) -> (reached: bool)
        requires
            all_wf(pool_entries(*old(pools))),
        ensures
            all_wf(pool_entries(*final(pools))),
            removed_in_one(pool_entries(*old(pools)), pool_entries(*final(pools)), entity_id as int),
            !reached ==> pool_entries(*final(pools)) == pool_entries(*old(pools)),
            reached ==> exists|a: Entry, b: Entry|
                #[trigger] replaced(pool_entries(*old(pools)), pool_entries(*final(pools)), a, b)
                    && a.0 == slot && shape_removed(a.1, b.1, entity_id as int),
    ;
}

/// Removes the component of `entity_id` from `found`, the registered pool
/// that a lookup returned, where it is the one registered in `slot`.
fn remove_found<T: Component + Eq>(
    found: Option<&mut Registered<T>>,
    slot: usize,
    entity_id: EntityId,
) -> (reached: bool)
    requires
        found is Some ==> shape_wf(found.unwrap().entry().1),
    ensures
        reached == (found is Some && found.unwrap().entry().0 == slot),
        found is Some ==> (*final(found.unwrap())).entry().0 == found.unwrap().entry().0,
        found is Some ==> shape_wf((*final(found.unwrap())).entry().1),
        found is Some && reached ==> shape_removed(
            found.unwrap().entry().1,
            (*final(found.unwrap())).entry().1,
            entity_id as int,
        ),
        found is Some && !reached ==> *final(found.unwrap()) == *found.unwrap(),
{
    match found {
        Some(reg) => {
            if reg.slot == slot {
                reg.pool.remove(entity_id);
                true
            } else {
                false
            }
        },
        None => false,
    }
}

/// The broadcast entry of component type `T`: it finds that type's pool in
/// the registry at the time of the call.
pub struct PoolRemover<T> {
    marker: std::marker::PhantomData<T>,
}

impl<T: Component + Eq + 'static> PoolRemoval for PoolRemover<T> {
    fn remove_from(&self, pools: &mut PoolMap, slot: usize, entity_id: EntityId) -> (reached: bool) {
        let ghost before = pool_entries(*pools);
        let found = pools.get_mut::<T>();
        let ghost a = if found is Some { found.unwrap().entry() } else { (0usize, fresh_shape(0)) };
        let reached = remove_found(found, slot, entity_id);
        proof {
            if found is Some {
                lemma_replace_wf(before, a, (*final(found.unwrap())).entry());
                if !reached {
                    lemma_replace_same(before, a);
                } else {
                    assert(replaced(
                        before,
                        pool_entries(*final(pools)),
                        a,
                        (*final(found.unwrap())).entry(),
                    ));
                }
            }
        }
        reached
    }
}

/// Appends `entry` to `list`.
fn append<E>(list: &mut Vec<E>, entry: E)
    ensures
        final(list)@ == old(list)@.push(entry),
        final(list)@.len() == old(list)@.len() + 1,
{
    list.push(entry);
}

/// One pool per registered component type, with a broadcast list that
/// reaches every registered pool without naming its type.
pub struct EntityStore {
    store: PoolMap,
    /// The largest handle that capacity was asked for.
    max_entity: EntityId,
    /// The entry in position `i` removes from the pool registered in slot `i`.
    pool_refs: Vec<Box<dyn PoolRemoval>>,
}

impl EntityStore {
    /// The high-water mark of handles.
    pub closed spec fn high_water(&self) -> EntityId {
        self.max_entity
    }

    /// The slots and shapes of the registered pools, one per registered type.
    pub closed spec fn pools(&self) -> Multiset<Entry> {
        pool_entries(self.store)
    }

    /// How many entries the broadcast list holds.
    pub closed spec fn broadcast_count(&self) -> nat {
        self.pool_refs@.len()
    }

    /// Every pool keeps its invariants, every pool has a slot of its own in
    /// the broadcast list, and the high-water mark leaves room for one more
    /// slot.
    pub open spec fn wf(&self) -> bool {
        &&& all_wf(self.pools())
        &&& slots_distinct(self.pools(), self.broadcast_count())
        &&& self.high_water() < usize::MAX
    }

    /// A store with no registered type.
    pub fn new() -> (r: Self)
        ensures
            r.wf(),
            r.high_water() == 0,
            r.pools() == Multiset::<Entry>::empty(),
            r.broadcast_count() == 0,
    {
        EntityStore { store: PoolMap::new(), max_entity: 0, pool_refs: Vec::new() }
    }

    /// Registers a fresh, empty pool for `T`, sized up to the high-water
    /// mark. Registering `T` again replaces its pool with a fresh one in the
    /// same slot.
    pub fn new_component<T: Component + Eq + 'static>(&mut self)
        requires
            old(self).wf(),
        ensures
            final(self).wf(),
            final(self).high_water() == old(self).high_water(),
            ({
                let fresh = fresh_shape(old(self).high_water() as int);
                let n = old(self).broadcast_count();
                ||| final(self).pools() == old(self).pools().insert((n as usize, fresh))
                    && final(self).broadcast_count() == n + 1
                ||| exists|a: Entry| #[trigger]
                    replaced(old(self).pools(), final(self).pools(), a, (a.0, fresh))
                        && final(self).broadcast_count() == n
                ||| exists|a: Entry| #[trigger]
                    old(self).pools().contains(a) && final(self).pools() == old(
                        self,
                    ).pools().remove(a).insert((n as usize, fresh)) && final(self).broadcast_count()
                        == n + 1
            }),
    {
        let mut pool = Pool::<T>::new();
        pool.reserve_up_to(self.max_entity);
        assert(pool.sparse() =~= fresh_shape(self.max_entity as int).0);
        let ghost fresh = pool.shape();
        assert(shape_wf(fresh) && fresh == fresh_shape(self.max_entity as int));
        let ghost n = self.pool_refs@.len();
        let ghost mut w: Option<Entry> = None;
        match self.store.get_mut::<T>() {
            Some(reg) => {
                let ghost a = reg.entry();
                reg.pool = pool;
                proof {
                    lemma_replace_one(old(self).pools(), n, a, (a.0, fresh));
                    w = Some(a);
                }
            },
            None => {
                let slot = self.pool_refs.len();
                let previous = self.store.insert(Registered { slot, pool });
                proof {
                    let p = if previous is Some {
                        Some(previous.unwrap().entry())
                    } else {
                        None
                    };
                    lemma_new_slot(old(self).pools(), n, p, (slot, fresh));
                    if previous is Some {
                        w = Some(previous.unwrap().entry());
                    }
                }
                let remover = PoolRemover::<T> { marker: std::marker::PhantomData };
                let entry: Box<dyn PoolRemoval> = Box::new(remover);
                append(&mut self.pool_refs, entry);
            },
        }
        proof {
            if w is Some {
                assert(old(self).pools().contains(w.unwrap()));
                if self.pool_refs@.len() == n {
                    assert(replaced(old(self).pools(), self.pools(), w.unwrap(), (w.unwrap().0, fresh)));
                }
            }
        }
    }

    /// Raises the high-water mark to `entity_id`; existing pools grow only
    /// when a handle is first used in them.
    pub fn reserve_up_to(&mut self, entity_id: EntityId)
        requires
            old(self).wf(),
            entity_id < usize::MAX,
        ensures
            final(self).wf(),
            final(self).high_water() == if entity_id > old(self).high_water() {
                entity_id
            } else {
                old(self).high_water()
            },
            final(self).pools() == old(self).pools(),
            final(self).broadcast_count() == old(self).broadcast_count(),
    {
        if self.max_entity >= entity_id {
            return;
        }
        self.max_entity = entity_id;
    }

    /// The high-water mark of handles.
    pub fn max_entity(&self) -> (r: EntityId)
        ensures
            r == self.high_water(),
    {
        self.max_entity
    }

    /// The pool of `T`, if `T` is registered.
    pub fn get<T: Component + Eq + 'static>(&self) -> (r: Option<&Pool<T>>)
        requires
            self.wf(),
        ensures
            r is Some ==> r.unwrap().wf() && exists|k: usize| #[trigger]
                self.pools().contains((k, r.unwrap().shape())),
    {
        match self.store.get::<T>() {
            Some(reg) => {
                assert(self.pools().contains(reg.entry()));
                Some(&reg.pool)
            },
            None => None,
        }
    }

    /// Exclusive access to the pool of `T`, if `T` is registered. The store
    /// keeps its invariants as long as the pool keeps its own.
    pub fn get_mut<T: Component + Eq + 'static>(&mut self) -> (r: Option<&mut Pool<T>>)
        requires
            old(self).wf(),
        ensures
            final(self).high_water() == old(self).high_water(),
            r is None ==> final(self).pools() == old(self).pools() && final(self).wf(),
            r is Some ==> {
                &&& r.unwrap().wf()
                &&& exists|k: usize|
                    #[trigger] old(self).pools().contains((k, r.unwrap().shape()))
                        && final(self).pools() == old(self).pools().remove(
                        (k, r.unwrap().shape()),
                    ).insert((k, (*final(r.unwrap())).shape()))
                &&& (*final(r.unwrap())).wf() ==> final(self).wf()
            },
    {
        let ghost n = self.pool_refs@.len();
        match self.store.get_mut::<T>() {
            Some(reg) => {
                let ghost a = reg.entry();
                let r = &mut reg.pool;
                proof {
                    lemma_replace_one(old(self).pools(), n, a, (a.0, (*final(r)).shape()));
                }
                Some(r)
            },
            None => None,
        }
    }

    /// Stores `component` for `entity_id` in the pool of `T`; does nothing
    /// where `T` is not registered.
    pub fn add_component<T: Component + Eq + 'static>(&mut self, entity_id: EntityId, component: T)
        requires
            old(self).wf(),
            entity_id < usize::MAX,
        ensures
            final(self).wf(),
            final(self).high_water() == old(self).high_water(),
            added_in_one(old(self).pools(), final(self).pools(), entity_id as int),
    {
        let ghost n = self.pool_refs@.len();
        if let Some(reg) = self.store.get_mut::<T>() {
            let ghost a = reg.entry();
            reg.pool.add_component(entity_id, component);
            let ghost b = reg.entry();
            proof {
                assert(shape_added(a.1, b.1, entity_id as int));
                lemma_replace_one(old(self).pools(), n, a, b);
                assert(replaced(old(self).pools(), final(self).pools(), a, b));
            }
        }
    }

    /// Removes the component of `entity_id` from the pool of `T`; does
    /// nothing where `T` is not registered.
    pub fn remove_component<T: Component + Eq + 'static>(&mut self, entity_id: EntityId)
        requires
            old(self).wf(),
        ensures
            final(self).wf(),
            final(self).high_water() == old(self).high_water(),
            removed_in_one(old(self).pools(), final(self).pools(), entity_id as int),
    {
        let ghost n = self.pool_refs@.len();
        if let Some(reg) = self.store.get_mut::<T>() {
            let ghost a = reg.entry();
            reg.pool.remove(entity_id);
            let ghost b = reg.entry();
            proof {
                assert(shape_removed(a.1, b.1, entity_id as int));
                lemma_replace_one(old(self).pools(), n, a, b);
                assert(replaced(old(self).pools(), final(self).pools(), a, b));
            }
        }
    }
    /// The handles that hold a `T`, if `T` is registered: the dense handle
    /// layer of one registered pool.
    pub fn entities<T: Component + Eq + 'static>(&self) -> (r: Option<Vec<&EntityId>>)
        requires
            self.wf(),
        ensures
            r is Some ==> exists|e: Entry|
                #[trigger] self.pools().contains(e) && r.unwrap()@.len() == e.1.1.len() && forall|
                    i: int,
                | 0 <= i < e.1.1.len() ==> *r.unwrap()@[i] == #[trigger] e.1.1[i],
    {
        match self.store.get::<T>() {
            Some(reg) => {
                let ids = reg.pool.entities();
                assert(self.pools().contains(reg.entry()));
                Some(ids)
            },
            None => None,
        }
    }

    /// Each handle paired with its `T`, if `T` is registered, in the dense
    /// order of one registered pool.
    pub fn components<T: Component + Eq + 'static>(&self) -> (r: Option<Vec<(&EntityId, &T)>>)
        requires
            self.wf(),
        ensures
            r is Some ==> exists|e: Entry|
                #[trigger] self.pools().contains(e) && r.unwrap()@.len() == e.1.1.len() && forall|
                    i: int,
                | 0 <= i < e.1.1.len() ==> *r.unwrap()@[i].0 == #[trigger] e.1.1[i],
    {
        match self.store.get::<T>() {
            Some(reg) => {
                let pairs = reg.pool.components();
                assert(self.pools().contains(reg.entry()));
                Some(pairs)
            },
            None => None,
        }
    }

    /// Each handle paired with its `T`, as an iterator; empty where `T` is
    /// not registered.
    pub fn components_iter<T: Component + Eq + 'static>(&self) -> (r: std::vec::IntoIter<
        (&EntityId, &T),
    >)
        requires
            self.wf(),
        ensures
            self.pools().len() == 0 ==> r.remaining().len() == 0,
            r.remaining().len() == 0 || exists|e: Entry|
                #[trigger] self.pools().contains(e) && r.remaining().len() == e.1.1.len() && forall|
                    i: int,
                | 0 <= i < e.1.1.len() ==> *r.remaining()[i].0 == #[trigger] e.1.1[i],
    {
        match self.store.get::<T>() {
            Some(reg) => {
                let it = reg.pool.components_iter();
                assert(self.pools().contains(reg.entry()));
                it
            },
            None => Vec::new().into_iter(),
        }
    }

    /// Each handle paired with its `T`, the components open to change in
    /// place, if `T` is registered. The pools keep their shapes.
    pub fn components_mut<T: Component + Eq + 'static>(&mut self) -> (r: Option<
        Vec<(&EntityId, &mut T)>,
    >)
        requires
            old(self).wf(),
        ensures
            final(self).wf(),
            final(self).high_water() == old(self).high_water(),
            final(self).pools() == old(self).pools(),
            r is Some ==> exists|e: Entry|
                #[trigger] old(self).pools().contains(e) && r.unwrap()@.len() == e.1.1.len()
                    && forall|i: int|
                    0 <= i < e.1.1.len() ==> *r.unwrap()@[i].0 == #[trigger] e.1.1[i],
    {
        match self.store.get_mut::<T>() {
            Some(reg) => {
                let ghost a = reg.entry();
                let pairs = reg.pool.components_mut();
                proof {
                    lemma_replace_same(old(self).pools(), a);
                }
                Some(pairs)
            },
            None => None,
        }
    }

    /// Each handle paired with its `T`, the components open to change in
    /// place, as an iterator; empty where `T` is not registered. The pools
    /// keep their shapes.
    pub fn components_iter_mut<T: Component + Eq + 'static>(&mut self) -> (r: std::vec::IntoIter<
        (&EntityId, &mut T),
    >)
        requires
            old(self).wf(),
        ensures
            final(self).wf(),
            final(self).high_water() == old(self).high_water(),
            final(self).pools() == old(self).pools(),
            old(self).pools().len() == 0 ==> r.remaining().len() == 0,
            r.remaining().len() == 0 || exists|e: Entry|
                #[trigger] old(self).pools().contains(e) && r.remaining().len() == e.1.1.len()
                    && forall|i: int|
                    0 <= i < e.1.1.len() ==> *r.remaining()[i].0 == #[trigger] e.1.1[i],
    {
        match self.store.get_mut::<T>() {
            Some(reg) => {
                let ghost a = reg.entry();
                let it = reg.pool.components_iter_mut();
                proof {
                    lemma_replace_same(old(self).pools(), a);
                }
                it
            },
            None => Vec::new().into_iter(),
        }
    }

    /// Whether `entity_id` has a `T`; false where `T` is not registered.
    pub fn has_component<T: Component + Eq + 'static>(&self, entity_id: EntityId) -> (r: bool)
        requires
            self.wf(),
        ensures
            r ==> exists|e: Entry| #[trigger]
                self.pools().contains(e) && shape_has(e.1, entity_id as int),
            (forall|e: Entry| #[trigger]
                self.pools().contains(e) ==> !shape_has(e.1, entity_id as int)) ==> !r,
    {
        match self.store.get::<T>() {
            Some(reg) => {
                assert(self.pools().contains(reg.entry()));
                reg.pool.has_component(entity_id)
            },
            None => false,
        }
    }

    /// Removes the components of `entity_id` from every registered pool,
    /// whatever their types, and reports whether each entry of the broadcast
    /// list reached the pool registered in its slot. Every pool ends as
    /// itself, in its slot, kept or with the component of `entity_id`
    /// swap-removed. Where every entry reached its pool, no pool holds a
    /// component of `entity_id` afterwards. Where no pool held one, nothing
    /// changes.
    pub fn remove_entity(&mut self, entity_id: EntityId) -> (reached_all: bool)
        requires
            old(self).wf(),
        ensures
            final(self).wf(),
            final(self).high_water() == old(self).high_water(),
            final(self).pools().len() == old(self).pools().len(),
            final(self).broadcast_count() == old(self).broadcast_count(),
            reached_all ==> forall|e: Entry| #[trigger]
                final(self).pools().contains(e) ==> !shape_has(e.1, entity_id as int),
            broadcast_step(old(self).pools(), final(self).pools(), entity_id as int),
            (forall|e: Entry| #[trigger]
                old(self).pools().contains(e) ==> !shape_has(e.1, entity_id as int))
                ==> final(self).pools() == old(self).pools(),
    {
        let ghost absent = forall|e: Entry| #[trigger]
            old(self).pools().contains(e) ==> !shape_has(e.1, entity_id as int);
        let ghost n = self.pool_refs@.len();
        let mut reached_all = true;
        let mut i: usize = 0;
        proof {
            lemma_step_refl(old(self).pools(), entity_id as int);
        }
        while i < self.pool_refs.len()
            invariant
                i <= n,
                n == self.pool_refs@.len(),
                self.pool_refs@ == old(self).pool_refs@,
                self.max_entity == old(self).max_entity,
                all_wf(pool_entries(self.store)),
                slots_distinct(pool_entries(self.store), n),
                pool_entries(self.store).len() == old(self).pools().len(),
                absent == forall|e: Entry| #[trigger]
                    old(self).pools().contains(e) ==> !shape_has(e.1, entity_id as int),
                absent ==> pool_entries(self.store) == old(self).pools(),
                all_wf(old(self).pools()),
                broadcast_step(old(self).pools(), pool_entries(self.store), entity_id as int),
                reached_all ==> forall|e: Entry| #[trigger]
                    pool_entries(self.store).contains(e) && e.0 < i ==> !shape_has(
                        e.1,
                        entity_id as int,
                    ),
            decreases n - i,
        {
            let ghost before = pool_entries(self.store);
            let reached = self.pool_refs[i].remove_from(&mut self.store, i, entity_id);
            proof {
                let after = pool_entries(self.store);
                if after != before {
                    let (a, b) = choose|a: Entry, b: Entry|
                        #[trigger] replaced(before, after, a, b) && shape_removed(
                            a.1,
                            b.1,
                            entity_id as int,
                        );
                    lemma_replace_one(before, n, a, b);
                    lemma_step(old(self).pools(), before, a, b, entity_id as int);
                    if absent {
                        lemma_replace_same(before, a);
                    }
                }
                if reached {
                    let (a, b) = choose|a: Entry, b: Entry|
                        #[trigger] replaced(before, after, a, b) && a.0 == i && shape_removed(
                            a.1,
                            b.1,
                            entity_id as int,
                        );
                    lemma_replace_one(before, n, a, b);
                    lemma_removed_lacks(a.1, b.1, entity_id as int);
                }
            }
            reached_all = reached_all && reached;
            i = i + 1;
        }
        reached_all
    }
}

} // verus!
