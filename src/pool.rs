//! The per-type sparse/dense container.

use vstd::prelude::*;
use vstd::std_specs::iter::IteratorSpec;

verus! {

/// An entity handle: a plain index, never recycled or versioned.
pub type EntityId = usize;

/// Marker for the types that can be stored as components.
pub trait Component {}

/// All instances of one component type, keyed by entity handle.
#[derive(Debug, PartialEq, Eq)]
pub struct Pool<T: Component + Eq> {
    /// Indexed by handle; each slot is empty or holds a dense position.
    entity_indices: Vec<Option<EntityId>>,
    /// The handles that hold a component, packed without gaps.
    entity_list: Vec<EntityId>,
    /// The components, aligned one to one with `entity_list`.
    component_list: Vec<T>,
}

/// `s` extended with empty slots so that handle `h` has one.
pub open spec fn grown_to(s: Seq<Option<EntityId>>, h: int) -> Seq<Option<EntityId>> {
    if h < s.len() {
        s
    } else {
        s + Seq::new((h + 1 - s.len()) as nat, |i: int| None::<EntityId>)
    }
}

/// Pairs each handle of `ids` with a mutable reference to the component at
/// the same position of `values`, as far as both reach.
fn pair_up<'a, T>(ids: &'a [EntityId], values: &'a mut [T]) -> (r: Vec<(&'a EntityId, &'a mut T)>)
    ensures
        r@.len() == if ids@.len() <= old(values)@.len() {
            ids@.len()
        } else {
            old(values)@.len()
        },
        forall|i: int|
            0 <= i < r@.len() ==> *(#[trigger] r@[i]).0 == ids@[i] && *r@[i].1 == old(
                values,
            )@[i],
        final(values)@ == Seq::new(r@.len(), |i: int| *final(r@[i].1)) + old(values)@.subrange(
            r@.len() as int,
            old(values)@.len() as int,
        ),
{
    let ghost start = values@;
    let ghost goal = final(values)@;
    let mut out: Vec<(&'a EntityId, &'a mut T)> = Vec::new();
    let mut rest = values;
    let mut i: usize = 0;
    while i < ids.len() && rest.len() > 0
        invariant
            i <= ids@.len(),
            i <= start.len(),
            rest@ == start.subrange(i as int, start.len() as int),
            out@.len() == i,
            forall|j: int|
                0 <= j < i ==> *(#[trigger] out@[j]).0 == ids@[j] && *out@[j].1 == start[j],
            goal == Seq::new(i as nat, |j: int| *final(out@[j].1)) + final(rest)@,
        decreases ids@.len() - i,
    {
        let (head, tail) = rest.split_at_mut(1);
        match head.first_mut() {
            Some(x) => {
                out.push((&ids[i], x));
            },
            None => {},
        }
        rest = tail;
        i = i + 1;
    }
    out
}

/// A pool seen without its component values: its sparse layer, its dense
/// handle layer, and how many components it holds.
pub type Shape = (Seq<Option<EntityId>>, Seq<EntityId>, nat);

/// The invariants of a pool, on its shape.
pub open spec fn shape_wf(s: Shape) -> bool {
    &&& s.1.len() == s.2
    &&& s.1.len() <= usize::MAX
    &&& forall|i: int|
        0 <= i < s.1.len() ==> {
            &&& #[trigger] s.1[i] < s.0.len()
            &&& s.0[s.1[i] as int] == Some(i as EntityId)
        }
    &&& forall|h: int|
        0 <= h < s.0.len() && (#[trigger] s.0[h]).is_some() ==> {
            &&& s.0[h].unwrap() < s.1.len()
            &&& s.1[s.0[h].unwrap() as int] == h
        }
}

/// Whether handle `h` has a component in a pool of shape `s`.
pub open spec fn shape_has(s: Shape, h: int) -> bool {
    0 <= h < s.0.len() && s.0[h].is_some()
}

/// `after` is the shape of a pool of shape `before` once a component was
/// stored for handle `h`.
pub open spec fn shape_added(before: Shape, after: Shape, h: int) -> bool {
    if shape_has(before, h) {
        after == before
    } else {
        after == (
            grown_to(before.0, h).update(h, Some(before.1.len() as EntityId)),
            before.1.push(h as EntityId),
            before.2 + 1,
        )
    }
}

/// `after` is the shape of a pool of shape `before` once the component of
/// handle `h`, if any, was swap-removed.
pub open spec fn shape_removed(before: Shape, after: Shape, h: int) -> bool {
    if !shape_has(before, h) {
        after == before
    } else {
        let i = before.0[h].unwrap() as int;
        let last = before.1.len() - 1;
        let moved = before.1[last];
        after == (
            if i == last {
                before.0.update(h, None)
            } else {
                before.0.update(h, None).update(moved as int, Some(i as EntityId))
            },
            before.1.update(i, moved).drop_last(),
            (before.2 - 1) as nat,
        )
    }
}

/// The shape of a pool registered fresh with room for handles up to `high`.
pub open spec fn fresh_shape(high: int) -> Shape {
    (Seq::new((high + 1) as nat, |i: int| None::<EntityId>), Seq::empty(), 0)
}

impl<T: Component + Eq> Pool<T> {
    /// The sparse index layer.
    pub closed spec fn sparse(&self) -> Seq<Option<EntityId>> {
        self.entity_indices@
    }

    /// The dense handle layer.
    pub closed spec fn dense(&self) -> Seq<EntityId> {
        self.entity_list@
    }

    /// The dense component layer.
    pub closed spec fn values(&self) -> Seq<T> {
        self.component_list@
    }

    /// The pool without its component values.
    pub open spec fn shape(&self) -> Shape {
        (self.sparse(), self.dense(), self.values().len())
    }

    /// The two dense layers are aligned, and the sparse layer and the dense
    /// handle layer point at each other.
    pub open spec fn wf(&self) -> bool {
        shape_wf(self.shape())
    }

    /// Whether handle `h` has a component here.
    pub open spec fn has(&self, h: int) -> bool {
        0 <= h < self.sparse().len() && self.sparse()[h].is_some()
    }

    /// The dense position of handle `h`, meaningful where `has(h)`.
    pub open spec fn slot(&self, h: int) -> int {
        self.sparse()[h].unwrap() as int
    }

    /// The component of handle `h`, meaningful where `has(h)`.
    pub open spec fn value_of(&self, h: int) -> T {
        self.values()[self.slot(h)]
    }

    /// `self` is `before` after `v` was stored for handle `h`: written over
    /// in place where `h` had a component, appended to the dense layers
    /// otherwise.
    pub open spec fn added(&self, before: Self, h: int, v: T) -> bool {
        if before.has(h) {
            &&& self.sparse() == before.sparse()
            &&& self.dense() == before.dense()
            &&& self.values() == before.values().update(before.slot(h), v)
        } else {
            &&& self.sparse() == grown_to(before.sparse(), h).update(
                h,
                Some(before.dense().len() as EntityId),
            )
            &&& self.dense() == before.dense().push(h as EntityId)
            &&& self.values() == before.values().push(v)
        }
    }

    /// `self` is `before` with the component of handle `h` swap-removed: the
    /// last dense entry moves into the slot of `h`.
    pub open spec fn removed_from(&self, before: Self, h: int) -> bool {
        let i = before.slot(h);
        let last = before.dense().len() - 1;
        let moved = before.dense()[last];
        &&& self.dense() == before.dense().update(i, moved).drop_last()
        &&& self.values() == before.values().update(i, before.values()[last]).drop_last()
        &&& self.sparse() == if i == last {
            before.sparse().update(h, None)
        } else {
            before.sparse().update(h, None).update(moved as int, Some(i as EntityId))
        }
    }

    /// An empty pool.
    pub fn new() -> (r: Self)
        ensures
            r.wf(),
            r.sparse() == Seq::<Option<EntityId>>::empty(),
            r.dense() == Seq::<EntityId>::empty(),
            r.values() == Seq::<T>::empty(),
    {
        Pool { entity_indices: Vec::new(), entity_list: Vec::new(), component_list: Vec::new() }
    }

    /// Adds one empty slot to the sparse layer and returns its handle.
    pub fn new_entity(&mut self) -> (r: EntityId)
        ensures
            old(self).wf() ==> final(self).wf(),
            r == old(self).sparse().len(),
            final(self).sparse() == old(self).sparse().push(None),
            final(self).dense() == old(self).dense(),
            final(self).values() == old(self).values(),
    {
        self.entity_indices.push(None);
        self.entity_indices.len() - 1
    }

    /// Makes the sparse layer hold a slot for every handle up to `entity_id`.
    pub fn reserve_up_to(&mut self, entity_id: EntityId)
        requires
            entity_id < usize::MAX,
        ensures
            old(self).wf() ==> final(self).wf(),
            final(self).sparse().len() >= old(self).sparse().len(),
            final(self).sparse().len() > entity_id,
            final(self).sparse() == grown_to(old(self).sparse(), entity_id as int),
            final(self).dense() == old(self).dense(),
            final(self).values() == old(self).values(),
    {
        if entity_id < self.entity_indices.len() {
            return;
        }
        let ghost start = self.entity_indices@;
        while self.entity_indices.len() <= entity_id
            invariant
                start.len() <= self.entity_indices@.len() <= entity_id + 1,
                self.entity_indices@ == start + Seq::new(
                    (self.entity_indices@.len() - start.len()) as nat,
                    |i: int| None::<EntityId>,
                ),
                self.entity_list@ == old(self).dense(),
                self.component_list@ == old(self).values(),
                start == old(self).sparse(),
            decreases entity_id + 1 - self.entity_indices@.len(),
        {
            self.entity_indices.push(None);
            assert(self.entity_indices@ =~= start + Seq::new(
                (self.entity_indices@.len() - start.len()) as nat,
                |i: int| None::<EntityId>,
            ));
        }
        assert(self.entity_indices@ =~= grown_to(start, entity_id as int));
    }

    /// Stores `component` for `entity_id`, replacing the one it had.
    pub fn add_component(&mut self, entity_id: EntityId, component: T)
        requires
            entity_id < usize::MAX,
        ensures
            old(self).wf() ==> final(self).wf(),
            old(self).wf() ==> final(self).added(*old(self), entity_id as int, component),
            old(self).wf() ==> final(self).has(entity_id as int) && final(self).value_of(
                entity_id as int,
            ) == component,
    {
        if entity_id >= self.entity_indices.len() {
            self.reserve_up_to(entity_id);
        }
        match self.entity_indices[entity_id] {
            Some(index) => {
                if index < self.entity_list.len() && index < self.component_list.len() {
                    self.entity_list.set(index, entity_id);
                    self.component_list.set(index, component);
                    assert(old(self).wf() ==> self.entity_list@ =~= old(self).dense());
                }
            },
            None => {
                let index = self.entity_list.len();
                self.entity_indices.set(entity_id, Some(index));
                self.entity_list.push(entity_id);
                self.component_list.push(component);
                assert(self.entity_list.len() == self.entity_list@.len());
            },
        }
    }

    /// Takes the component of `entity_id` out by swap-remove; does nothing
    /// where there is none.
    pub fn remove(&mut self, entity_id: EntityId)
        ensures
            old(self).wf() ==> final(self).wf(),
            old(self).wf() ==> !final(self).has(entity_id as int),
            !old(self).has(entity_id as int) ==> *final(self) == *old(self),
            old(self).wf() && old(self).has(entity_id as int) ==> final(self).removed_from(
                *old(self),
                entity_id as int,
            ),
    {
        if entity_id >= self.entity_indices.len() {
            return;
        }
        if let Some(index) = self.entity_indices[entity_id] {
            if index < self.entity_list.len() && index < self.component_list.len() {
                self.entity_indices.set(entity_id, None);
                let _ = self.entity_list.swap_remove(index);
                let _ = self.component_list.swap_remove(index);
                if index < self.entity_list.len() {
                    let moved_id = self.entity_list[index];
                    if moved_id < self.entity_indices.len() {
                        self.entity_indices.set(moved_id, Some(index));
                    }
                }
            }
        }
    }

    /// The number of components held.
    pub fn len(&mut self) -> (r: usize)
        ensures
            r == old(self).dense().len(),
            *final(self) == *old(self),
    {
        self.entity_list.len()
    }

    /// The handles that hold a component, in dense order.
    pub fn entities(&self) -> (r: Vec<&EntityId>)
        ensures
            r@.len() == self.dense().len(),
            forall|i: int| 0 <= i < r@.len() ==> *#[trigger] r@[i] == self.dense()[i],
    {
        let mut r: Vec<&EntityId> = Vec::new();
        let mut i: usize = 0;
        while i < self.entity_list.len()
            invariant
                i <= self.entity_list@.len(),
                r@.len() == i,
                forall|j: int| 0 <= j < i ==> *#[trigger] r@[j] == self.dense()[j],
            decreases self.entity_list@.len() - i,
        {
            r.push(&self.entity_list[i]);
            i = i + 1;
        }
        r
    }

    /// Each handle paired with its component, in dense order.
    pub fn components(&self) -> (r: Vec<(&EntityId, &T)>)
        ensures
            self.wf() ==> r@.len() == self.dense().len(),
            forall|i: int|
                0 <= i < r@.len() ==> *(#[trigger] r@[i]).0 == self.dense()[i] && *r@[i].1
                    == self.values()[i],
    {
        let mut r: Vec<(&EntityId, &T)> = Vec::new();
        let mut i: usize = 0;
        while i < self.entity_list.len() && i < self.component_list.len()
            invariant
                i <= self.entity_list@.len(),
                self.wf() ==> i <= self.component_list@.len(),
                r@.len() == i,
                forall|j: int|
                    0 <= j < i ==> *(#[trigger] r@[j]).0 == self.dense()[j] && *r@[j].1
                        == self.values()[j],
            decreases self.entity_list@.len() - i,
        {
            r.push((&self.entity_list[i], &self.component_list[i]));
            i = i + 1;
        }
        r
    }

    /// The component of `entity_id`, if it has one.
    pub fn get(&self, entity_id: EntityId) -> (r: Option<&T>)
        ensures
            self.wf() ==> r == if self.has(entity_id as int) {
                Some(&self.value_of(entity_id as int))
            } else {
                None
            },
    {
        if entity_id >= self.entity_indices.len() {
            return None;
        }
        match self.entity_indices[entity_id] {
            Some(index) => if index < self.component_list.len() {
                Some(&self.component_list[index])
            } else {
                None
            },
            None => None,
        }
    }

    /// Exclusive access to the component of `entity_id`, if it has one.
    pub fn get_mut(&mut self, entity_id: EntityId) -> (r: Option<&mut T>)
        ensures
            old(self).wf() ==> (r is Some <==> old(self).has(entity_id as int)),
            old(self).wf() && r is Some ==> *r.unwrap() == old(self).value_of(entity_id as int)
                && final(self).values() == old(self).values().update(
                old(self).slot(entity_id as int),
                *final(r.unwrap()),
            ),
            r is None ==> *final(self) == *old(self),
            final(self).sparse() == old(self).sparse(),
            final(self).dense() == old(self).dense(),
            final(self).values().len() == old(self).values().len(),
            old(self).wf() ==> final(self).wf(),
    {
        if entity_id >= self.entity_indices.len() {
            return None;
        }
        match self.entity_indices[entity_id] {
            Some(index) => if index < self.component_list.len() {
                Some(&mut self.component_list[index])
            } else {
                None
            },
            None => None,
        }
    }

    /// Whether `entity_id` has a component here.
    pub fn has_component(&self, entity_id: EntityId) -> (r: bool)
        ensures
            r == self.has(entity_id as int),
    {
        entity_id < self.entity_indices.len() && self.entity_indices[entity_id].is_some()
    }

    /// The sparse index layer, read-only.
    pub fn entity_indices(&self) -> (r: &Vec<Option<EntityId>>)
        ensures
            r@ == self.sparse(),
    {
        &self.entity_indices
    }

    /// The dense handle layer, read-only.
    pub fn entity_list(&self) -> (r: &Vec<EntityId>)
        ensures
            r@ == self.dense(),
    {
        &self.entity_list
    }

    /// The dense component layer, read-only.
    pub fn component_list(&self) -> (r: &Vec<T>)
        ensures
            r@ == self.values(),
    {
        &self.component_list
    }

    /// Each handle paired with its component, in dense order, the components
    /// open to change in place.
    pub fn components_mut(&mut self) -> (r: Vec<(&EntityId, &mut T)>)
        ensures
            old(self).wf() ==> r@.len() == old(self).dense().len(),
            forall|i: int|
                0 <= i < r@.len() ==> *(#[trigger] r@[i]).0 == old(self).dense()[i] && *r@[i].1
                    == old(self).values()[i],
            final(self).sparse() == old(self).sparse(),
            final(self).dense() == old(self).dense(),
            final(self).values() == Seq::new(r@.len(), |i: int| *final(r@[i].1))
                + old(self).values().subrange(r@.len() as int, old(self).values().len() as int),
            old(self).wf() ==> final(self).wf(),
    {
        pair_up(self.entity_list.as_slice(), self.component_list.as_mut_slice())
    }

    /// Each handle paired with its component, in dense order, as an iterator.
    pub fn components_iter(&self) -> (r: std::vec::IntoIter<(&EntityId, &T)>)
        ensures
            self.wf() ==> r.remaining().len() == self.dense().len(),
            forall|i: int|
                0 <= i < r.remaining().len() ==> *(#[trigger] r.remaining()[i]).0
                    == self.dense()[i] && *r.remaining()[i].1 == self.values()[i],
    {
        self.components().into_iter()
    }
    /// Each handle paired with its component, in dense order, the components
    /// open to change in place, as an iterator.
    pub fn components_iter_mut(&mut self) -> (r: std::vec::IntoIter<(&EntityId, &mut T)>)
        ensures
            old(self).wf() ==> r.remaining().len() == old(self).dense().len(),
            forall|i: int|
                0 <= i < r.remaining().len() ==> *(#[trigger] r.remaining()[i]).0 == old(
                    self,
                ).dense()[i] && *r.remaining()[i].1 == old(self).values()[i],
            final(self).sparse() == old(self).sparse(),
            final(self).dense() == old(self).dense(),
            final(self).values() == Seq::new(r.remaining().len(), |i: int| *final(r.remaining()[i].1))
                + old(self).values().subrange(
                r.remaining().len() as int,
                old(self).values().len() as int,
            ),
            old(self).wf() ==> final(self).wf(),
    {
        self.components_mut().into_iter()
    }
}

/// Storing a component keeps the pool's invariants.
pub proof fn lemma_added_wf<T: Component + Eq>(
    before: Pool<T>,
    after: Pool<T>,
    entity_id: EntityId,
    v: T,
)
    requires
        before.wf(),
        after.added(before, entity_id as int, v),
    ensures
        after.wf(),
        after.has(entity_id as int),
        after.value_of(entity_id as int) == v,
{
    let h = entity_id as int;
    assert(before.entity_list.len() == before.dense().len());
    assert(after.entity_list.len() == after.dense().len());
    if !before.has(h) {
        let n = before.dense().len();
        let g = grown_to(before.sparse(), h);
        assert(forall|k: int| 0 <= k < before.sparse().len() ==> g[k] == before.sparse()[k]);
        assert(forall|k: int| before.sparse().len() <= k < g.len() ==> g[k] is None);
        assert forall|i: int| 0 <= i < after.dense().len() implies {
            &&& #[trigger] after.dense()[i] < after.sparse().len()
            &&& after.sparse()[after.dense()[i] as int] == Some(i as EntityId)
        } by {
            if i < n {
                let d = before.dense()[i] as int;
                assert(after.dense()[i] == before.dense()[i]);
                assert(before.sparse()[d] == Some(i as EntityId));
                assert(d != h);
                assert(g[d] == before.sparse()[d]);
            } else {
                assert(after.dense()[i] == h);
            }
        }
    }
}

/// Swap-removing a component keeps the pool's invariants, takes the handle
/// out, and leaves every other handle with the component it had.
pub proof fn lemma_removed_keeps_others<T: Component + Eq>(before: Pool<T>, after: Pool<T>, h: int)
    requires
        before.wf(),
        before.has(h),
        after.removed_from(before, h),
    ensures
        after.wf(),
        !after.has(h),
        after.dense().len() == before.dense().len() - 1,
        forall|k: int|
            k != h ==> (#[trigger] after.has(k) <==> before.has(k)) && (before.has(k)
                ==> after.value_of(k) == before.value_of(k)),
{
    assert(before.entity_list.len() == before.dense().len());
    let i = before.slot(h);
    let last = before.dense().len() - 1;
    let moved = before.dense()[last];
    assert forall|k: int| k != h && before.has(k) implies #[trigger] after.has(k) && after.value_of(k)
        == before.value_of(k) && after.slot(k) < after.dense().len() && after.dense()[after.slot(
        k,
    )] == k by {
        assert(before.dense()[before.slot(k)] == k);
        if k != moved {
            assert(before.slot(k) != last);
        }
    }
    assert forall|j: int| 0 <= j < after.dense().len() implies {
        &&& #[trigger] after.dense()[j] < after.sparse().len()
        &&& after.sparse()[after.dense()[j] as int] == Some(j as EntityId)
    } by {
        if j != i {
            assert(before.sparse()[before.dense()[j] as int] == Some(j as EntityId));
        }
    }
}

/// Storing twice for one handle leaves exactly one dense entry for it, which
/// holds the second value.
pub proof fn lemma_upsert<T: Component + Eq>(
    p0: Pool<T>,
    p1: Pool<T>,
    p2: Pool<T>,
    entity_id: EntityId,
    v1: T,
    v2: T,
)
    requires
        p0.wf(),
        p1.added(p0, entity_id as int, v1),
        p2.added(p1, entity_id as int, v2),
    ensures
        p2.wf(),
        p2.has(entity_id as int),
        p2.value_of(entity_id as int) == v2,
        p2.dense().len() == p1.dense().len(),
        forall|i: int|
            0 <= i < p2.dense().len() && p2.dense()[i] == entity_id ==> i == p2.slot(
                entity_id as int,
            ),
{
    let h = entity_id as int;
    lemma_added_wf(p0, p1, entity_id, v1);
    lemma_added_wf(p1, p2, entity_id, v2);
    assert(p2.entity_list.len() == p2.dense().len());
    assert forall|i: int| 0 <= i < p2.dense().len() && p2.dense()[i] == h implies i == p2.slot(
        h,
    ) by {
        assert(p2.sparse()[p2.dense()[i] as int] == Some(i as EntityId));
    }
}

} // verus!
