//! Per-component-type storage, keyed by entity, with a log of changes and
//! joins over several storages.

use vstd::prelude::*;
use crate::entity::Entity;

verus! {

broadcast use vstd::seq::Seq::lemma_push_to_set_commute;

/// One change made to a storage.
#[derive(Clone, Copy, Debug, PartialEq, Eq, Structural)]
pub enum ComponentEvent {
    /// A component was attached to an entity that had none.
    Inserted(Entity),
    /// An entity's component was replaced.
    Modified(Entity),
    /// An entity's component was taken away.
    Removed(Entity),
}

impl ComponentEvent {
    /// The entity that the change concerns.
    pub open spec fn entity_of(self) -> Entity {
        match self {
            ComponentEvent::Inserted(e) => e,
            ComponentEvent::Modified(e) => e,
            ComponentEvent::Removed(e) => e,
        }
    }

    /// The entity that the change concerns.
    pub fn entity(&self) -> (r: Entity)
        ensures
            r == self.entity_of(),
    {
        match self {
            ComponentEvent::Inserted(e) => *e,
            ComponentEvent::Modified(e) => *e,
            ComponentEvent::Removed(e) => *e,
        }
    }
}

/// The entities that a sequence of changes concerns.
pub open spec fn touched(events: Seq<ComponentEvent>) -> Set<Entity> {
    Set::new(|e: Entity| exists|k: int| 0 <= k < events.len() && #[trigger] events[k].entity_of() == e)
}

/// `m` without the entries whose entity sits in slot `index`.
pub open spec fn without_slot<T>(m: Map<Entity, T>, index: usize) -> Map<Entity, T> {
    m.restrict(Set::new(|e: Entity| e.index != index))
}

/// The components of one type, at most one per entity slot.
#[verifier::reject_recursive_types(T)]
pub struct Storage<T> {
    /// `slots[i]` holds the generation of the owning entity and its component.
    slots: Vec<Option<(u64, T)>>,
    /// Changes since the log was last taken.
    events: Vec<ComponentEvent>,
}

impl<T> View for Storage<T> {
    type V = Map<Entity, T>;

    closed spec fn view(&self) -> Map<Entity, T> {
        Map::new(
            |e: Entity|
                e.index < self.slots@.len() && self.slots@[e.index as int] is Some
                    && self.slots@[e.index as int].unwrap().0 == e.generation,
            |e: Entity| self.slots@[e.index as int].unwrap().1,
        )
    }
}

impl<T> Storage<T> {
    /// Changes made since the log was last taken, oldest first.
    pub closed spec fn changes(&self) -> Seq<ComponentEvent> {
        self.events@
    }

    /// No two entities that share a slot both have a component.
    pub proof fn lemma_one_per_slot(&self, a: Entity, b: Entity)
        requires
            self@.contains_key(a),
            self@.contains_key(b),
            a.index == b.index,
        ensures
            a == b,
    {
    }

    /// An empty storage.
    pub fn new() -> (r: Storage<T>)
        ensures
            r@ == Map::<Entity, T>::empty(),
            r.changes() == Seq::<ComponentEvent>::empty(),
    {
        let r = Storage { slots: Vec::new(), events: Vec::new() };
        assert(r@ =~= Map::<Entity, T>::empty());
        r
    }

    /// Whether `e` has a component here.
    pub fn contains(&self, e: Entity) -> (r: bool)
        ensures
            r == self@.contains_key(e),
    {
        if e.index < self.slots.len() {
            match &self.slots[e.index] {
                Some(slot) => slot.0 == e.generation,
                None => false,
            }
        } else {
            false
        }
    }

    /// The component of `e`, if it has one.
    pub fn get(&self, e: Entity) -> (r: Option<&T>)
        ensures
            r is Some == self@.contains_key(e),
            r is Some ==> *r->0 == self@[e],
    {
        if e.index < self.slots.len() {
            match &self.slots[e.index] {
                Some(slot) => {
                    if slot.0 == e.generation {
                        Some(&slot.1)
                    } else {
                        None
                    }
                },
                None => None,
            }
        } else {
            None
        }
    }

    /// Attaches `value` to `e`, replacing what `e` had, and drops the component
    /// of any other entity in the same slot. Returns whether `e` had one.
    pub fn insert(&mut self, e: Entity, value: T) -> (replaced: bool)
        ensures
            replaced == old(self)@.contains_key(e),
            final(self)@ == without_slot(old(self)@, e.index).insert(e, value),
            final(self).changes() == old(self).changes().push(
                if replaced {
                    ComponentEvent::Modified(e)
                } else {
                    ComponentEvent::Inserted(e)
                },
            ),
    {
        let replaced = self.contains(e);
        while self.slots.len() <= e.index
            invariant
                self@ == old(self)@,
                self.events@ == old(self).events@,
                forall|i: int|
                    old(self).slots@.len() <= i < self.slots@.len() ==> self.slots@[i] is None,
                forall|i: int|
                    0 <= i < old(self).slots@.len() ==> self.slots@[i] == old(self).slots@[i],
                self.slots@.len() >= old(self).slots@.len(),
            decreases e.index + 1 - self.slots.len(),
        {
            self.slots.push(None);
            proof {
                assert(self@ =~= old(self)@);
            }
        }
        self.slots.set(e.index, Some((e.generation, value)));
        if replaced {
            self.events.push(ComponentEvent::Modified(e));
        } else {
            self.events.push(ComponentEvent::Inserted(e));
        }
        proof {
            assert(self@ =~= without_slot(old(self)@, e.index).insert(e, value));
        }
        replaced
    }

    /// Takes the component away from `e`. Returns whether `e` had one.
    pub fn remove(&mut self, e: Entity) -> (removed: bool)
        ensures
            removed == old(self)@.contains_key(e),
            final(self)@ == old(self)@.remove(e),
            final(self).changes() == if removed {
                old(self).changes().push(ComponentEvent::Removed(e))
            } else {
                old(self).changes()
            },
    {
        if self.contains(e) {
            self.slots.set(e.index, None);
            self.events.push(ComponentEvent::Removed(e));
            proof {
                assert(self@ =~= old(self)@.remove(e));
            }
            true
        } else {
            proof {
                assert(old(self)@.remove(e) =~= old(self)@);
            }
            false
        }
    }

    /// Takes away the components of all of `gone` (the entities that
    /// maintenance destroyed), logging one removal for each that had one.
    pub fn remove_all(&mut self, gone: &Vec<Entity>)
        ensures
            final(self)@ == old(self)@.remove_keys(gone@.to_set()),
            final(self).changes().subrange(0, old(self).changes().len() as int)
                == old(self).changes(),
            touched(final(self).changes()) == touched(old(self).changes()).union(
                gone@.to_set().intersect(old(self)@.dom()),
            ),
    {
        let mut k: usize = 0;
        while k < gone.len()
            invariant
                k <= gone@.len(),
                self@ == old(self)@.remove_keys(gone@.subrange(0, k as int).to_set()),
                self.changes().len() >= old(self).changes().len(),
                self.changes().subrange(0, old(self).changes().len() as int)
                    == old(self).changes(),
                touched(self.changes()) == touched(old(self).changes()).union(
                    gone@.subrange(0, k as int).to_set().intersect(old(self)@.dom()),
                ),
            decreases gone.len() - k,
        {
            let e = gone[k];
            let ghost before = self.changes();
            proof {
                assert(gone@.subrange(0, k + 1) =~= gone@.subrange(0, k as int).push(e));
            }
            let had = self.remove(e);
            proof {
                if had {
                    assert(touched(self.changes()) =~= touched(before).insert(e)) by {
                        assert(self.changes()[before.len() as int].entity_of() == e);
                        assert forall|x: Entity| touched(before).contains(x) implies touched(
                            self.changes(),
                        ).contains(x) by {
                            let w = choose|w: int|
                                0 <= w < before.len() && #[trigger] before[w].entity_of() == x;
                            assert(self.changes()[w] == before[w]);
                        }
                        assert forall|x: Entity| touched(self.changes()).contains(x) implies x
                            == e || touched(before).contains(x) by {
                            let w = choose|w: int|
                                0 <= w < self.changes().len() && #[trigger] self.changes()[w].entity_of()
                                    == x;
                            if w < before.len() {
                                assert(before[w] == self.changes()[w]);
                            }
                        }
                    }
                    assert(self.changes().subrange(0, old(self).changes().len() as int)
                        =~= before.subrange(0, old(self).changes().len() as int));
                } else {
                    assert(!old(self)@.contains_key(e) || gone@.subrange(
                        0,
                        k as int,
                    ).contains(e));
                }
            }
            k = k + 1;
            proof {
                assert(self@ =~= old(self)@.remove_keys(gone@.subrange(0, k as int).to_set()));
                assert(touched(self.changes()) =~= touched(old(self).changes()).union(
                    gone@.subrange(0, k as int).to_set().intersect(old(self)@.dom()),
                ));
            }
        }
        proof {
            assert(gone@.subrange(0, gone@.len() as int) =~= gone@);
        }
    }

    /// Hands out the change log and starts a new one.
    pub fn take_changes(&mut self) -> (r: Vec<ComponentEvent>)
        ensures
            r@ == old(self).changes(),
            final(self).changes() == Seq::<ComponentEvent>::empty(),
            final(self)@ == old(self)@,
    {
        let mut r: Vec<ComponentEvent> = Vec::new();
        std::mem::swap(&mut r, &mut self.events);
        r
    }

    /// The entities with a component in a slot below `i`.
    spec fn keys_below(&self, i: int) -> Set<Entity> {
        Set::new(|e: Entity| self@.contains_key(e) && e.index < i)
    }

    /// Whether slot `i` holds a component, and for which generation.
    fn slot_generation(&self, i: usize) -> (r: Option<u64>)
        requires
            i < self.slots@.len(),
        ensures
            r is Some == self.slots@[i as int] is Some,
            r is Some ==> self@.contains_key(Entity { index: i, generation: r->0 }),
    {
        match &self.slots[i] {
            Some(slot) => Some(slot.0),
            None => None,
        }
    }

    /// The entity in slot `i` that has a component here, if any.
    pub fn occupant(&self, i: usize) -> (r: Option<Entity>)
        ensures
            r is Some ==> self@.contains_key(r->0) && r->0.index == i,
            r is None ==> forall|e: Entity| e.index == i ==> !self@.contains_key(e),
    {
        if i < self.slots.len() {
            match self.slot_generation(i) {
                Some(g) => Some(Entity { index: i, generation: g }),
                None => None,
            }
        } else {
            None
        }
    }

    /// Every entity that has a component here, each once, by slot order.
    pub fn entities(&self) -> (r: Vec<Entity>)
        ensures
            r@.to_set() == self@.dom(),
            r@.no_duplicates(),
    {
        let mut r: Vec<Entity> = Vec::new();
        let mut i: usize = 0;
        while i < self.slots.len()
            invariant
                i <= self.slots@.len(),
                r@.to_set() == self.keys_below(i as int),
                forall|k: int| 0 <= k < r@.len() ==> (#[trigger] r@[k]).index < i,
                r@.no_duplicates(),
            decreases self.slots.len() - i,
        {
            let ghost before = r@;
            match self.slot_generation(i) {
                Some(g) => {
                    let e = Entity { index: i, generation: g };
                    r.push(e);
                    proof {
                        assert forall|a: int, b: int|
                            0 <= a < b < r@.len() implies r@[a] != r@[b] by {
                            if b == r@.len() - 1 {
                                assert(before[a].index < i);
                            }
                        }
                    }
                },
                None => {},
            }
            i = i + 1;
            proof {
                assert forall|e: Entity|
                    self.keys_below(i as int).contains(e) implies r@.to_set().contains(
                    e,
                ) by {
                    if e.index == i - 1 {
                        assert(r@[r@.len() - 1] == e);
                    } else {
                        assert(before.to_set().contains(e));
                    }
                }
                assert(r@.to_set() =~= self.keys_below(i as int));
            }
        }
        proof {
            assert(r@.to_set() =~= self@.dom());
        }
        r
    }
}

/// The entities that have a component in both storages, each once.
pub fn join<A, B>(a: &Storage<A>, b: &Storage<B>) -> (r: Vec<Entity>)
    ensures
        r@.to_set() == a@.dom().intersect(b@.dom()),
        r@.no_duplicates(),
{
    let all = a.entities();
    let mut r: Vec<Entity> = Vec::new();
    let mut k: usize = 0;
    while k < all.len()
        invariant
            k <= all@.len(),
            all@.to_set() == a@.dom(),
            all@.no_duplicates(),
            r@.to_set() == all@.subrange(0, k as int).to_set().intersect(b@.dom()),
            r@.no_duplicates(),
        decreases all.len() - k,
    {
        let e = all[k];
        let ghost before = r@;
        proof {
            assert(all@.subrange(0, k + 1) =~= all@.subrange(0, k as int).push(e));
        }
        if b.contains(e) {
            r.push(e);
            proof {
                assert forall|x: int, y: int| 0 <= x < y < r@.len() implies r@[x] != r@[y] by {
                    if y == r@.len() - 1 {
                        assert(before.to_set().contains(before[x]));
                        let w = choose|w: int| 0 <= w < k && all@[w] == before[x];
                        assert(all@[w] != all@[k as int]);
                    }
                }
            }
        }
        k = k + 1;
        proof {
            assert(r@.to_set() =~= all@.subrange(0, k as int).to_set().intersect(b@.dom()));
        }
    }
    proof {
        assert(all@.subrange(0, all@.len() as int) =~= all@);
        assert(r@.to_set() =~= a@.dom().intersect(b@.dom()));
    }
    r
}

} // verus!
