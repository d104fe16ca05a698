//! Entity handles and the arena that hands them out.
//!
//! A handle is a slot index plus the generation of that slot. A slot is reused
//! only after its generation has moved on, so a handle that was once destroyed
//! never again names a live entity. Destruction is deferred: `delete` only
//! queues an entity, and `maintain` carries the queue out.

use vstd::prelude::*;

verus! {

/// An opaque handle to one simulated object.
#[derive(Clone, Copy, Debug, PartialEq, Eq, Structural)]
pub struct Entity {
    pub index: usize,
    pub generation: u64,
}

/// Allocator of entity handles.
pub struct Entities {
    /// Current generation of each slot.
    generations: Vec<u64>,
    /// Whether the slot holds a live entity.
    alive: Vec<bool>,
    /// Dead slots whose generation can still advance.
    free: Vec<usize>,
    /// Entities queued for destruction at the next maintenance.
    pending: Vec<Entity>,
    /// Every handle handed out so far.
    issued: Ghost<Set<Entity>>,
}

impl Entities {
    /// The live entities.
    pub closed spec fn live(&self) -> Set<Entity> {
        Set::new(
            |e: Entity|
                e.index < self.generations@.len() && self.alive@[e.index as int]
                    && self.generations@[e.index as int] == e.generation,
        )
    }

    /// Every handle that `create` has returned.
    pub closed spec fn issued(&self) -> Set<Entity> {
        self.issued@
    }

    /// The entities queued for destruction, in the order they were queued.
    pub closed spec fn pending(&self) -> Seq<Entity> {
        self.pending@
    }

    /// The tables agree in length, every live handle was issued, and a free
    /// slot's generation is past every handle issued for it.
    pub closed spec fn wf(&self) -> bool {
        &&& self.generations@.len() == self.alive@.len()
        &&& forall|e: Entity| #[trigger]
            self.issued@.contains(e) ==> e.index < self.generations@.len()
                && e.generation <= self.generations@[e.index as int]
        &&& forall|i: int|
            0 <= i < self.alive@.len() && #[trigger] self.alive@[i] ==> self.issued@.contains(
                Entity { index: i as usize, generation: self.generations@[i] },
            )
        &&& forall|k: int|
            0 <= k < self.free@.len() ==> {
                let i = #[trigger] self.free@[k];
                &&& i < self.alive@.len()
                &&& !self.alive@[i as int]
                &&& forall|e: Entity|
                    self.issued@.contains(e) && e.index == i ==> e.generation
                        < self.generations@[i as int]
            }
        &&& self.free@.no_duplicates()
    }

    /// Every live entity was handed out by `create`; since `create` never
    /// hands out an issued handle again, a destroyed entity's handle never
    /// names a live entity later.
    pub proof fn lemma_live_are_issued(&self)
        requires
            self.wf(),
        ensures
            self.live().subset_of(self.issued()),
    {
        assert forall|e: Entity| self.live().contains(e) implies self.issued().contains(e) by {
            assert(self.alive@[e.index as int]);
        }
    }

    /// An arena with no entities.
    pub fn new() -> (r: Entities)
        ensures
            r.wf(),
            r.live() == Set::<Entity>::empty(),
            r.issued() == Set::<Entity>::empty(),
            r.pending() == Seq::<Entity>::empty(),
    {
        let r = Entities {
            generations: Vec::new(),
            alive: Vec::new(),
            free: Vec::new(),
            pending: Vec::new(),
            issued: Ghost(Set::empty()),
        };
        assert(r.live() =~= Set::<Entity>::empty());
        r
    }

    /// Whether `e` names a live entity.
    pub fn is_alive(&self, e: Entity) -> (r: bool)
        requires
            self.wf(),
        ensures
            r == self.live().contains(e),
    {
        e.index < self.generations.len() && self.alive[e.index] && self.generations[e.index]
            == e.generation
    }

    /// Creates an entity whose handle differs from every handle issued before.
    pub fn create(&mut self) -> (e: Entity)
        requires
            old(self).wf(),
        ensures
            final(self).wf(),
            !old(self).issued().contains(e),
            final(self).issued() == old(self).issued().insert(e),
            final(self).live() == old(self).live().insert(e),
            final(self).pending() == old(self).pending(),
    {
        if self.free.len() > 0 {
            let i = self.free.pop().unwrap();
            let e = Entity { index: i, generation: self.generations[i] };
            proof {
                assert(self.free@ == old(self).free@.drop_last());
                assert(old(self).free@[old(self).free@.len() - 1] == i);
                assert forall|k: int| 0 <= k < self.free@.len() implies self.free@[k] != i by {
                    assert(old(self).free@[k] == self.free@[k]);
                }
            }
            self.alive.set(i, true);
            self.issued = Ghost(self.issued@.insert(e));
            proof {
                assert forall|j: int|
                    0 <= j < self.alive@.len() && #[trigger] self.alive@[j] implies self.issued@.contains(
                    Entity { index: j as usize, generation: self.generations@[j] },
                ) by {
                    if j != i {
                        assert(old(self).alive@[j]);
                    }
                }
                assert forall|k: int| 0 <= k < self.free@.len() implies {
                    let i2 = #[trigger] self.free@[k];
                    &&& i2 < self.alive@.len()
                    &&& !self.alive@[i2 as int]
                    &&& forall|e2: Entity|
                        self.issued@.contains(e2) && e2.index == i2 ==> e2.generation
                            < self.generations@[i2 as int]
                } by {
                    assert(old(self).free@[k] == self.free@[k]);
                }
                assert(self.live() =~= old(self).live().insert(e));
            }
            e
        } else {
            let i = self.generations.len();
            let e = Entity { index: i, generation: 0 };
            self.generations.push(0);
            self.alive.push(true);
            self.issued = Ghost(self.issued@.insert(e));
            proof {
                assert forall|j: int|
                    0 <= j < self.alive@.len() && #[trigger] self.alive@[j] implies self.issued@.contains(
                    Entity { index: j as usize, generation: self.generations@[j] },
                ) by {
                    if j != i {
                        assert(old(self).alive@[j]);
                    }
                }
                assert(self.live() =~= old(self).live().insert(e));
            }
            e
        }
    }

    /// Queues `e` for destruction at the next `maintain`; the entity stays
    /// live until then. Returns whether `e` was live.
    pub fn delete(&mut self, e: Entity) -> (r: bool)
        requires
            old(self).wf(),
        ensures
            final(self).wf(),
            r == old(self).live().contains(e),
            final(self).live() == old(self).live(),
            final(self).issued() == old(self).issued(),
            final(self).pending() == if r {
                old(self).pending().push(e)
            } else {
                old(self).pending()
            },
    {
        if self.is_alive(e) {
            self.pending.push(e);
            true
        } else {
            false
        }
    }

    /// Destroys a live entity at once.
    fn kill(&mut self, e: Entity)
        requires
            old(self).wf(),
            old(self).live().contains(e),
        ensures
            final(self).wf(),
            final(self).live() == old(self).live().remove(e),
            final(self).issued() == old(self).issued(),
            final(self).pending() == old(self).pending(),
    {
        let i = e.index;
        self.alive.set(i, false);
        if self.generations[i] < u64::MAX {
            let g = self.generations[i] + 1;
            self.generations.set(i, g);
            proof {
                assert forall|k: int| 0 <= k < old(self).free@.len() implies old(self).free@[k]
                    != i by {}
            }
            self.free.push(i);
            proof {
                assert forall|k: int| 0 <= k < self.free@.len() implies {
                    let i2 = #[trigger] self.free@[k];
                    &&& i2 < self.alive@.len()
                    &&& !self.alive@[i2 as int]
                    &&& forall|e2: Entity|
                        self.issued@.contains(e2) && e2.index == i2 ==> e2.generation
                            < self.generations@[i2 as int]
                } by {
                    if k < old(self).free@.len() {
                        assert(old(self).free@[k] == self.free@[k]);
                    }
                }
            }
        } else {
            proof {
                assert forall|k: int| 0 <= k < self.free@.len() implies {
                    let i2 = #[trigger] self.free@[k];
                    &&& i2 < self.alive@.len()
                    &&& !self.alive@[i2 as int]
                    &&& forall|e2: Entity|
                        self.issued@.contains(e2) && e2.index == i2 ==> e2.generation
                            < self.generations@[i2 as int]
                } by {
                    assert(old(self).free@[k] == self.free@[k]);
                }
            }
        }
        proof {
            assert forall|j: int|
                0 <= j < self.alive@.len() && #[trigger] self.alive@[j] implies self.issued@.contains(
                Entity { index: j as usize, generation: self.generations@[j] },
            ) by {
                assert(old(self).alive@[j]);
            }
            assert(self.live() =~= old(self).live().remove(e));
        }
    }

    /// Carries out the queued destructions. Returns the entities destroyed,
    /// each once.
    pub fn maintain(&mut self) -> (removed: Vec<Entity>)
        requires
            old(self).wf(),
        ensures
            final(self).wf(),
            final(self).pending() == Seq::<Entity>::empty(),
            final(self).issued() == old(self).issued(),
            final(self).live() == old(self).live().difference(old(self).pending().to_set()),
            removed@.to_set() == old(self).live().intersect(old(self).pending().to_set()),
            removed@.no_duplicates(),
    {
        let mut queue: Vec<Entity> = Vec::new();
        std::mem::swap(&mut queue, &mut self.pending);
        let mut removed: Vec<Entity> = Vec::new();
        let mut k: usize = 0;
        while k < queue.len()
            invariant
                self.wf(),
                queue@ == old(self).pending(),
                self.pending() == Seq::<Entity>::empty(),
                self.issued() == old(self).issued(),
                k <= queue@.len(),
                self.live() == old(self).live().difference(queue@.subrange(0, k as int).to_set()),
                removed@.to_set() == old(self).live().intersect(
                    queue@.subrange(0, k as int).to_set(),
                ),
                removed@.no_duplicates(),
            decreases queue.len() - k,
        {
            let e = queue[k];
            proof {
                assert(queue@.subrange(0, k + 1) =~= queue@.subrange(0, k as int).push(e));
                queue@.subrange(0, k as int).lemma_push_to_set_commute(e);
            }
            if self.is_alive(e) {
                proof {
                    if removed@.contains(e) {
                        assert(removed@.to_set().contains(e));
                        assert(queue@.subrange(0, k as int).to_set().contains(e));
                    }
                }
                let ghost before = removed@;
                self.kill(e);
                removed.push(e);
                proof {
                    before.lemma_push_to_set_commute(e);
                    assert forall|a: int, b: int|
                        0 <= a < b < removed@.len() implies removed@[a] != removed@[b] by {
                        if b == removed@.len() - 1 {
                            assert(before.contains(removed@[a]));
                        }
                    }
                }
            }
            k = k + 1;
            proof {
                assert(self.live() =~= old(self).live().difference(
                    queue@.subrange(0, k as int).to_set(),
                ));
                assert(removed@.to_set() =~= old(self).live().intersect(
                    queue@.subrange(0, k as int).to_set(),
                ));
            }
        }
        proof {
            assert(queue@.subrange(0, queue@.len() as int) == queue@);
        }
        removed
    }
}

} // verus!
