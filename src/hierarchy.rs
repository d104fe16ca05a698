//! The parent/child index of a component type whose values name a parent
//! entity. It is brought up to date from a storage's change log and from the
//! list of destroyed entities, never by rescanning the storage.

use vstd::prelude::*;
use crate::entity::Entity;
use crate::storage::{touched, without_slot, ComponentEvent, Storage};

verus! {

/// A component that refers to a parent entity.
pub trait Parent {
    spec fn parent_of(&self) -> Entity;

    /// The entity that this component hangs under.
    fn parent_entity(&self) -> (r: Entity)
        ensures
            r == self.parent_of(),
    ;
}

/// Whether some change in `changes` concerns an entity in slot `i`.
pub open spec fn slot_touched(changes: Seq<ComponentEvent>, i: usize) -> bool {
    exists|k: int| 0 <= k < changes.len() && (#[trigger] changes[k].entity_of()).index == i
}

/// The relation after the slots named in `changes` have been read again from
/// `links`; other slots keep what `rel` held.
pub open spec fn refreshed<T: Parent>(
    rel: Map<Entity, Entity>,
    changes: Seq<ComponentEvent>,
    links: Map<Entity, T>,
) -> Map<Entity, Entity> {
    Map::new(
        |c: Entity|
            if slot_touched(changes, c.index) {
                links.contains_key(c)
            } else {
                rel.contains_key(c)
            },
        |c: Entity|
            if slot_touched(changes, c.index) {
                links[c].parent_of()
            } else {
                rel[c]
            },
    )
}

/// The relation without destroyed children and without the children of
/// destroyed parents.
pub open spec fn pruned(rel: Map<Entity, Entity>, gone: Set<Entity>) -> Map<Entity, Entity> {
    rel.restrict(Set::new(|c: Entity| !gone.contains(c) && !gone.contains(rel[c])))
}

/// The relation that maintenance leaves.
pub open spec fn maintained<T: Parent>(
    rel: Map<Entity, Entity>,
    changes: Seq<ComponentEvent>,
    links: Map<Entity, T>,
    gone: Set<Entity>,
) -> Map<Entity, Entity> {
    pruned(refreshed(rel, changes, links), gone)
}

/// The children of `p` in the relation.
pub open spec fn children_of(rel: Map<Entity, Entity>, p: Entity) -> Set<Entity> {
    Set::new(|c: Entity| rel.contains_key(c) && rel[c] == p)
}

/// The children that lose their parent when `gone` is destroyed.
pub open spec fn orphans_of(rel: Map<Entity, Entity>, gone: Set<Entity>) -> Set<Entity> {
    Set::new(|c: Entity| rel.contains_key(c) && gone.contains(rel[c]))
}

/// After maintenance, a child whose link was written since the last
/// maintenance is listed under the parent that the link names, unless the
/// child or the parent was destroyed.
pub proof fn lemma_attached_child_is_listed<T: Parent>(
    rel: Map<Entity, Entity>,
    changes: Seq<ComponentEvent>,
    links: Map<Entity, T>,
    gone: Set<Entity>,
    child: Entity,
    parent: Entity,
)
    requires
        touched(changes).contains(child),
        links.contains_key(child),
        links[child].parent_of() == parent,
        !gone.contains(child),
        !gone.contains(parent),
    ensures
        children_of(maintained(rel, changes, links, gone), parent).contains(child),
{
    let k = choose|k: int| 0 <= k < changes.len() && #[trigger] changes[k].entity_of() == child;
    assert(slot_touched(changes, child.index));
}

/// After maintenance, a child whose link was taken away since the last
/// maintenance is listed under no parent.
pub proof fn lemma_detached_child_is_unlisted<T: Parent>(
    rel: Map<Entity, Entity>,
    changes: Seq<ComponentEvent>,
    links: Map<Entity, T>,
    gone: Set<Entity>,
    child: Entity,
    parent: Entity,
)
    requires
        touched(changes).contains(child),
        !links.contains_key(child),
    ensures
        !children_of(maintained(rel, changes, links, gone), parent).contains(child),
{
    let k = choose|k: int| 0 <= k < changes.len() && #[trigger] changes[k].entity_of() == child;
    assert(slot_touched(changes, child.index));
}

/// After maintenance, a destroyed parent has no children listed.
pub proof fn lemma_destroyed_parent_has_no_children<T: Parent>(
    rel: Map<Entity, Entity>,
    changes: Seq<ComponentEvent>,
    links: Map<Entity, T>,
    gone: Set<Entity>,
    parent: Entity,
)
    requires
        gone.contains(parent),
    ensures
        children_of(maintained(rel, changes, links, gone), parent) == Set::<Entity>::empty(),
{
    assert(children_of(maintained(rel, changes, links, gone), parent) =~= Set::<Entity>::empty());
}

/// Attaching a link to `child` in a storage (as `Storage::insert` does, logging
/// the change) and then running maintenance lists `child` under the parent
/// that the link names, unless the child or the parent was destroyed.
pub proof fn lemma_attach_then_maintain<T: Parent>(
    rel: Map<Entity, Entity>,
    before: Map<Entity, T>,
    log: Seq<ComponentEvent>,
    child: Entity,
    link: T,
    gone: Set<Entity>,
)
    requires
        !gone.contains(child),
        !gone.contains(link.parent_of()),
    ensures
        ({
            let after = without_slot(before, child.index).insert(child, link);
            let event = if before.contains_key(child) {
                ComponentEvent::Modified(child)
            } else {
                ComponentEvent::Inserted(child)
            };
            children_of(maintained(rel, log.push(event), after, gone), link.parent_of()).contains(
                child,
            )
        }),
{
    let after = without_slot(before, child.index).insert(child, link);
    let event = if before.contains_key(child) {
        ComponentEvent::Modified(child)
    } else {
        ComponentEvent::Inserted(child)
    };
    let changes = log.push(event);
    assert(changes[log.len() as int].entity_of() == child);
    assert(touched(changes).contains(child));
    lemma_attached_child_is_listed(rel, changes, after, gone, child, link.parent_of());
}

/// Taking `child`'s link away in a storage (as `Storage::remove` does, logging
/// the change) and then running maintenance lists `child` under no parent.
pub proof fn lemma_remove_then_maintain<T: Parent>(
    rel: Map<Entity, Entity>,
    before: Map<Entity, T>,
    log: Seq<ComponentEvent>,
    child: Entity,
    gone: Set<Entity>,
    parent: Entity,
)
    requires
        before.contains_key(child),
    ensures
        !children_of(
            maintained(rel, log.push(ComponentEvent::Removed(child)), before.remove(child), gone),
            parent,
        ).contains(child),
{
    let changes = log.push(ComponentEvent::Removed(child));
    assert(changes[log.len() as int].entity_of() == child);
    assert(touched(changes).contains(child));
    lemma_detached_child_is_unlisted(rel, changes, before.remove(child), gone, child, parent);
}

/// Whether `v` holds `e`.
fn holds(v: &Vec<Entity>, e: Entity) -> (r: bool)
    ensures
        r == v@.contains(e),
{
    let mut k: usize = 0;
    while k < v.len()
        invariant
            k <= v@.len(),
            forall|j: int| 0 <= j < k ==> v@[j] != e,
        decreases v.len() - k,
    {
        if v[k] == e {
            return true;
        }
        k = k + 1;
    }
    false
}

/// A copy of `v`.
fn copy_row(v: &Vec<Entity>) -> (r: Vec<Entity>)
    ensures
        r@ == v@,
{
    let mut r: Vec<Entity> = Vec::new();
    let mut k: usize = 0;
    while k < v.len()
        invariant
            k <= v@.len(),
            r@ == v@.subrange(0, k as int),
        decreases v.len() - k,
    {
        r.push(v[k]);
        k = k + 1;
        proof {
            assert(r@ =~= v@.subrange(0, k as int));
        }
    }
    proof {
        assert(v@.subrange(0, v@.len() as int) =~= v@);
    }
    r
}

/// Index from child entities to their parents, and back.
pub struct Hierarchy {
    /// `links[i]` holds the child in slot `i` and its parent.
    links: Vec<Option<(Entity, Entity)>>,
    /// `kids[i]` holds the children whose parent sits in slot `i`.
    kids: Vec<Vec<Entity>>,
}

impl View for Hierarchy {
    type V = Map<Entity, Entity>;

    /// Each child to its parent.
    closed spec fn view(&self) -> Map<Entity, Entity> {
        Map::new(
            |c: Entity|
                c.index < self.links@.len() && self.links@[c.index as int] is Some
                    && self.links@[c.index as int].unwrap().0 == c,
            |c: Entity| self.links@[c.index as int].unwrap().1,
        )
    }
}

impl Hierarchy {
    /// Both tables describe the same relation, and no child is listed twice.
    pub closed spec fn wf(&self) -> bool {
        &&& forall|i: int|
            0 <= i < self.links@.len() && #[trigger] self.links@[i] is Some ==> {
                let (c, p) = self.links@[i].unwrap();
                &&& c.index == i
                &&& p.index < self.kids@.len()
                &&& self.kids@[p.index as int]@.contains(c)
            }
        &&& forall|pi: int, k: int|
            0 <= pi < self.kids@.len() && 0 <= k < self.kids@[pi]@.len() ==> {
                let c = #[trigger] self.kids@[pi]@[k];
                &&& c.index < self.links@.len()
                &&& self.links@[c.index as int] is Some
                &&& self.links@[c.index as int].unwrap().0 == c
                &&& self.links@[c.index as int].unwrap().1.index == pi
            }
        &&& forall|pi: int| 0 <= pi < self.kids@.len() ==> (#[trigger] self.kids@[pi])@.no_duplicates()
    }

    /// An index with no children.
    pub fn new() -> (r: Hierarchy)
        ensures
            r.wf(),
            r@ == Map::<Entity, Entity>::empty(),
    {
        let r = Hierarchy { links: Vec::new(), kids: Vec::new() };
        assert(r@ =~= Map::<Entity, Entity>::empty());
        r
    }

    /// The parent of `c`, if `c` is a child.
    pub fn parent(&self, c: Entity) -> (r: Option<Entity>)
        ensures
            r is Some == self@.contains_key(c),
            r is Some ==> r->0 == self@[c],
    {
        if c.index < self.links.len() {
            match &self.links[c.index] {
                Some(link) => {
                    if link.0 == c {
                        Some(link.1)
                    } else {
                        None
                    }
                },
                None => None,
            }
        } else {
            None
        }
    }

    /// The children of `p`, each once.
    pub fn children(&self, p: Entity) -> (r: Vec<Entity>)
        requires
            self.wf(),
        ensures
            r@.to_set() == children_of(self@, p),
            r@.no_duplicates(),
    {
        let mut r: Vec<Entity> = Vec::new();
        if p.index < self.kids.len() {
            let row = &self.kids[p.index];
            let mut k: usize = 0;
            while k < row.len()
                invariant
                    self.wf(),
                    p.index < self.kids@.len(),
                    *row == self.kids@[p.index as int],
                    k <= row@.len(),
                    forall|c: Entity|
                        #[trigger] r@.contains(c) <==> (row@.subrange(0, k as int).contains(c)
                            && self@.contains_key(c) && self@[c] == p),
                    r@.no_duplicates(),
                decreases row.len() - k,
            {
                let c = row[k];
                let ghost before = r@;
                proof {
                    assert(self.kids@[p.index as int]@[k as int] == c);
                    assert(row@.subrange(0, k + 1) =~= row@.subrange(0, k as int).push(c));
                    assert(!row@.subrange(0, k as int).contains(c)) by {
                        if row@.subrange(0, k as int).contains(c) {
                            let w = choose|w: int|
                                0 <= w < k && row@.subrange(0, k as int)[w] == c;
                            assert(row@[w] == row@[k as int]);
                        }
                    }
                }
                let ghost sub_old = row@.subrange(0, k as int);
                let link = self.links[c.index].unwrap();
                proof {
                    assert(self@.contains_key(c) && self@[c] == link.1);
                }
                if link.1 == p {
                    r.push(c);
                    proof {
                        assert(self@.contains_key(c));
                        assert forall|a: int, b: int| 0 <= a < b < r@.len() implies r@[a] != r@[b] by {
                            if b == r@.len() - 1 {
                                assert(before.contains(before[a]));
                            }
                        }
                    }
                }
                k = k + 1;
                proof {
                    assert(row@.subrange(0, k as int) == sub_old.push(c));
                    assert(!before.contains(c));
                    assert(r@ == before || r@ == before.push(c));
                    assert forall|x: Entity| #[trigger] r@.contains(x) <==> (row@.subrange(
                        0,
                        k as int,
                    ).contains(x) && self@.contains_key(x) && self@[x] == p) by {
                        if x == c {
                            assert(sub_old.push(c)[sub_old.len() as int] == c);
                            if r@.contains(x) {
                                assert(r@ != before);
                            }
                            if link.1 == p {
                                assert(r@[r@.len() - 1] == c);
                            }
                        } else {
                            assert(sub_old.push(c).contains(x) == sub_old.contains(x)) by {
                                if sub_old.push(c).contains(x) {
                                    let w = choose|w: int|
                                        0 <= w < sub_old.len() + 1 && sub_old.push(c)[w] == x;
                                    assert(sub_old[w] == x);
                                }
                                if sub_old.contains(x) {
                                    let w = choose|w: int| 0 <= w < sub_old.len() && sub_old[w] == x;
                                    assert(sub_old.push(c)[w] == x);
                                }
                            }
                            assert(r@.contains(x) == before.contains(x)) by {
                                if r@.contains(x) {
                                    let w = choose|w: int| 0 <= w < r@.len() && r@[w] == x;
                                    if r@ != before {
                                        assert(w < before.len());
                                        assert(before[w] == x);
                                    }
                                }
                                if before.contains(x) {
                                    let w = choose|w: int| 0 <= w < before.len() && before[w] == x;
                                    assert(r@[w] == x);
                                }
                            }
                        }
                    }
                }
            }
            proof {
                assert(row@.subrange(0, row@.len() as int) =~= row@);
            }
        }
        proof {
            assert forall|c: Entity| #[trigger] children_of(self@, p).contains(c) implies r@.contains(c) by {
                let i = c.index as int;
                assert(self.links@[i] is Some);
                assert(self.kids@[p.index as int]@.contains(c));
            }
            assert(r@.to_set() =~= children_of(self@, p));
        }
        r
    }

    /// Empties slot `i`, dropping its child from its parent's list.
    fn unlink(&mut self, i: usize)
        requires
            old(self).wf(),
            i < old(self).links@.len(),
        ensures
            final(self).wf(),
            final(self).links@ == old(self).links@.update(i as int, None),
    {
        let cur = self.links[i];
        match cur {
            None => {
                proof {
                    assert(self.links@ =~= old(self).links@.update(i as int, None));
                }
            },
            Some(link) => {
                let c = link.0;
                let pi = link.1.index;
                let row = &self.kids[pi];
                let mut k: usize = 0;
                while k < row.len() && row[k] != c
                    invariant
                        *row == self.kids@[pi as int],
                        k <= row@.len(),
                        forall|w: int| 0 <= w < k ==> row@[w] != c,
                    decreases row.len() - k,
                {
                    k = k + 1;
                }
                proof {
                    assert(self.kids@[pi as int]@.contains(c));
                    if k == row@.len() {
                        let w = choose|w: int| 0 <= w < row@.len() && row@[w] == c;
                    }
                }
                let mut shorter = copy_row(row);
                shorter.remove(k);
                let ghost old_row = row@;
                self.kids.set(pi, shorter);
                self.links.set(i, None);
                proof {
                    let kids = self.kids@;
                    let links = self.links@;
                    assert forall|j: int|
                        0 <= j < links.len() && #[trigger] links[j] is Some implies {
                        let (c2, p2) = links[j].unwrap();
                        &&& c2.index == j
                        &&& p2.index < kids.len()
                        &&& kids[p2.index as int]@.contains(c2)
                    } by {
                        let (c2, p2) = links[j].unwrap();
                        assert(old(self).links@[j] == links[j]);
                        assert(old(self).kids@[p2.index as int]@.contains(c2));
                        if p2.index == pi {
                            let w = choose|w: int| 0 <= w < old_row.len() && old_row[w] == c2;
                            assert(c2 != c);
                            assert(w != k);
                            if w < k {
                                assert(kids[pi as int]@[w] == c2);
                            } else {
                                assert(kids[pi as int]@[w - 1] == c2);
                            }
                        }
                    }
                    assert forall|qi: int, m: int|
                        0 <= qi < kids.len() && 0 <= m < kids[qi]@.len() implies {
                        let c2 = #[trigger] kids[qi]@[m];
                        &&& c2.index < links.len()
                        &&& links[c2.index as int] is Some
                        &&& links[c2.index as int].unwrap().0 == c2
                        &&& links[c2.index as int].unwrap().1.index == qi
                    } by {
                        let c2 = kids[qi]@[m];
                        if qi == pi {
                            let m2 = if m < k { m } else { m + 1 };
                            assert(old_row[m2] == c2);
                            assert(old(self).kids@[qi]@[m2] == c2);
                            assert(m2 != k);
                            assert(c2 != c);
                        } else {
                            assert(old(self).kids@[qi]@[m] == c2);
                            if c2.index == i {
                                assert(old(self).links@[i as int].unwrap().1.index == qi);
                            }
                        }
                    }
                    assert forall|qi: int| 0 <= qi < kids.len() implies (#[trigger] kids[qi])@.no_duplicates() by {
                        if qi == pi {
                            assert forall|a: int, b: int|
                                0 <= a < b < kids[qi]@.len() implies kids[qi]@[a] != kids[qi]@[b] by {
                                let a2 = if a < k { a } else { a + 1 };
                                let b2 = if b < k { b } else { b + 1 };
                                assert(kids[qi]@[a] == old_row[a2]);
                                assert(kids[qi]@[b] == old_row[b2]);
                            }
                        } else {
                            assert(kids[qi] == old(self).kids@[qi]);
                        }
                    }
                }
            },
        }
    }

    /// Records `c` as a child of `p`; slot `c.index` must be empty.
    fn link_child(&mut self, c: Entity, p: Entity)
        requires
            old(self).wf(),
            c.index < old(self).links@.len(),
            old(self).links@[c.index as int] is None,
        ensures
            final(self).wf(),
            final(self).links@ == old(self).links@.update(c.index as int, Some((c, p))),
    {
        while self.kids.len() <= p.index
            invariant
                self.wf(),
                self.links@ == old(self).links@,
                self.links@[c.index as int] is None,
                c.index < self.links@.len(),
            decreases p.index + 1 - self.kids.len(),
        {
            let ghost before = self.kids@;
            self.kids.push(Vec::new());
            proof {
                assert forall|qi: int| 0 <= qi < self.kids@.len() implies (#[trigger] self.kids@[qi])@.no_duplicates() by {
                    if qi < before.len() {
                        assert(self.kids@[qi] == before[qi]);
                    }
                }
                assert forall|j: int|
                    0 <= j < self.links@.len() && #[trigger] self.links@[j] is Some implies {
                    let (c2, p2) = self.links@[j].unwrap();
                    &&& c2.index == j
                    &&& p2.index < self.kids@.len()
                    &&& self.kids@[p2.index as int]@.contains(c2)
                } by {
                    let (c2, p2) = self.links@[j].unwrap();
                    assert(self.kids@[p2.index as int] == before[p2.index as int]);
                }
                assert forall|qi: int, m: int|
                    0 <= qi < self.kids@.len() && 0 <= m < self.kids@[qi]@.len() implies {
                    let c2 = #[trigger] self.kids@[qi]@[m];
                    &&& c2.index < self.links@.len()
                    &&& self.links@[c2.index as int] is Some
                    &&& self.links@[c2.index as int].unwrap().0 == c2
                    &&& self.links@[c2.index as int].unwrap().1.index == qi
                } by {
                    assert(qi < before.len());
                    assert(self.kids@[qi] == before[qi]);
                }
            }
        }
        let pi = p.index;
        let ghost old_kids = self.kids@;
        let ghost old_links = self.links@;
        let mut longer = copy_row(&self.kids[pi]);
        longer.push(c);
        self.kids.set(pi, longer);
        self.links.set(c.index, Some((c, p)));
        proof {
            let kids = self.kids@;
            let links = self.links@;
            assert(!old_kids[pi as int]@.contains(c)) by {
                if old_kids[pi as int]@.contains(c) {
                    let w = choose|w: int| 0 <= w < old_kids[pi as int]@.len() && old_kids[pi as int]@[w] == c;
                    assert(old_links[c.index as int] is Some);
                }
            }
            assert forall|j: int|
                0 <= j < links.len() && #[trigger] links[j] is Some implies {
                let (c2, p2) = links[j].unwrap();
                &&& c2.index == j
                &&& p2.index < kids.len()
                &&& kids[p2.index as int]@.contains(c2)
            } by {
                let (c2, p2) = links[j].unwrap();
                if j == c.index {
                    assert(kids[pi as int]@[kids[pi as int]@.len() - 1] == c);
                } else {
                    assert(old_links[j] == links[j]);
                    assert(old_kids[p2.index as int]@.contains(c2));
                    if p2.index == pi {
                        let w = choose|w: int| 0 <= w < old_kids[pi as int]@.len() && old_kids[pi as int]@[w] == c2;
                        assert(kids[pi as int]@[w] == c2);
                    }
                }
            }
            assert forall|qi: int, m: int|
                0 <= qi < kids.len() && 0 <= m < kids[qi]@.len() implies {
                let c2 = #[trigger] kids[qi]@[m];
                &&& c2.index < links.len()
                &&& links[c2.index as int] is Some
                &&& links[c2.index as int].unwrap().0 == c2
                &&& links[c2.index as int].unwrap().1.index == qi
            } by {
                let c2 = kids[qi]@[m];
                if qi == pi && m == kids[qi]@.len() - 1 {
                    assert(c2 == c);
                } else {
                    assert(old_kids[qi]@[m] == c2);
                    assert(old_links[c2.index as int] is Some);
                    assert(c2.index != c.index);
                }
            }
            assert forall|qi: int| 0 <= qi < kids.len() implies (#[trigger] kids[qi])@.no_duplicates() by {
                if qi == pi {
                    assert forall|a: int, b: int|
                        0 <= a < b < kids[qi]@.len() implies kids[qi]@[a] != kids[qi]@[b] by {
                        if b == kids[qi]@.len() - 1 {
                            assert(old_kids[pi as int]@.contains(kids[qi]@[a]));
                        } else {
                            assert(old_kids[qi]@[a] == kids[qi]@[a]);
                            assert(old_kids[qi]@[b] == kids[qi]@[b]);
                        }
                    }
                } else {
                    assert(kids[qi] == old_kids[qi]);
                }
            }
        }
    }

    /// Sets slot `i` to `link`, growing the table as needed.
    fn put(&mut self, i: usize, link: Option<(Entity, Entity)>)
        requires
            old(self).wf(),
            link is Some ==> link.unwrap().0.index == i,
        ensures
            final(self).wf(),
            final(self).links@.len() > i,
            final(self).links@.len() >= old(self).links@.len(),
            final(self).links@[i as int] == link,
            forall|j: int|
                0 <= j < final(self).links@.len() && j != i ==> final(self).links@[j] == if j
                    < old(self).links@.len() {
                    old(self).links@[j]
                } else {
                    None
                },
    {
        while self.links.len() <= i
            invariant
                self.wf(),
                forall|j: int|
                    0 <= j < self.links@.len() ==> self.links@[j] == if j < old(
                        self,
                    ).links@.len() {
                        old(self).links@[j]
                    } else {
                        None
                    },
                self.links@.len() >= old(self).links@.len(),
            decreases i + 1 - self.links.len(),
        {
            let ghost before = self.links@;
            self.links.push(None);
            proof {
                assert forall|j: int|
                    0 <= j < self.links@.len() && #[trigger] self.links@[j] is Some implies {
                    let (c2, p2) = self.links@[j].unwrap();
                    &&& c2.index == j
                    &&& p2.index < self.kids@.len()
                    &&& self.kids@[p2.index as int]@.contains(c2)
                } by {
                    assert(j < before.len());
                    assert(self.links@[j] == before[j]);
                }
                assert forall|qi: int, m: int|
                    0 <= qi < self.kids@.len() && 0 <= m < self.kids@[qi]@.len() implies {
                    let c2 = #[trigger] self.kids@[qi]@[m];
                    &&& c2.index < self.links@.len()
                    &&& self.links@[c2.index as int] is Some
                    &&& self.links@[c2.index as int].unwrap().0 == c2
                    &&& self.links@[c2.index as int].unwrap().1.index == qi
                } by {
                    let c2 = self.kids@[qi]@[m];
                    assert(before[c2.index as int] == self.links@[c2.index as int]);
                }
            }
        }
        self.unlink(i);
        match link {
            Some(pair) => {
                self.link_child(pair.0, pair.1);
            },
            None => {},
        }
    }

    /// Brings the index up to date: re-reads from `links` every slot that
    /// `changes` names, then drops the destroyed entities `gone` and the
    /// children of destroyed parents. Returns those children, which have
    /// lost their parent and are due for destruction.
    pub fn maintain<T: Parent>(
        &mut self,
        links: &Storage<T>,
        changes: &Vec<ComponentEvent>,
        gone: &Vec<Entity>,
    ) -> (orphans: Vec<Entity>)
        requires
            old(self).wf(),
        ensures
            final(self).wf(),
            final(self)@ == maintained(old(self)@, changes@, links@, gone@.to_set()),
            orphans@.to_set() == orphans_of(refreshed(old(self)@, changes@, links@), gone@.to_set()),
            orphans@.no_duplicates(),
    {
        let mut k: usize = 0;
        while k < changes.len()
            invariant
                self.wf(),
                k <= changes@.len(),
                self@ == refreshed(old(self)@, changes@.subrange(0, k as int), links@),
            decreases changes.len() - k,
        {
            let i = changes[k].entity().index;
            let ghost before = self@;
            let occ = links.occupant(i);
            match occ {
                Some(c) => {
                    let p = links.get(c).unwrap().parent_entity();
                    self.put(i, Some((c, p)));
                },
                None => {
                    self.put(i, None);
                },
            }
            proof {
                let pre = changes@.subrange(0, k as int);
                let post = changes@.subrange(0, k + 1);
                let fresh = refreshed(old(self)@, post, links@);
                assert forall|c: Entity| #[trigger] slot_touched(post, c.index) == (slot_touched(
                    pre,
                    c.index,
                ) || c.index == i) by {
                    if slot_touched(pre, c.index) {
                        let w = choose|w: int|
                            0 <= w < pre.len() && (#[trigger] pre[w].entity_of()).index == c.index;
                        assert(post[w] == pre[w]);
                    }
                    if c.index == i {
                        assert(post[k as int] == changes@[k as int]);
                    }
                    if slot_touched(post, c.index) && c.index != i {
                        let w = choose|w: int|
                            0 <= w < post.len() && (#[trigger] post[w].entity_of()).index == c.index;
                        assert(pre[w] == post[w]);
                    }
                }
                assert forall|c: Entity|
                    #![trigger self@.contains_key(c)]
                    #![trigger fresh.contains_key(c)]
                    self@.contains_key(c) == fresh.contains_key(c) && (self@.contains_key(c)
                        ==> self@[c] == fresh[c]) by {
                    assert(slot_touched(post, c.index) == (slot_touched(pre, c.index) || c.index
                        == i));
                    if c.index == i {
                        assert(slot_touched(post, c.index));
                        match occ {
                            Some(o) => {
                                assert(self.links@[i as int] == Some((o, links@[o].parent_of())));
                                if links@.contains_key(c) {
                                    links.lemma_one_per_slot(c, o);
                                }
                                assert(self@.contains_key(c) == fresh.contains_key(c));
                            },
                            None => {
                                assert(self@.contains_key(c) == fresh.contains_key(c));
                            },
                        }
                    } else {
                        assert(self@.contains_key(c) == before.contains_key(c));
                        if self@.contains_key(c) {
                            assert(self@[c] == before[c]);
                        }
                        assert(slot_touched(post, c.index) == slot_touched(pre, c.index));
                        assert(self@.contains_key(c) == fresh.contains_key(c));
                    }
                }
                assert(self@ =~= fresh);
            }
            k = k + 1;
        }
        proof {
            assert(changes@.subrange(0, changes@.len() as int) =~= changes@);
        }
        let ghost fresh = self@;
        proof {
            assert(self@ =~= Map::new(
                |c: Entity|
                    if c.index < 0 {
                        pruned(fresh, gone@.to_set()).contains_key(c)
                    } else {
                        fresh.contains_key(c)
                    },
                |c: Entity| fresh[c],
            ));
        }
        let mut orphans: Vec<Entity> = Vec::new();
        let mut i: usize = 0;
        while i < self.links.len()
            invariant
                self.wf(),
                fresh == refreshed(old(self)@, changes@, links@),
                i <= self.links@.len(),
                forall|c: Entity| #[trigger] fresh.contains_key(c) ==> c.index < self.links@.len(),
                self@ == Map::new(
                    |c: Entity|
                        if c.index < i {
                            pruned(fresh, gone@.to_set()).contains_key(c)
                        } else {
                            fresh.contains_key(c)
                        },
                    |c: Entity| fresh[c],
                ),
                orphans@.to_set() == orphans_of(fresh, gone@.to_set()).filter(
                    |c: Entity| c.index < i,
                ),
                forall|k: int| 0 <= k < orphans@.len() ==> (#[trigger] orphans@[k]).index < i,
                orphans@.no_duplicates(),
            decreases self.links.len() - i,
        {
            let ghost before = self@;
            let ghost listed = orphans@;
            let ghost g = gone@.to_set();
            let ghost old_links = self.links@;
            let cur = self.links[i];
            let mut parent_gone = false;
            let mut child_gone = false;
            if cur.is_some() && cur.unwrap().0.index == i {
                parent_gone = holds(gone, cur.unwrap().1);
                child_gone = holds(gone, cur.unwrap().0);
            }
            if parent_gone {
                orphans.push(cur.unwrap().0);
                proof {
                    assert forall|a: int, b: int|
                        0 <= a < b < orphans@.len() implies orphans@[a] != orphans@[b] by {
                        if b == orphans@.len() - 1 {
                            assert(listed[a].index < i);
                        }
                    }
                }
            }
            if child_gone || parent_gone {
                self.unlink(i);
            }
            proof {
                assert forall|c: Entity|
                    orphans_of(fresh, g).filter(|c: Entity| c.index <= i).contains(
                        c,
                    ) implies orphans@.to_set().contains(c) by {
                    if c.index == i {
                        assert(fresh.contains_key(c));
                        assert(before.contains_key(c));
                        assert(old_links[i as int] == cur);
                        assert(cur.unwrap().0 == c);
                        assert(before[c] == cur.unwrap().1);
                        assert(g.contains(fresh[c]));
                        assert(parent_gone);
                        assert(orphans@[orphans@.len() - 1] == c);
                    } else {
                        assert(listed.to_set().contains(c));
                        let w = choose|w: int| 0 <= w < listed.len() && listed[w] == c;
                        assert(orphans@[w] == c);
                    }
                }
                assert forall|c: Entity| orphans@.to_set().contains(c) implies orphans_of(
                    fresh,
                    g,
                ).filter(|c: Entity| c.index <= i).contains(c) by {
                    let w = choose|w: int| 0 <= w < orphans@.len() && orphans@[w] == c;
                    if w < listed.len() {
                        assert(listed[w] == c);
                        assert(listed.to_set().contains(c));
                    } else {
                        assert(old_links[i as int] == cur);
                        assert(before.contains_key(c));
                        assert(before[c] == cur.unwrap().1);
                    }
                }
                assert(orphans@.to_set() =~= orphans_of(fresh, g).filter(|c: Entity| c.index <= i));
                assert forall|c: Entity|
                    #![trigger self@.contains_key(c)]
                    self@.contains_key(c) == (if c.index <= i {
                        pruned(fresh, g).contains_key(c)
                    } else {
                        fresh.contains_key(c)
                    }) && (self@.contains_key(c) ==> self@[c] == fresh[c]) by {
                    if c.index == i {
                        assert(old_links[i as int] == cur);
                        if before.contains_key(c) {
                            assert(before[c] == fresh[c]);
                            assert(cur == Some((c, fresh[c])));
                            assert(child_gone == g.contains(c));
                            assert(parent_gone == g.contains(fresh[c]));
                        } else {
                            assert(!fresh.contains_key(c));
                        }
                        if !(child_gone || parent_gone) {
                            assert(self.links@[i as int] == cur);
                        }
                    } else {
                        if c.index < self.links@.len() {
                            assert(self.links@[c.index as int] == old_links[c.index as int]);
                        }
                        assert(self@.contains_key(c) == before.contains_key(c));
                        if before.contains_key(c) {
                            assert(self@[c] == before[c]);
                        }
                    }
                }
                assert(self@ =~= Map::new(
                    |c: Entity|
                        if c.index <= i {
                            pruned(fresh, g).contains_key(c)
                        } else {
                            fresh.contains_key(c)
                        },
                    |c: Entity| fresh[c],
                ));
            }
            i = i + 1;
        }
        proof {
            assert(self@ =~= maintained(old(self)@, changes@, links@, gone@.to_set()));
            assert(orphans@.to_set() =~= orphans_of(fresh, gone@.to_set()));
        }
        orphans
    }
}

} // verus!
