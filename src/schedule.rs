//! The dependency scheduler. Each step declares a name, the steps it depends
//! on, the resources it reads and writes, and whether it must run exclusively
//! on the calling thread. Building orders the shared steps into stages: a step
//! sits in a later stage than each of its dependencies, and the steps of one
//! stage never conflict over a resource, so they may run side by side. The
//! exclusive steps run after every stage, in the order they were declared.

use vstd::prelude::*;

verus! {

/// What one step declares.
pub struct StepDecl {
    pub name: String,
    pub deps: Vec<String>,
    pub reads: Vec<u32>,
    pub writes: Vec<u32>,
    pub exclusive: bool,
}

/// Why a set of steps cannot be scheduled.
#[derive(Debug, PartialEq, Eq)]
pub enum ScheduleError {
    /// Two steps share this name.
    DuplicateStep(String),
    /// A step depends on this name, which no step has.
    UnknownStep(String),
    /// The dependencies admit no order.
    Cycle,
}

/// No two steps share a name.
pub open spec fn names_unique(steps: Seq<StepDecl>) -> bool {
    forall|i: int, j: int|
        0 <= i < steps.len() && 0 <= j < steps.len() && i != j ==> #[trigger] steps[i].name@
            != #[trigger] steps[j].name@
}

/// Some step is called `name`.
pub open spec fn declared(steps: Seq<StepDecl>, name: Seq<char>) -> bool {
    exists|k: int| 0 <= k < steps.len() && #[trigger] steps[k].name@ == name
}

/// Every dependency names a step.
pub open spec fn deps_known(steps: Seq<StepDecl>) -> bool {
    forall|i: int, j: int|
        0 <= i < steps.len() && 0 <= j < steps[i].deps@.len() ==> declared(
            steps,
            #[trigger] steps[i].deps@[j]@,
        )
}

/// Step `i` depends on step `d`.
pub open spec fn depends(steps: Seq<StepDecl>, i: int, d: int) -> bool {
    exists|j: int| 0 <= j < steps[i].deps@.len() && #[trigger] steps[i].deps@[j]@ == steps[d].name@
}

/// Steps `a` and `b` must not run side by side: one writes what the other
/// reads or writes.
pub open spec fn conflict(a: StepDecl, b: StepDecl) -> bool {
    exists|r: u32|
        #![trigger a.writes@.contains(r)]
        #![trigger a.reads@.contains(r)]
        (a.writes@.contains(r) && (b.reads@.contains(r) || b.writes@.contains(r))) || (
        a.reads@.contains(r) && b.writes@.contains(r))
}

/// `level` gives each shared step a stage such that each dependency sits in
/// an earlier stage and no stage holds two conflicting steps; each exclusive
/// step depends only on shared steps and on exclusive steps declared before it.
pub open spec fn valid_levels(steps: Seq<StepDecl>, level: Seq<usize>) -> bool {
    &&& level.len() == steps.len()
    &&& forall|i: int, d: int|
        0 <= i < steps.len() && 0 <= d < steps.len() && !steps[i].exclusive && #[trigger] depends(
            steps,
            i,
            d,
        ) ==> !steps[d].exclusive && level[d] < level[i]
    &&& forall|i: int, d: int|
        0 <= i < steps.len() && 0 <= d < steps.len() && steps[i].exclusive && #[trigger] depends(
            steps,
            i,
            d,
        ) ==> !steps[d].exclusive || d < i
    &&& forall|i: int, j: int|
        0 <= i < steps.len() && 0 <= j < steps.len() && i != j && !steps[i].exclusive
            && !steps[j].exclusive && level[i] == level[j] ==> !conflict(
            #[trigger] steps[i],
            #[trigger] steps[j],
        )
}

/// Some assignment of stages meets every constraint.
pub open spec fn schedulable(steps: Seq<StepDecl>) -> bool {
    exists|level: Seq<usize>| valid_levels(steps, level)
}

/// `exclusive` lists the exclusive steps, each once, in declared order.
pub open spec fn lists_exclusive(steps: Seq<StepDecl>, exclusive: Seq<usize>) -> bool {
    &&& forall|a: int, b: int| 0 <= a < b < exclusive.len() ==> exclusive[a] < exclusive[b]
    &&& forall|k: int|
        0 <= k < exclusive.len() ==> #[trigger] exclusive[k] < steps.len()
            && steps[exclusive[k] as int].exclusive
    &&& forall|i: int|
        0 <= i < steps.len() && #[trigger] steps[i].exclusive ==> exclusive.contains(i as usize)
}

/// A built schedule: the stage of each shared step, the number of stages,
/// and the exclusive steps in order.
pub struct Schedule {
    pub level: Vec<usize>,
    pub levels: usize,
    pub exclusive: Vec<usize>,
}

impl Schedule {
    /// The schedule fits `steps`.
    pub open spec fn fits(&self, steps: Seq<StepDecl>) -> bool {
        &&& valid_levels(steps, self.level@)
        &&& forall|i: int|
            0 <= i < steps.len() && !steps[i].exclusive ==> #[trigger] self.level@[i] < self.levels
        &&& lists_exclusive(steps, self.exclusive@)
    }
}

/// Whether `a` and `b` share an element.
fn share(a: &Vec<u32>, b: &Vec<u32>) -> (r: bool)
    ensures
        r == exists|x: u32| #[trigger] a@.contains(x) && b@.contains(x),
{
    let mut i: usize = 0;
    while i < a.len()
        invariant
            i <= a@.len(),
            forall|k: int, m: int| 0 <= k < i && 0 <= m < b@.len() ==> a@[k] != b@[m],
        decreases a.len() - i,
    {
        let mut j: usize = 0;
        while j < b.len()
            invariant
                i < a@.len(),
                j <= b@.len(),
                forall|k: int, m: int| 0 <= k < i && 0 <= m < b@.len() ==> a@[k] != b@[m],
                forall|m: int| 0 <= m < j ==> a@[i as int] != b@[m],
            decreases b.len() - j,
        {
            if a[i] == b[j] {
                proof {
                    assert(a@.contains(a@[i as int]) && b@.contains(a@[i as int]));
                }
                return true;
            }
            j = j + 1;
        }
        i = i + 1;
    }
    proof {
        assert forall|x: u32| !(#[trigger] a@.contains(x) && b@.contains(x)) by {
            if a@.contains(x) && b@.contains(x) {
                let k = choose|k: int| 0 <= k < a@.len() && a@[k] == x;
                let m = choose|m: int| 0 <= m < b@.len() && b@[m] == x;
            }
        }
    }
    false
}

/// Whether `a` and `b` conflict.
fn conflicts(a: &StepDecl, b: &StepDecl) -> (r: bool)
    ensures
        r == conflict(*a, *b),
{
    let r = share(&a.writes, &b.reads) || share(&a.writes, &b.writes) || share(&a.reads, &b.writes);
    proof {
        if r {
            if share_spec(a.writes@, b.reads@) {
                let x = choose|x: u32| #[trigger] a.writes@.contains(x) && b.reads@.contains(x);
                assert(a.writes@.contains(x));
            } else if share_spec(a.writes@, b.writes@) {
                let x = choose|x: u32| #[trigger] a.writes@.contains(x) && b.writes@.contains(x);
                assert(a.writes@.contains(x));
            } else {
                let x = choose|x: u32| #[trigger] a.reads@.contains(x) && b.writes@.contains(x);
                assert(a.reads@.contains(x));
            }
        } else {
            assert forall|x: u32|
                !((a.writes@.contains(x) && (b.reads@.contains(x) || b.writes@.contains(x))) || (
                a.reads@.contains(x) && b.writes@.contains(x))) by {
                assert(!(a.writes@.contains(x) && b.reads@.contains(x)));
                assert(!(a.writes@.contains(x) && b.writes@.contains(x)));
                assert(!(a.reads@.contains(x) && b.writes@.contains(x)));
            }
        }
    }
    r
}

/// `a` and `b` share an element.
spec fn share_spec(a: Seq<u32>, b: Seq<u32>) -> bool {
    exists|x: u32| #[trigger] a.contains(x) && b.contains(x)
}

/// The index of a step whose name an earlier step already has, if any.
fn find_duplicate(steps: &Vec<StepDecl>) -> (r: Option<usize>)
    ensures
        r is None ==> names_unique(steps@),
        r is Some ==> r->0 < steps@.len() && exists|i: int|
            0 <= i < steps@.len() && i != r->0 && #[trigger] steps@[i].name@ == steps@[r->0 as int].name@,
{
    let mut j: usize = 0;
    while j < steps.len()
        invariant
            j <= steps@.len(),
            forall|a: int, b: int| 0 <= a < b < j ==> steps@[a].name@ != steps@[b].name@,
        decreases steps.len() - j,
    {
        let mut i: usize = 0;
        while i < j
            invariant
                i <= j < steps@.len(),
                forall|a: int, b: int| 0 <= a < b < j ==> steps@[a].name@ != steps@[b].name@,
                forall|a: int| 0 <= a < i ==> steps@[a].name@ != steps@[j as int].name@,
            decreases j - i,
        {
            if steps[i].name == steps[j].name {
                return Some(j);
            }
            i = i + 1;
        }
        j = j + 1;
    }
    proof {
        assert forall|i: int, j: int|
            0 <= i < steps@.len() && 0 <= j < steps@.len() && i != j implies #[trigger] steps@[i].name@
            != #[trigger] steps@[j].name@ by {
            if i < j {
                assert(steps@[i].name@ != steps@[j].name@);
            } else {
                assert(steps@[j].name@ != steps@[i].name@);
            }
        }
    }
    None
}

/// The index of the step called `name`, if any.
fn find_step(steps: &Vec<StepDecl>, name: &String) -> (r: Option<usize>)
    ensures
        r is Some ==> r->0 < steps@.len() && steps@[r->0 as int].name@ == name@,
        r is None ==> !declared(steps@, name@),
{
    let mut k: usize = 0;
    while k < steps.len()
        invariant
            k <= steps@.len(),
            forall|a: int| 0 <= a < k ==> steps@[a].name@ != name@,
        decreases steps.len() - k,
    {
        if steps[k].name == *name {
            return Some(k);
        }
        k = k + 1;
    }
    None
}

/// `res[i][j]` is the index of the step that dependency `j` of step `i` names.
pub open spec fn resolved(steps: Seq<StepDecl>, res: Seq<Vec<usize>>) -> bool {
    &&& res.len() == steps.len()
    &&& forall|i: int| 0 <= i < steps.len() ==> (#[trigger] res[i])@.len() == steps[i].deps@.len()
    &&& forall|i: int, j: int|
        0 <= i < steps.len() && 0 <= j < steps[i].deps@.len() ==> (#[trigger] res[i]@[j]) < steps.len()
            && steps[res[i]@[j] as int].name@ == steps[i].deps@[j]@
}

/// Turns every dependency name into a step index, or gives back a name that
/// no step has.
fn resolve(steps: &Vec<StepDecl>) -> (r: Result<Vec<Vec<usize>>, String>)
    ensures
        r is Ok ==> deps_known(steps@) && resolved(steps@, r->Ok_0@),
        r is Err ==> !declared(steps@, r->Err_0@) && exists|i: int, j: int|
            0 <= i < steps@.len() && 0 <= j < steps@[i].deps@.len() && #[trigger] steps@[i].deps@[j]@
                == r->Err_0@,
{
    let mut res: Vec<Vec<usize>> = Vec::new();
    let mut i: usize = 0;
    while i < steps.len()
        invariant
            i <= steps@.len(),
            res@.len() == i,
            forall|a: int| 0 <= a < i ==> (#[trigger] res@[a])@.len() == steps@[a].deps@.len(),
            forall|a: int, j: int|
                0 <= a < i && 0 <= j < steps@[a].deps@.len() ==> (#[trigger] res@[a]@[j])
                    < steps@.len() && steps@[res@[a]@[j] as int].name@ == steps@[a].deps@[j]@,
        decreases steps.len() - i,
    {
        let mut row: Vec<usize> = Vec::new();
        let mut j: usize = 0;
        while j < steps[i].deps.len()
            invariant
                i < steps@.len(),
                j <= steps@[i as int].deps@.len(),
                row@.len() == j,
                forall|m: int| 0 <= m < j ==> (#[trigger] row@[m]) < steps@.len() && steps@[row@[m] as int].name@
                    == steps@[i as int].deps@[m]@,
            decreases steps[i as int].deps@.len() - j,
        {
            match find_step(steps, &steps[i].deps[j]) {
                Some(k) => row.push(k),
                None => {
                    let name = steps[i].deps[j].clone();
                    proof {
                        assert(steps@[i as int].deps@[j as int]@ == name@);
                    }
                    return Err(name);
                },
            }
            j = j + 1;
        }
        res.push(row);
        i = i + 1;
    }
    proof {
        assert forall|a: int, j: int|
            0 <= a < steps@.len() && 0 <= j < steps@[a].deps@.len() implies declared(
            steps@,
            #[trigger] steps@[a].deps@[j]@,
        ) by {
            assert(steps@[res@[a]@[j] as int].name@ == steps@[a].deps@[j]@);
        }
    }
    Ok(res)
}

/// With unique names, the resolved indices are exactly the dependencies.
proof fn lemma_resolved_depends(steps: Seq<StepDecl>, res: Seq<Vec<usize>>, i: int, d: usize)
    requires
        names_unique(steps),
        resolved(steps, res),
        0 <= i < steps.len(),
        d < steps.len(),
    ensures
        depends(steps, i, d as int) == res[i]@.contains(d),
{
    assert(res[i]@.len() == steps[i].deps@.len());
    if depends(steps, i, d as int) {
        let j = choose|j: int|
            0 <= j < steps[i].deps@.len() && #[trigger] steps[i].deps@[j]@ == steps[d as int].name@;
        let k = res[i]@[j];
        assert(steps[k as int].name@ == steps[d as int].name@);
        assert(k == d);
    }
    if res[i]@.contains(d) {
        let j = choose|j: int| 0 <= j < res[i]@.len() && res[i]@[j] == d;
        assert(steps[res[i]@[j] as int].name@ == steps[i].deps@[j]@);
        assert(steps[i].deps@[j]@ == steps[d as int].name@);
    }
}

/// How many entries of `s` are set.
pub open spec fn count_true(s: Seq<bool>) -> nat
    decreases s.len(),
{
    if s.len() == 0 {
        0
    } else {
        count_true(s.drop_last()) + if s.last() {
            1nat
        } else {
            0nat
        }
    }
}

proof fn lemma_count_bound(s: Seq<bool>)
    ensures
        count_true(s) <= s.len(),
    decreases s.len(),
{
    if s.len() > 0 {
        lemma_count_bound(s.drop_last());
    }
}

proof fn lemma_count_set(s: Seq<bool>, i: int)
    requires
        0 <= i < s.len(),
        !s[i],
    ensures
        count_true(s.update(i, true)) == count_true(s) + 1,
    decreases s.len(),
{
    let t = s.update(i, true);
    if i == s.len() - 1 {
        assert(t.drop_last() =~= s.drop_last());
    } else {
        assert(t.drop_last() =~= s.drop_last().update(i, true));
        lemma_count_set(s.drop_last(), i);
    }
}

proof fn lemma_conflict_symmetric(a: StepDecl, b: StepDecl)
    ensures
        conflict(a, b) == conflict(b, a),
{
    if conflict(a, b) {
        let r = choose|r: u32|
            #![trigger a.writes@.contains(r)]
            #![trigger a.reads@.contains(r)]
            (a.writes@.contains(r) && (b.reads@.contains(r) || b.writes@.contains(r))) || (
            a.reads@.contains(r) && b.writes@.contains(r));
        assert(b.writes@.contains(r) || b.reads@.contains(r));
    }
    if conflict(b, a) {
        let r = choose|r: u32|
            #![trigger b.writes@.contains(r)]
            #![trigger b.reads@.contains(r)]
            (b.writes@.contains(r) && (a.reads@.contains(r) || a.writes@.contains(r))) || (
            b.reads@.contains(r) && a.writes@.contains(r));
        assert(a.writes@.contains(r) || a.reads@.contains(r));
    }
}

/// Dependency `d` sits in a stage before `before`.
pub open spec fn dep_met(
    steps: Seq<StepDecl>,
    placed: Seq<bool>,
    level: Seq<usize>,
    before: usize,
    d: usize,
) -> bool {
    !steps[d as int].exclusive && placed[d as int] && level[d as int] < before
}

/// Every dependency of step `i` sits in a stage before `before`.
fn is_ready(
    steps: &Vec<StepDecl>,
    res: &Vec<Vec<usize>>,
    placed: &Vec<bool>,
    level: &Vec<usize>,
    before: usize,
    i: usize,
) -> (r: bool)
    requires
        resolved(steps@, res@),
        i < steps@.len(),
        placed@.len() == steps@.len(),
        level@.len() == steps@.len(),
    ensures
        r == forall|j: int|
            0 <= j < res@[i as int]@.len() ==> #[trigger] dep_met(
                steps@,
                placed@,
                level@,
                before,
                res@[i as int]@[j],
            ),
{
    let row = &res[i];
    let mut j: usize = 0;
    while j < row.len()
        invariant
            resolved(steps@, res@),
            i < steps@.len(),
            *row == res@[i as int],
            placed@.len() == steps@.len(),
            level@.len() == steps@.len(),
            j <= row@.len(),
            forall|m: int| 0 <= m < j ==> #[trigger] dep_met(steps@, placed@, level@, before, row@[m]),
        decreases row.len() - j,
    {
        assert(row@.len() == steps@[i as int].deps@.len());
        let d = row[j];
        assert(res@[i as int]@[j as int] == d);
        if steps[d].exclusive || !placed[d] || level[d] >= before {
            proof {
                assert(!dep_met(steps@, placed@, level@, before, res@[i as int]@[j as int]));
            }
            return false;
        }
        j = j + 1;
    }
    true
}

/// Whether a shared step already in stage `current` conflicts with step `i`.
fn clashes(steps: &Vec<StepDecl>, placed: &Vec<bool>, level: &Vec<usize>, current: usize, i: usize) -> (r:
    bool)
    requires
        i < steps@.len(),
        placed@.len() == steps@.len(),
        level@.len() == steps@.len(),
    ensures
        r == exists|j: int|
            0 <= j < steps@.len() && j != i && placed@[j] && !steps@[j].exclusive && level@[j]
                == current && conflict(steps@[i as int], #[trigger] steps@[j]),
{
    let mut j: usize = 0;
    while j < steps.len()
        invariant
            i < steps@.len(),
            placed@.len() == steps@.len(),
            level@.len() == steps@.len(),
            j <= steps@.len(),
            forall|m: int|
                0 <= m < j ==> !(m != i && placed@[m] && !steps@[m].exclusive && level@[m] == current
                    && conflict(steps@[i as int], #[trigger] steps@[m])),
        decreases steps.len() - j,
    {
        if j != i && placed[j] && !steps[j].exclusive && level[j] == current && conflicts(
            &steps[i],
            &steps[j],
        ) {
            return true;
        }
        j = j + 1;
    }
    false
}

/// The first unset entry, if any.
fn first_unset(v: &Vec<bool>) -> (r: Option<usize>)
    ensures
        r is Some ==> r->0 < v@.len() && !v@[r->0 as int],
        r is None ==> forall|i: int| 0 <= i < v@.len() ==> v@[i],
{
    let mut i: usize = 0;
    while i < v.len()
        invariant
            i <= v@.len(),
            forall|k: int| 0 <= k < i ==> v@[k],
        decreases v.len() - i,
    {
        if !v[i] {
            return Some(i);
        }
        i = i + 1;
    }
    None
}

/// Where every unplaced shared step waits on an exclusive or an unplaced
/// step, no assignment of stages puts an unplaced step at or below `bound`.
proof fn lemma_stuck_above(
    steps: Seq<StepDecl>,
    res: Seq<Vec<usize>>,
    placed: Seq<bool>,
    level: Seq<usize>,
    bound: nat,
)
    requires
        names_unique(steps),
        resolved(steps, res),
        placed.len() == steps.len(),
        valid_levels(steps, level),
        forall|m: int|
            0 <= m < steps.len() && !placed[m] && !steps[m].exclusive ==> exists|j: int|
                0 <= j < res[m]@.len() && (steps[#[trigger] res[m]@[j] as int].exclusive
                    || !placed[res[m]@[j] as int]),
    ensures
        forall|m: int|
            0 <= m < steps.len() && !placed[m] && !steps[m].exclusive ==> level[m] > bound,
    decreases bound,
{
    if bound > 0 {
        lemma_stuck_above(steps, res, placed, level, (bound - 1) as nat);
    }
    assert forall|m: int|
        0 <= m < steps.len() && !placed[m] && !steps[m].exclusive implies level[m] > bound by {
        let j = choose|j: int|
            0 <= j < res[m]@.len() && (steps[#[trigger] res[m]@[j] as int].exclusive
                || !placed[res[m]@[j] as int]);
        let d = res[m]@[j];
        assert(res[m]@.len() == steps[m].deps@.len());
        assert(d < steps.len());
        lemma_resolved_depends(steps, res, m, d);
        assert(res[m]@.contains(d));
        assert(depends(steps, m, d as int));
    }
}

/// Where some shared step is unplaced and every unplaced one waits on an
/// exclusive or an unplaced step, no assignment of stages exists.
proof fn lemma_stuck_unschedulable(
    steps: Seq<StepDecl>,
    res: Seq<Vec<usize>>,
    placed: Seq<bool>,
    m0: int,
)
    requires
        names_unique(steps),
        resolved(steps, res),
        placed.len() == steps.len(),
        0 <= m0 < steps.len(),
        !placed[m0],
        !steps[m0].exclusive,
        forall|m: int|
            0 <= m < steps.len() && !placed[m] && !steps[m].exclusive ==> exists|j: int|
                0 <= j < res[m]@.len() && (steps[#[trigger] res[m]@[j] as int].exclusive
                    || !placed[res[m]@[j] as int]),
    ensures
        !schedulable(steps),
{
    assert forall|level: Seq<usize>| !valid_levels(steps, level) by {
        if valid_levels(steps, level) {
            lemma_stuck_above(steps, res, placed, level, level[m0] as nat);
        }
    }
}

/// The placed shared steps have their dependencies in earlier stages, and
/// no stage holds two conflicting steps; exclusive steps count as placed.
pub open spec fn placement_sound(
    steps: Seq<StepDecl>,
    res: Seq<Vec<usize>>,
    placed: Seq<bool>,
    level: Seq<usize>,
) -> bool {
    &&& placed.len() == steps.len()
    &&& level.len() == steps.len()
    &&& forall|i: int| 0 <= i < steps.len() && #[trigger] steps[i].exclusive ==> placed[i]
    &&& forall|i: int, j: int|
        0 <= i < steps.len() && placed[i] && !steps[i].exclusive && 0 <= j < res[i]@.len()
            ==> dep_met(steps, placed, level, level[i], #[trigger] res[i]@[j])
    &&& forall|i: int, j: int|
        0 <= i < steps.len() && 0 <= j < steps.len() && i != j && placed[i] && placed[j]
            && !steps[i].exclusive && !steps[j].exclusive && level[i] == level[j] ==> !conflict(
            #[trigger] steps[i],
            #[trigger] steps[j],
        )
}

/// Puts the shared steps into stages, round by round: a round takes every
/// step whose dependencies all sit in earlier stages and that conflicts with
/// no step already taken in that round. Gives the stage of each step and
/// the number of stages, or nothing where no assignment exists.
fn assign_levels(steps: &Vec<StepDecl>, res: &Vec<Vec<usize>>) -> (r: Option<(Vec<usize>, usize)>)
    requires
        names_unique(steps@),
        resolved(steps@, res@),
    ensures
        r is None ==> !schedulable(steps@),
        r is Some ==> {
            let level = r.unwrap().0@;
            let levels = r.unwrap().1;
            &&& level.len() == steps@.len()
            &&& forall|i: int|
                0 <= i < steps@.len() && !steps@[i].exclusive ==> #[trigger] level[i] < levels
            &&& forall|i: int, d: int|
                0 <= i < steps@.len() && 0 <= d < steps@.len() && !steps@[i].exclusive
                    && #[trigger] depends(steps@, i, d) ==> !steps@[d].exclusive && level[d]
                    < level[i]
            &&& forall|i: int, j: int|
                0 <= i < steps@.len() && 0 <= j < steps@.len() && i != j && !steps@[i].exclusive
                    && !steps@[j].exclusive && level[i] == level[j] ==> !conflict(
                    #[trigger] steps@[i],
                    #[trigger] steps@[j],
                )
        },
{
    let n = steps.len();
    let mut placed: Vec<bool> = Vec::new();
    let mut level: Vec<usize> = Vec::new();
    let mut i: usize = 0;
    while i < n
        invariant
            i <= n,
            n == steps@.len(),
            placed@.len() == i,
            level@.len() == i,
            forall|k: int| 0 <= k < i ==> placed@[k] == steps@[k].exclusive,
        decreases n - i,
    {
        placed.push(steps[i].exclusive);
        level.push(0);
        i = i + 1;
    }
    let mut current: usize = 0;
    loop
        invariant
            n == steps@.len(),
            names_unique(steps@),
            resolved(steps@, res@),
            placement_sound(steps@, res@, placed@, level@),
            forall|k: int|
                0 <= k < n && placed@[k] && !steps@[k].exclusive ==> level@[k] < current,
            current <= count_true(placed@),
        ensures
            placement_sound(steps@, res@, placed@, level@),
            forall|k: int| 0 <= k < n ==> placed@[k],
            forall|k: int|
                0 <= k < n && placed@[k] && !steps@[k].exclusive ==> level@[k] < current,
        decreases n - count_true(placed@),
    {
        proof {
            lemma_count_bound(placed@);
        }
        let unset = first_unset(&placed);
        if unset.is_none() {
            break ;
        }
        let u = unset.unwrap();
        let ghost p0 = placed@;
        let ghost l0 = level@;
        let mut progress = false;
        let mut k: usize = 0;
        while k < n
            invariant
                n == steps@.len(),
                names_unique(steps@),
                resolved(steps@, res@),
                k <= n,
                placement_sound(steps@, res@, placed@, level@),
                forall|m: int|
                    0 <= m < n && placed@[m] && !steps@[m].exclusive ==> level@[m] <= current,
                forall|m: int| 0 <= m < n && p0[m] ==> placed@[m] && level@[m] == l0[m],
                forall|m: int| 0 <= m < n && p0[m] && !steps@[m].exclusive ==> l0[m] < current,
                p0.len() == n,
                progress ==> count_true(placed@) >= count_true(p0) + 1,
                !progress ==> placed@ == p0 && level@ == l0,
                !progress ==> forall|m: int|
                    0 <= m < k && !p0[m] && !steps@[m].exclusive ==> exists|j: int|
                        0 <= j < res@[m]@.len() && !dep_met(
                            steps@,
                            p0,
                            l0,
                            current,
                            #[trigger] res@[m]@[j],
                        ),
                current <= count_true(p0),
            decreases n - k,
        {
            if !placed[k] && !steps[k].exclusive {
                let ready = is_ready(steps, res, &placed, &level, current, k);
                if ready && !clashes(steps, &placed, &level, current, k) {
                    let ghost bp = placed@;
                    let ghost bl = level@;
                    placed.set(k, true);
                    level.set(k, current);
                    proof {
                        lemma_count_set(bp, k as int);
                        assert(placed@ == bp.update(k as int, true));
                        let sp = steps@;
                        let rs = res@;
                        assert forall|i: int, j: int|
                            0 <= i < sp.len() && placed@[i] && !sp[i].exclusive && 0 <= j
                                < rs[i]@.len() implies dep_met(
                            sp,
                            placed@,
                            level@,
                            level@[i],
                            #[trigger] rs[i]@[j],
                        ) by {
                            if i == k {
                                assert(dep_met(sp, bp, bl, current, rs[i]@[j]));
                            } else {
                                assert(dep_met(sp, bp, bl, bl[i], rs[i]@[j]));
                            }
                        }
                        assert forall|i: int, j: int|
                            0 <= i < sp.len() && 0 <= j < sp.len() && i != j && placed@[i]
                                && placed@[j] && !sp[i].exclusive && !sp[j].exclusive && level@[i]
                                == level@[j] implies !conflict(
                            #[trigger] sp[i],
                            #[trigger] sp[j],
                        ) by {
                            if i == k {
                                assert(!conflict(sp[k as int], sp[j]));
                            } else if j == k {
                                assert(!conflict(sp[k as int], sp[i]));
                                lemma_conflict_symmetric(sp[k as int], sp[i]);
                            }
                        }
                    }
                    progress = true;
                } else {
                    proof {
                        if !progress && !ready {
                            let j = choose|j: int|
                                0 <= j < res@[k as int]@.len() && !#[trigger] dep_met(
                                    steps@,
                                    placed@,
                                    level@,
                                    current,
                                    res@[k as int]@[j],
                                );
                        }
                        if !progress && ready {
                            let j = choose|j: int|
                                0 <= j < steps@.len() && j != k && placed@[j]
                                    && !steps@[j].exclusive && level@[j] == current && conflict(
                                    steps@[k as int],
                                    #[trigger] steps@[j],
                                );
                            assert(l0[j] < current);
                        }
                    }
                }
            }
            k = k + 1;
        }
        if !progress {
            proof {
                let sp = steps@;
                let rs = res@;
                assert forall|m: int|
                    0 <= m < sp.len() && !placed@[m] && !sp[m].exclusive implies exists|j: int|
                    0 <= j < rs[m]@.len() && (sp[#[trigger] rs[m]@[j] as int].exclusive
                        || !placed@[rs[m]@[j] as int]) by {
                    let j = choose|j: int|
                        0 <= j < rs[m]@.len() && !dep_met(sp, p0, l0, current, #[trigger] rs[m]@[j]);
                    let d = rs[m]@[j];
                    assert(rs[m]@.len() == sp[m].deps@.len());
                    assert(d < sp.len());
                    if placed@[d as int] && !sp[d as int].exclusive {
                        assert(l0[d as int] < current);
                    }
                }
                lemma_stuck_unschedulable(steps@, res@, placed@, u as int);
            }
            return None;
        }
        proof {
            lemma_count_bound(placed@);
        }
        current = current + 1;
    }
    proof {
        let sp = steps@;
        assert forall|i: int, d: int|
            0 <= i < sp.len() && 0 <= d < sp.len() && !sp[i].exclusive && #[trigger] depends(
                sp,
                i,
                d,
            ) implies !sp[d].exclusive && level@[d] < level@[i] by {
            lemma_resolved_depends(sp, res@, i, d as usize);
            let j = choose|j: int| 0 <= j < res@[i]@.len() && res@[i]@[j] == d as usize;
            assert(dep_met(sp, placed@, level@, level@[i], res@[i]@[j]));
        }
    }
    Some((level, current))
}

/// Each exclusive step depends only on shared steps and on exclusive steps
/// declared before it.
pub open spec fn exclusive_order(steps: Seq<StepDecl>) -> bool {
    forall|i: int, d: int|
        0 <= i < steps.len() && 0 <= d < steps.len() && steps[i].exclusive && #[trigger] depends(
            steps,
            i,
            d,
        ) ==> !steps[d].exclusive || d < i
}

/// Whether the exclusive steps' dependencies respect their declared order.
fn check_exclusive_order(steps: &Vec<StepDecl>, res: &Vec<Vec<usize>>) -> (r: bool)
    requires
        names_unique(steps@),
        resolved(steps@, res@),
    ensures
        r == exclusive_order(steps@),
{
    let mut i: usize = 0;
    while i < steps.len()
        invariant
            i <= steps@.len(),
            names_unique(steps@),
            resolved(steps@, res@),
            forall|a: int, j: int|
                0 <= a < i && steps@[a].exclusive && 0 <= j < res@[a]@.len() ==> !steps@[#[trigger] res@[a]@[j] as int].exclusive
                    || res@[a]@[j] < a,
        decreases steps.len() - i,
    {
        if steps[i].exclusive {
            let row = &res[i];
            let mut j: usize = 0;
            while j < row.len()
                invariant
                    i < steps@.len(),
                    names_unique(steps@),
                    resolved(steps@, res@),
                    steps@[i as int].exclusive,
                    *row == res@[i as int],
                    j <= row@.len(),
                    forall|a: int, m: int|
                        0 <= a < i && steps@[a].exclusive && 0 <= m < res@[a]@.len() ==> !steps@[#[trigger] res@[a]@[m] as int].exclusive
                            || res@[a]@[m] < a,
                    forall|m: int|
                        0 <= m < j ==> !steps@[#[trigger] row@[m] as int].exclusive || row@[m] < i,
                decreases row.len() - j,
            {
                assert(row@.len() == steps@[i as int].deps@.len());
                let d = row[j];
                assert(res@[i as int]@[j as int] == d);
                if steps[d].exclusive && d >= i {
                    proof {
                        lemma_resolved_depends(steps@, res@, i as int, d);
                        assert(res@[i as int]@.contains(d));
                        assert(depends(steps@, i as int, d as int));
                    }
                    return false;
                }
                j = j + 1;
            }
        }
        i = i + 1;
    }
    proof {
        assert forall|a: int, d: int|
            0 <= a < steps@.len() && 0 <= d < steps@.len() && steps@[a].exclusive && #[trigger] depends(
                steps@,
                a,
                d,
            ) implies !steps@[d].exclusive || d < a by {
            lemma_resolved_depends(steps@, res@, a, d as usize);
            let j = choose|j: int| 0 <= j < res@[a]@.len() && res@[a]@[j] == d as usize;
            assert(!steps@[res@[a]@[j] as int].exclusive || res@[a]@[j] < a);
        }
    }
    true
}

/// The exclusive steps in declared order.
fn exclusive_steps(steps: &Vec<StepDecl>) -> (r: Vec<usize>)
    ensures
        lists_exclusive(steps@, r@),
{
    let mut r: Vec<usize> = Vec::new();
    let mut i: usize = 0;
    while i < steps.len()
        invariant
            i <= steps@.len(),
            forall|a: int, b: int| 0 <= a < b < r@.len() ==> r@[a] < r@[b],
            forall|k: int| 0 <= k < r@.len() ==> #[trigger] r@[k] < i && steps@[r@[k] as int].exclusive,
            forall|a: int| 0 <= a < i && #[trigger] steps@[a].exclusive ==> r@.contains(a as usize),
        decreases steps.len() - i,
    {
        if steps[i].exclusive {
            let ghost before = r@;
            r.push(i);
            proof {
                assert(r@[r@.len() - 1] == i);
                assert forall|a: int| 0 <= a < i + 1 && #[trigger] steps@[a].exclusive implies r@.contains(
                    a as usize,
                ) by {
                    if a < i {
                        assert(before.contains(a as usize));
                        let w = choose|w: int| 0 <= w < before.len() && before[w] == a as usize;
                        assert(r@[w] == a as usize);
                    }
                }
            }
        }
        i = i + 1;
    }
    r
}

/// Two different steps are called `name`.
pub open spec fn shared_name(steps: Seq<StepDecl>, name: Seq<char>) -> bool {
    exists|i: int, j: int|
        0 <= i < steps.len() && 0 <= j < steps.len() && i != j && #[trigger] steps[i].name@ == name
            && #[trigger] steps[j].name@ == name
}

/// Some step depends on `name`.
pub open spec fn named_as_dep(steps: Seq<StepDecl>, name: Seq<char>) -> bool {
    exists|i: int, j: int|
        0 <= i < steps.len() && 0 <= j < steps[i].deps@.len() && #[trigger] steps[i].deps@[j]@ == name
}

impl Schedule {
    /// Orders `steps`. Fails with the first name that two steps share, else
    /// with a dependency that names no step, else with `Cycle` exactly when
    /// no schedule fits.
    pub fn build(steps: &Vec<StepDecl>) -> (r: Result<Schedule, ScheduleError>)
        ensures
            match r {
                Ok(s) => names_unique(steps@) && deps_known(steps@) && s.fits(steps@),
                Err(ScheduleError::DuplicateStep(n)) => !names_unique(steps@) && shared_name(
                    steps@,
                    n@,
                ),
                Err(ScheduleError::UnknownStep(n)) => names_unique(steps@) && !declared(steps@, n@)
                    && named_as_dep(steps@, n@),
                Err(ScheduleError::Cycle) => names_unique(steps@) && deps_known(steps@)
                    && !schedulable(steps@),
            },
    {
        match find_duplicate(steps) {
            Some(j) => {
                let name = steps[j].name.clone();
                proof {
                    let i = choose|i: int|
                        0 <= i < steps@.len() && i != j && #[trigger] steps@[i].name@
                            == steps@[j as int].name@;
                    assert(steps@[i].name@ == name@ && steps@[j as int].name@ == name@);
                }
                return Err(ScheduleError::DuplicateStep(name));
            },
            None => {},
        }
        let res = match resolve(steps) {
            Ok(res) => res,
            Err(name) => {
                return Err(ScheduleError::UnknownStep(name));
            },
        };
        let assigned = assign_levels(steps, &res);
        match assigned {
            None => Err(ScheduleError::Cycle),
            Some((level, levels)) => {
                if !check_exclusive_order(steps, &res) {
                    return Err(ScheduleError::Cycle);
                }
                let exclusive = exclusive_steps(steps);
                Ok(Schedule { level, levels, exclusive })
            },
        }
    }
}

impl Schedule {
    /// The order in which one dispatch runs the steps: stage by stage, each
    /// stage in declared order, then the exclusive steps. Every step comes
    /// exactly once, and none comes before a step it depends on.
    pub fn run_order(&self, steps: &Vec<StepDecl>) -> (r: Vec<usize>)
        requires
            self.fits(steps@),
        ensures
            r@.no_duplicates(),
            forall|k: int| 0 <= k < r@.len() ==> #[trigger] r@[k] < steps@.len(),
            forall|i: int| 0 <= i < steps@.len() ==> #[trigger] r@.contains(i as usize),
            forall|p: int, q: int|
                0 <= p < q < r@.len() ==> !depends(steps@, #[trigger] r@[p] as int, #[trigger] r@[q] as int),
    {
        let n = steps.len();
        let ghost sp = steps@;
        let ghost lv = self.level@;
        let mut r: Vec<usize> = Vec::new();
        let mut stage: usize = 0;
        while stage < self.levels
            invariant
                self.fits(sp),
                sp == steps@,
                lv == self.level@,
                n == sp.len(),
                stage <= self.levels,
                forall|k: int|
                    0 <= k < r@.len() ==> #[trigger] r@[k] < n && !sp[r@[k] as int].exclusive
                        && lv[r@[k] as int] < stage,
                forall|i: int|
                    0 <= i < n && !sp[i].exclusive && lv[i] < stage ==> #[trigger] r@.contains(
                        i as usize,
                    ),
                r@.no_duplicates(),
                forall|p: int, q: int|
                    0 <= p < q < r@.len() ==> lv[#[trigger] r@[p] as int] <= lv[#[trigger] r@[q] as int],
            decreases self.levels - stage,
        {
            let mut i: usize = 0;
            while i < n
                invariant
                    self.fits(sp),
                    sp == steps@,
                    lv == self.level@,
                    n == sp.len(),
                    stage < self.levels,
                    i <= n,
                    forall|k: int|
                        0 <= k < r@.len() ==> #[trigger] r@[k] < n && !sp[r@[k] as int].exclusive
                            && (lv[r@[k] as int] < stage || (lv[r@[k] as int] == stage && r@[k] < i)),
                    forall|j: int|
                        0 <= j < n && !sp[j].exclusive && (lv[j] < stage || (lv[j] == stage && j < i))
                            ==> #[trigger] r@.contains(j as usize),
                    r@.no_duplicates(),
                    forall|p: int, q: int|
                        0 <= p < q < r@.len() ==> lv[#[trigger] r@[p] as int] <= lv[#[trigger] r@[q] as int],
                    forall|k: int| 0 <= k < r@.len() ==> lv[#[trigger] r@[k] as int] <= stage,
                decreases n - i,
            {
                if !steps[i].exclusive && self.level[i] == stage {
                    let ghost before = r@;
                    r.push(i);
                    proof {
                        assert forall|a: int, b: int| 0 <= a < b < r@.len() implies r@[a] != r@[b] by {
                            if b == r@.len() - 1 {
                                assert(before[a] < i || lv[before[a] as int] < stage);
                            }
                        }
                        assert forall|j: int|
                            0 <= j < n && !sp[j].exclusive && (lv[j] < stage || (lv[j] == stage && j
                                < i + 1)) implies #[trigger] r@.contains(j as usize) by {
                            if j == i {
                                assert(r@[r@.len() - 1] == i);
                            } else {
                                assert(before.contains(j as usize));
                                let w = choose|w: int| 0 <= w < before.len() && before[w] == j as usize;
                                assert(r@[w] == j as usize);
                            }
                        }
                    }
                }
                i = i + 1;
            }
            stage = stage + 1;
        }
        let ghost m = r@.len();
        proof {
            assert(r@.subrange(0, m as int) =~= r@);
            assert forall|i: int| 0 <= i < n && !sp[i].exclusive implies #[trigger] r@.subrange(
                0,
                m as int,
            ).contains(i as usize) by {
                assert(lv[i] < self.levels);
                assert(r@.contains(i as usize));
            }
        }
        let mut k: usize = 0;
        while k < self.exclusive.len()
            invariant
                self.fits(sp),
                sp == steps@,
                lv == self.level@,
                n == sp.len(),
                k <= self.exclusive@.len(),
                r@.len() == m + k,
                forall|p: int|
                    0 <= p < m ==> #[trigger] r@[p] < n && !sp[r@[p] as int].exclusive,
                forall|p: int| m <= p < r@.len() ==> #[trigger] r@[p] == self.exclusive@[p - m],
                forall|i: int|
                    0 <= i < n && !sp[i].exclusive ==> #[trigger] r@.subrange(0, m as int).contains(
                        i as usize,
                    ),
                r@.subrange(0, m as int).no_duplicates(),
                forall|p: int, q: int|
                    0 <= p < q < m ==> lv[#[trigger] r@[p] as int] <= lv[#[trigger] r@[q] as int],
            decreases self.exclusive.len() - k,
        {
            let ghost before = r@;
            r.push(self.exclusive[k]);
            proof {
                assert(r@.subrange(0, m as int) =~= before.subrange(0, m as int));
            }
            k = k + 1;
        }
        proof {
            let ex = self.exclusive@;
            assert(r@.len() == m + ex.len());
            assert forall|p: int| 0 <= p < r@.len() implies #[trigger] r@[p] < n && (sp[r@[p] as int].exclusive
                <==> p >= m) by {
                if p >= m {
                    assert(ex[p - m] < n);
                }
            }
            assert forall|a: int, b: int| 0 <= a < b < r@.len() implies r@[a] != r@[b] by {
                if b < m {
                    assert(r@.subrange(0, m as int)[a] == r@[a]);
                    assert(r@.subrange(0, m as int)[b] == r@[b]);
                } else if a >= m {
                    assert(ex[a - m] < ex[b - m]);
                } else {
                    assert(!sp[r@[a] as int].exclusive);
                    assert(sp[r@[b] as int].exclusive);
                }
            }
            assert forall|i: int| 0 <= i < n implies #[trigger] r@.contains(i as usize) by {
                if sp[i].exclusive {
                    let w = choose|w: int| 0 <= w < ex.len() && ex[w] == i as usize;
                    assert(r@[m + w] == i as usize);
                } else {
                    assert(r@.subrange(0, m as int).contains(i as usize));
                    let w = choose|w: int| 0 <= w < m && r@.subrange(0, m as int)[w] == i as usize;
                    assert(r@[w] == i as usize);
                }
            }
            assert forall|p: int, q: int|
                0 <= p < q < r@.len() implies !depends(sp, #[trigger] r@[p] as int, #[trigger] r@[q] as int) by {
                let a = r@[p] as int;
                let b = r@[q] as int;
                if depends(sp, a, b) {
                    if p < m {
                        assert(!sp[b].exclusive && lv[b] < lv[a]);
                    } else {
                        assert(ex[p - m] < ex[q - m]);
                    }
                }
            }
        }
        r
    }
}

} // verus!
