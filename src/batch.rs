//! Batches of steps chosen per tick. One step of the top-level order, the
//! batch step, stands for a set of pre-built groups of steps; on each tick a
//! controller picks one group, and the order of that tick runs exactly that
//! group's steps where the batch step stands.

use vstd::prelude::*;

verus! {

/// One entry of a tick's order.
#[derive(Clone, Copy, Debug, PartialEq, Eq, Structural)]
pub enum TickStep {
    /// A top-level step, by index.
    Top(usize),
    /// A step of a group: the group's index, then the step's index in it.
    Grouped(usize, usize),
}

/// The entries that one top-level step turns into.
pub open spec fn expand_one(t: usize, slot: usize, chosen: Seq<usize>, choice: usize) -> Seq<
    TickStep,
> {
    if t == slot {
        chosen.map_values(|s: usize| TickStep::Grouped(choice, s))
    } else {
        seq![TickStep::Top(t)]
    }
}

/// A tick's order: `top` with the batch step replaced by the chosen group's order.
pub open spec fn expand(top: Seq<usize>, slot: usize, chosen: Seq<usize>, choice: usize) -> Seq<
    TickStep,
>
    decreases top.len(),
{
    if top.len() == 0 {
        Seq::empty()
    } else {
        expand(top.drop_last(), slot, chosen, choice) + expand_one(top.last(), slot, chosen, choice)
    }
}

/// The order of one tick: the top-level order, with the batch step `slot`
/// replaced by the order of group `choice`.
pub fn tick_order(top: &Vec<usize>, slot: usize, groups: &Vec<Vec<usize>>, choice: usize) -> (r: Vec<
    TickStep,
>)
    requires
        choice < groups@.len(),
    ensures
        r@ == expand(top@, slot, groups@[choice as int]@, choice),
{
    let chosen = &groups[choice];
    let mut r: Vec<TickStep> = Vec::new();
    let mut k: usize = 0;
    while k < top.len()
        invariant
            k <= top@.len(),
            *chosen == groups@[choice as int],
            r@ == expand(top@.subrange(0, k as int), slot, chosen@, choice),
        decreases top.len() - k,
    {
        let t = top[k];
        let ghost before = r@;
        if t == slot {
            let mut j: usize = 0;
            while j < chosen.len()
                invariant
                    j <= chosen@.len(),
                    r@ == before + chosen@.subrange(0, j as int).map_values(
                        |s: usize| TickStep::Grouped(choice, s),
                    ),
                decreases chosen.len() - j,
            {
                r.push(TickStep::Grouped(choice, chosen[j]));
                proof {
                    assert(chosen@.subrange(0, j + 1).map_values(
                        |s: usize| TickStep::Grouped(choice, s),
                    ) =~= chosen@.subrange(0, j as int).map_values(
                        |s: usize| TickStep::Grouped(choice, s),
                    ).push(TickStep::Grouped(choice, chosen@[j as int])));
                    assert(r@ =~= before + chosen@.subrange(0, j + 1).map_values(
                        |s: usize| TickStep::Grouped(choice, s),
                    ));
                }
                j = j + 1;
            }
            proof {
                assert(chosen@.subrange(0, chosen@.len() as int) =~= chosen@);
            }
        } else {
            r.push(TickStep::Top(t));
            proof {
                assert(r@ =~= before + seq![TickStep::Top(t)]);
            }
        }
        proof {
            assert(top@.subrange(0, k + 1).drop_last() =~= top@.subrange(0, k as int));
            assert(top@.subrange(0, k + 1).last() == t);
        }
        k = k + 1;
    }
    proof {
        assert(top@.subrange(0, top@.len() as int) =~= top@);
    }
    r
}

/// A tick runs steps of the chosen group only: every grouped entry of its
/// order belongs to the group that the controller picked.
pub proof fn lemma_only_chosen_group_runs(
    top: Seq<usize>,
    slot: usize,
    chosen: Seq<usize>,
    choice: usize,
)
    ensures
        forall|k: int|
            0 <= k < expand(top, slot, chosen, choice).len() ==> match #[trigger] expand(
                top,
                slot,
                chosen,
                choice,
            )[k] {
                TickStep::Grouped(g, s) => g == choice && chosen.contains(s),
                TickStep::Top(t) => t != slot && top.contains(t),
            },
    decreases top.len(),
{
    if top.len() > 0 {
        let rest = top.drop_last();
        lemma_only_chosen_group_runs(rest, slot, chosen, choice);
        let e = expand(top, slot, chosen, choice);
        let a = expand(rest, slot, chosen, choice);
        let b = expand_one(top.last(), slot, chosen, choice);
        assert(e == a + b);
        assert forall|k: int| 0 <= k < e.len() implies match #[trigger] e[k] {
            TickStep::Grouped(g, s) => g == choice && chosen.contains(s),
            TickStep::Top(t) => t != slot && top.contains(t),
        } by {
            if k < a.len() {
                assert(e[k] == a[k]);
                match a[k] {
                    TickStep::Top(t) => {
                        let w = choose|w: int| 0 <= w < rest.len() && rest[w] == t;
                        assert(top[w] == t);
                    },
                    TickStep::Grouped(g, s) => {},
                }
            } else {
                assert(e[k] == b[k - a.len()]);
                if top.last() == slot {
                    assert(b[k - a.len()] == TickStep::Grouped(choice, chosen[k - a.len()]));
                } else {
                    assert(top[top.len() - 1] == top.last());
                }
            }
        }
    }
}

/// Where the chosen group is empty, a tick runs only top-level steps, and
/// the batch step itself does nothing.
pub proof fn lemma_empty_group_runs_nothing(
    top: Seq<usize>,
    slot: usize,
    chosen: Seq<usize>,
    choice: usize,
)
    requires
        chosen.len() == 0,
    ensures
        forall|k: int|
            0 <= k < expand(top, slot, chosen, choice).len() ==> #[trigger] expand(
                top,
                slot,
                chosen,
                choice,
            )[k] is Top,
{
    lemma_only_chosen_group_runs(top, slot, chosen, choice);
}

} // verus!
