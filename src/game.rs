//! The discrete rules of the game: its state machine, the pressed keys, the
//! choice of the physics group that runs on a tick, which thrusters fire,
//! which ship the view follows, and when the game is won.

use vstd::prelude::*;
use crate::entity::Entity;
use crate::batch::{expand, lemma_empty_group_runs_nothing};
use crate::hierarchy::{children_of, Hierarchy, Parent};
use crate::storage::Storage;

verus! {

/// A control key. Keys that the game gives no role carry the windowing
/// layer's code for them.
#[derive(Clone, Copy, Debug, PartialEq, Eq, Structural)]
pub enum Key {
    Space,
    Escape,
    Home,
    Left,
    Right,
    Up,
    Down,
    Other(u32),
}

/// The keys held down right now, each once.
pub struct Keys {
    pressed: Vec<Key>,
}

impl View for Keys {
    type V = Set<Key>;

    closed spec fn view(&self) -> Set<Key> {
        self.pressed@.to_set()
    }
}

impl Keys {
    /// No key is listed twice.
    pub closed spec fn wf(&self) -> bool {
        self.pressed@.no_duplicates()
    }

    /// No key held.
    pub fn new() -> (r: Keys)
        ensures
            r.wf(),
            r@ == Set::<Key>::empty(),
    {
        let r = Keys { pressed: Vec::new() };
        assert(r@ =~= Set::<Key>::empty());
        r
    }

    /// Where `key` sits in the list, if it is held.
    fn position(&self, key: Key) -> (r: Option<usize>)
        ensures
            r is Some ==> r->0 < self.pressed@.len() && self.pressed@[r->0 as int] == key,
            r is None ==> !self.pressed@.contains(key),
    {
        let mut k: usize = 0;
        while k < self.pressed.len()
            invariant
                k <= self.pressed@.len(),
                forall|j: int| 0 <= j < k ==> self.pressed@[j] != key,
            decreases self.pressed.len() - k,
        {
            if self.pressed[k] == key {
                return Some(k);
            }
            k = k + 1;
        }
        None
    }

    /// Whether `key` is held.
    pub fn is_pressed(&self, key: Key) -> (r: bool)
        ensures
            r == self@.contains(key),
    {
        self.position(key).is_some()
    }

    /// Records that `key` went down.
    pub fn press(&mut self, key: Key)
        requires
            old(self).wf(),
        ensures
            final(self).wf(),
            final(self)@ == old(self)@.insert(key),
    {
        let at = self.position(key);
        if at.is_some() {
            proof {
                assert(self.pressed@[at->0 as int] == key);
                assert(self.pressed@.contains(key));
            }
        }
        if at.is_none() {
            self.pressed.push(key);
            proof {
                old(self).pressed@.lemma_push_to_set_commute(key);
            }
            proof {
                assert forall|a: int, b: int|
                    0 <= a < b < self.pressed@.len() implies self.pressed@[a] != self.pressed@[b] by {
                    if b == self.pressed@.len() - 1 {
                        assert(old(self).pressed@.contains(self.pressed@[a]));
                    }
                }
            }
        }
        proof {
            assert(self@ =~= old(self)@.insert(key));
        }
    }

    /// Records that `key` went up.
    pub fn release(&mut self, key: Key)
        requires
            old(self).wf(),
        ensures
            final(self).wf(),
            final(self)@ == old(self)@.remove(key),
    {
        match self.position(key) {
            Some(k) => {
                self.pressed.remove(k);
                proof {
                    let o = old(self).pressed@;
                    assert(self.pressed@ =~= o.subrange(0, k as int) + o.subrange(
                        k + 1,
                        o.len() as int,
                    ));
                    assert forall|a: int, b: int|
                        0 <= a < b < self.pressed@.len() implies self.pressed@[a]
                        != self.pressed@[b] by {
                        let a2 = if a < k { a } else { a + 1 };
                        let b2 = if b < k { b } else { b + 1 };
                        assert(self.pressed@[a] == o[a2]);
                        assert(self.pressed@[b] == o[b2]);
                    }
                    assert forall|x: Key| #[trigger] self@.contains(x) == old(self)@.remove(
                        key,
                    ).contains(x) by {
                        if self.pressed@.contains(x) {
                            let w = choose|w: int|
                                0 <= w < self.pressed@.len() && self.pressed@[w] == x;
                            let w2 = if w < k { w } else { w + 1 };
                            assert(o[w2] == x);
                            assert(w2 != k);
                        }
                        if old(self)@.remove(key).contains(x) {
                            let w = choose|w: int| 0 <= w < o.len() && o[w] == x;
                            assert(w != k);
                            if w < k {
                                assert(self.pressed@[w] == x);
                            } else {
                                assert(self.pressed@[w - 1] == x);
                            }
                        }
                    }
                    assert(self@ =~= old(self)@.remove(key));
                }
            },
            None => {
                proof {
                    assert(self@ =~= old(self)@.remove(key));
                }
            },
        }
    }
}

/// Where a session stands. `Won` is terminal.
#[derive(Clone, Copy, Debug, PartialEq, Eq, Structural)]
pub enum GameState {
    Started,
    Running,
    Paused,
    Won,
}

/// The state that the pause key leads to.
pub open spec fn toggled(s: GameState) -> GameState {
    match s {
        GameState::Started | GameState::Paused => GameState::Running,
        GameState::Running => GameState::Paused,
        GameState::Won => GameState::Won,
    }
}

impl GameState {
    /// Switches between running and paused; a won game stays won.
    pub fn toggle(&mut self)
        ensures
            *final(self) == toggled(*old(self)),
    {
        *self = match *self {
            GameState::Started | GameState::Paused => GameState::Running,
            GameState::Running => GameState::Paused,
            GameState::Won => GameState::Won,
        };
    }
}

/// Index of the step group that does nothing.
pub const IDLE_GROUP: usize = 0;

/// Index of the step group that runs the physics.
pub const PHYSICS_GROUP: usize = 1;

/// The group that runs in a state.
pub open spec fn physics_group_for(state: GameState) -> usize {
    if state == GameState::Running {
        PHYSICS_GROUP
    } else {
        IDLE_GROUP
    }
}

/// The group that the batch step runs on a tick: physics only while running.
pub fn physics_group(state: GameState) -> (r: usize)
    ensures
        r == physics_group_for(state),
{
    if state == GameState::Running {
        PHYSICS_GROUP
    } else {
        IDLE_GROUP
    }
}

/// What a key event leaves behind: `true` when the session is to end.
pub open spec fn quits(key: Key, is_down: bool) -> bool {
    key == Key::Escape && is_down
}

/// The held keys after a key event. The pause key is never held, and the key
/// that ends the session is not recorded when it goes down.
pub open spec fn keys_after(keys: Set<Key>, key: Key, is_down: bool) -> Set<Key> {
    if key == Key::Space || quits(key, is_down) {
        keys
    } else if is_down {
        keys.insert(key)
    } else {
        keys.remove(key)
    }
}

/// The state after a key event: releasing the pause key toggles it.
pub open spec fn state_after(state: GameState, key: Key, is_down: bool) -> GameState {
    if key == Key::Space && !is_down {
        toggled(state)
    } else {
        state
    }
}

/// Applies one key event. Returns whether the session is to end.
pub fn handle_key(keys: &mut Keys, state: &mut GameState, key: Key, is_down: bool) -> (quit: bool)
    requires
        old(keys).wf(),
    ensures
        final(keys).wf(),
        quit == quits(key, is_down),
        final(keys)@ == keys_after(old(keys)@, key, is_down),
        *final(state) == state_after(*old(state), key, is_down),
{
    if key == Key::Space {
        if !is_down {
            state.toggle();
        }
        false
    } else if key == Key::Escape && is_down {
        true
    } else if is_down {
        keys.press(key);
        false
    } else {
        keys.release(key);
        false
    }
}

/// The words shown over the scene in a state; none while running.
pub open spec fn status_text_of(state: GameState) -> Option<Seq<char>> {
    match state {
        GameState::Started => Some(
            "Get the ship into the landing area (red & blue circle)\nUse arrows to control the thrusters\nHome key to center view onto the ship\nSpacebar to pause & unpause\n"@,
        ),
        GameState::Paused => Some("Paused"@),
        GameState::Won => Some("Congratulations, you've won!"@),
        GameState::Running => None,
    }
}

/// The words to show over the scene, if any.
pub fn status_text(state: GameState) -> (r: Option<&'static str>)
    ensures
        match r {
            Some(t) => status_text_of(state) == Some(t@),
            None => status_text_of(state) is None,
        },
{
    match state {
        GameState::Started => Some(
            "Get the ship into the landing area (red & blue circle)\nUse arrows to control the thrusters\nHome key to center view onto the ship\nSpacebar to pause & unpause\n",
        ),
        GameState::Paused => Some("Paused"),
        GameState::Won => Some("Congratulations, you've won!"),
        GameState::Running => None,
    }
}

/// Marks a player-controlled craft and the key that centres the view on it.
#[derive(Clone, Copy, Debug, PartialEq, Eq, Structural)]
pub struct Ship {
    pub homing_key: Key,
}

/// The part of a thruster that the rules read: the ship it is mounted on
/// and the key that fires it.
#[derive(Clone, Copy, Debug, PartialEq, Eq, Structural)]
pub struct ThrusterLink {
    pub ship: Entity,
    pub key: Key,
}

impl Parent for ThrusterLink {
    open spec fn parent_of(&self) -> Entity {
        self.ship
    }

    fn parent_entity(&self) -> (r: Entity) {
        self.ship
    }
}

/// The thrusters of `ship` whose key is held.
pub open spec fn firing_of(
    rel: Map<Entity, Entity>,
    links: Map<Entity, ThrusterLink>,
    keys: Set<Key>,
    ship: Entity,
) -> Set<Entity> {
    children_of(rel, ship).filter(|t: Entity| keys.contains(links[t].key))
}

/// The thrusters of `ship` that fire this tick, each once. Every child that
/// the index lists must still have its link.
pub fn firing_thrusters(
    hierarchy: &Hierarchy,
    links: &Storage<ThrusterLink>,
    keys: &Keys,
    ship: Entity,
) -> (r: Vec<Entity>)
    requires
        hierarchy.wf(),
        forall|t: Entity| #[trigger]
            children_of(hierarchy@, ship).contains(t) ==> links@.contains_key(t),
    ensures
        r@.to_set() == firing_of(hierarchy@, links@, keys@, ship),
        r@.no_duplicates(),
{
    let children = hierarchy.children(ship);
    let mut r: Vec<Entity> = Vec::new();
    let mut k: usize = 0;
    while k < children.len()
        invariant
            k <= children@.len(),
            children@.to_set() == children_of(hierarchy@, ship),
            children@.no_duplicates(),
            forall|t: Entity| #[trigger]
                children_of(hierarchy@, ship).contains(t) ==> links@.contains_key(t),
            r@.to_set() == children@.subrange(0, k as int).to_set().filter(
                |t: Entity| keys@.contains(links@[t].key),
            ),
            r@.no_duplicates(),
        decreases children.len() - k,
    {
        let t = children[k];
        let ghost before = r@;
        proof {
            assert(children@.to_set().contains(t));
            assert(children@.subrange(0, k + 1) =~= children@.subrange(0, k as int).push(t));
            children@.subrange(0, k as int).lemma_push_to_set_commute(t);
        }
        let link = links.get(t).unwrap();
        if keys.is_pressed(link.key) {
            r.push(t);
            proof {
                before.lemma_push_to_set_commute(t);
                assert forall|a: int, b: int| 0 <= a < b < r@.len() implies r@[a] != r@[b] by {
                    if b == r@.len() - 1 {
                        assert(before.to_set().contains(before[a]));
                        let w = choose|w: int| 0 <= w < k && children@[w] == before[a];
                        assert(children@[w] != children@[k as int]);
                    }
                }
            }
        }
        k = k + 1;
        proof {
            assert(r@.to_set() =~= children@.subrange(0, k as int).to_set().filter(
                |t: Entity| keys@.contains(links@[t].key),
            ));
        }
    }
    proof {
        assert(children@.subrange(0, children@.len() as int) =~= children@);
        assert(r@.to_set() =~= firing_of(hierarchy@, links@, keys@, ship));
    }
    r
}

/// Whether entry `i` of `candidates` is a ship whose homing key is held.
pub open spec fn homes(
    candidates: Seq<Entity>,
    ships: Map<Entity, Ship>,
    keys: Set<Key>,
    i: int,
) -> bool {
    keys.contains(ships[candidates[i]].homing_key)
}

/// The ship that the view follows: the last of `candidates` (ships that have
/// a position) whose homing key is held, if any.
pub fn homing_target(candidates: &Vec<Entity>, ships: &Storage<Ship>, keys: &Keys) -> (r: Option<
    usize,
>)
    requires
        forall|i: int| 0 <= i < candidates@.len() ==> ships@.contains_key(#[trigger] candidates@[i]),
    ensures
        match r {
            Some(i) => i < candidates@.len() && homes(candidates@, ships@, keys@, i as int)
                && forall|j: int|
                i < j < candidates@.len() ==> !#[trigger] homes(candidates@, ships@, keys@, j),
            None => forall|j: int|
                0 <= j < candidates@.len() ==> !#[trigger] homes(candidates@, ships@, keys@, j),
        },
{
    let mut k: usize = candidates.len();
    while k > 0
        invariant
            k <= candidates@.len(),
            forall|i: int| 0 <= i < candidates@.len() ==> ships@.contains_key(#[trigger] candidates@[i]),
            forall|j: int| k <= j < candidates@.len() ==> !#[trigger] homes(candidates@, ships@, keys@, j),
        decreases k,
    {
        k = k - 1;
        let ship = ships.get(candidates[k]).unwrap();
        if keys.is_pressed(ship.homing_key) {
            return Some(k);
        }
    }
    None
}

/// Whether every ship lies within reach of some landing: `near[s][l]` says
/// whether ship `s` is within the capture radius of landing `l`.
pub open spec fn all_landed(near: Seq<Seq<bool>>) -> bool {
    forall|s: int| 0 <= s < near.len() ==> #[trigger] row_landed(near[s])
}

/// Whether one ship is within reach of some landing.
pub open spec fn row_landed(row: Seq<bool>) -> bool {
    exists|l: int| 0 <= l < row.len() && #[trigger] row[l]
}

/// Whether row `s` has a `true` entry.
fn any_true(row: &Vec<bool>) -> (r: bool)
    ensures
        r == row_landed(row@),
{
    let mut l: usize = 0;
    while l < row.len()
        invariant
            l <= row@.len(),
            forall|j: int| 0 <= j < l ==> !row@[j],
        decreases row.len() - l,
    {
        if row[l] {
            return true;
        }
        l = l + 1;
    }
    false
}

/// Whether every ship has arrived at some landing.
pub fn all_ships_landed(near: &Vec<Vec<bool>>) -> (r: bool)
    ensures
        r == all_landed(near.deep_view()),
{
    let mut s: usize = 0;
    while s < near.len()
        invariant
            s <= near@.len(),
            forall|i: int| 0 <= i < s ==> #[trigger] row_landed(near.deep_view()[i]),
        decreases near.len() - s,
    {
        if !any_true(&near[s]) {
            proof {
                assert(near.deep_view()[s as int] == near@[s as int]@);
            }
            return false;
        }
        proof {
            assert(near.deep_view()[s as int] == near@[s as int]@);
        }
        s = s + 1;
    }
    true
}

/// The state after the win check: won once every ship has arrived,
/// otherwise unchanged.
pub open spec fn state_after_landing(state: GameState, near: Seq<Seq<bool>>) -> GameState {
    if all_landed(near) {
        GameState::Won
    } else {
        state
    }
}

/// Runs the win check.
pub fn detect_victory(state: GameState, near: &Vec<Vec<bool>>) -> (r: GameState)
    ensures
        r == state_after_landing(state, near.deep_view()),
{
    if all_ships_landed(near) {
        GameState::Won
    } else {
        state
    }
}

/// While the game is not running, the controller picks the idle group; that group
/// being empty, a tick runs no physics step, whatever number of ticks pass.
pub proof fn lemma_no_physics_unless_running(
    state: GameState,
    top: Seq<usize>,
    slot: usize,
    groups: Seq<Seq<usize>>,
)
    requires
        state != GameState::Running,
        groups.len() > IDLE_GROUP,
        groups[IDLE_GROUP as int].len() == 0,
    ensures
        forall|k: int|
            0 <= k < expand(top, slot, groups[physics_group_for(state) as int], physics_group_for(state)).len()
                ==> #[trigger] expand(
                top,
                slot,
                groups[physics_group_for(state) as int],
                physics_group_for(state),
            )[k] is Top,
{
    lemma_empty_group_runs_nothing(top, slot, groups[IDLE_GROUP as int], IDLE_GROUP);
}

/// Once won, neither the pause key nor the win check leaves that state.
pub proof fn lemma_won_is_terminal(key: Key, is_down: bool, near: Seq<Seq<bool>>)
    ensures
        state_after(GameState::Won, key, is_down) == GameState::Won,
        state_after_landing(GameState::Won, near) == GameState::Won,
{
}

} // verus!
