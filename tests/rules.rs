use thrust::entity::{Entities, Entity};
use thrust::game::{
    all_ships_landed, detect_victory, firing_thrusters, handle_key, homing_target, physics_group,
    status_text, GameState, Key, Keys, Ship, ThrusterLink, IDLE_GROUP, PHYSICS_GROUP,
};
use thrust::batch::{tick_order, TickStep};
use thrust::hierarchy::Hierarchy;
use thrust::schedule::{Schedule, ScheduleError, StepDecl};
use thrust::storage::Storage;

const FRAME_DURATION: u32 = 0;
const DIFFICULTY: u32 = 1;
const MASS: u32 = 2;
const POSITION: u32 = 3;
const SPEED: u32 = 4;
const ROTATION: u32 = 5;
const ROTATION_SPEED: u32 = 6;
const KEYS: u32 = 7;
const THRUSTER: u32 = 8;

fn step(name: &str, deps: &[&str], reads: &[u32], writes: &[u32], exclusive: bool) -> StepDecl {
    StepDecl {
        name: name.to_string(),
        deps: deps.iter().map(|d| d.to_string()).collect(),
        reads: reads.to_vec(),
        writes: writes.to_vec(),
        exclusive,
    }
}

fn physics_steps() -> Vec<StepDecl> {
    vec![
        step("gravity", &[], &[FRAME_DURATION, DIFFICULTY, MASS, POSITION], &[SPEED], false),
        step(
            "fire-thrusters",
            &[],
            &[FRAME_DURATION, THRUSTER, ROTATION, KEYS],
            &[SPEED, ROTATION_SPEED],
            false,
        ),
        step(
            "movement",
            &["gravity", "fire-thrusters"],
            &[FRAME_DURATION, DIFFICULTY, SPEED],
            &[POSITION],
            false,
        ),
        step("rotate", &[], &[FRAME_DURATION, DIFFICULTY, ROTATION_SPEED], &[ROTATION], false),
    ]
}

#[test]
fn physics_group_is_staged_by_dependencies_and_conflicts() {
    let steps = physics_steps();
    let schedule = Schedule::build(&steps).unwrap();
    assert_eq!(schedule.level, vec![0, 1, 2, 0]);
    assert_eq!(schedule.levels, 3);
    assert!(schedule.exclusive.is_empty());
    assert_eq!(schedule.run_order(&steps), vec![0, 3, 1, 2]);
}

const SHIP: u32 = 9;
const LANDING: u32 = 10;
const STAR: u32 = 11;
const HIERARCHY: u32 = 12;
const STATE: u32 = 13;
const VIEWPORT: u32 = 14;

#[test]
fn top_level_steps_run_hierarchy_first_and_drawing_last() {
    let steps = vec![
        step("thruster-hierarchy", &[], &[THRUSTER], &[HIERARCHY], false),
        step("update-durations", &[], &[], &[FRAME_DURATION], false),
        step(
            "physics",
            &["update-durations"],
            &[FRAME_DURATION, DIFFICULTY, MASS, THRUSTER, HIERARCHY, KEYS, STATE],
            &[POSITION, SPEED, ROTATION, ROTATION_SPEED],
            false,
        ),
        step("homing", &["physics"], &[SHIP, POSITION, KEYS], &[VIEWPORT], false),
        step("victory-detector", &["physics"], &[POSITION, SHIP, LANDING], &[STATE], false),
        step("set-viewport", &[], &[VIEWPORT], &[], true),
        step("draw-stars", &[], &[STAR, POSITION], &[], true),
        step("draw-ships", &[], &[SHIP, POSITION, ROTATION, THRUSTER, HIERARCHY, KEYS], &[], true),
        step("draw-landings", &[], &[LANDING, POSITION], &[], true),
        step("draw-state", &[], &[STATE, VIEWPORT], &[], true),
    ];
    let schedule = Schedule::build(&steps).unwrap();
    assert_eq!(schedule.level[..5].to_vec(), vec![0, 0, 1, 2, 2]);
    assert_eq!(schedule.levels, 3);
    assert_eq!(schedule.exclusive, vec![5, 6, 7, 8, 9]);
    assert_eq!(schedule.run_order(&steps), vec![0, 1, 2, 3, 4, 5, 6, 7, 8, 9]);
}

#[test]
fn exclusive_steps_run_last_in_declared_order() {
    let steps = vec![
        step("draw-b", &[], &[POSITION], &[], true),
        step("update", &[], &[], &[POSITION], false),
        step("draw-a", &["draw-b"], &[POSITION], &[], true),
        step("later", &["update"], &[POSITION], &[], false),
    ];
    let schedule = Schedule::build(&steps).unwrap();
    assert_eq!(schedule.exclusive, vec![0, 2]);
    assert_eq!(schedule.run_order(&steps), vec![1, 3, 0, 2]);
}

#[test]
fn independent_steps_share_a_stage() {
    let steps = vec![
        step("a", &[], &[POSITION], &[SPEED], false),
        step("b", &[], &[POSITION], &[MASS], false),
    ];
    let schedule = Schedule::build(&steps).unwrap();
    assert_eq!(schedule.level, vec![0, 0]);
    assert_eq!(schedule.levels, 1);
}

#[test]
fn duplicate_step_name_is_rejected() {
    let steps = vec![step("a", &[], &[], &[], false), step("a", &[], &[], &[], false)];
    assert_eq!(
        Schedule::build(&steps).err(),
        Some(ScheduleError::DuplicateStep("a".to_string()))
    );
}

#[test]
fn unknown_dependency_is_rejected() {
    let steps = vec![step("a", &["nope"], &[], &[], false)];
    assert_eq!(
        Schedule::build(&steps).err(),
        Some(ScheduleError::UnknownStep("nope".to_string()))
    );
}

#[test]
fn dependency_cycle_is_rejected() {
    let steps = vec![step("a", &["b"], &[], &[], false), step("b", &["a"], &[], &[], false)];
    assert_eq!(Schedule::build(&steps).err(), Some(ScheduleError::Cycle));
}

#[test]
fn self_dependency_is_rejected() {
    let steps = vec![step("a", &["a"], &[], &[], false)];
    assert_eq!(Schedule::build(&steps).err(), Some(ScheduleError::Cycle));
}

#[test]
fn shared_step_cannot_wait_for_exclusive_step() {
    let steps = vec![step("draw", &[], &[], &[], true), step("update", &["draw"], &[], &[], false)];
    assert_eq!(Schedule::build(&steps).err(), Some(ScheduleError::Cycle));
}

#[test]
fn exclusive_step_cannot_wait_for_later_exclusive_step() {
    let steps = vec![step("a", &["b"], &[], &[], true), step("b", &[], &[], &[], true)];
    assert_eq!(Schedule::build(&steps).err(), Some(ScheduleError::Cycle));
}

#[test]
fn empty_step_list_builds() {
    let steps: Vec<StepDecl> = vec![];
    let schedule = Schedule::build(&steps).unwrap();
    assert_eq!(schedule.levels, 0);
    assert!(schedule.run_order(&steps).is_empty());
}

#[test]
fn idle_group_replaces_batch_step_with_nothing() {
    let top = vec![0, 1, 2, 3];
    let groups = vec![vec![], vec![0, 3, 1, 2]];
    assert_eq!(
        tick_order(&top, 2, &groups, IDLE_GROUP),
        vec![TickStep::Top(0), TickStep::Top(1), TickStep::Top(3)]
    );
}

#[test]
fn physics_group_runs_in_place_of_batch_step() {
    let top = vec![0, 1, 2, 3];
    let groups = vec![vec![], vec![0, 3]];
    assert_eq!(
        tick_order(&top, 2, &groups, PHYSICS_GROUP),
        vec![
            TickStep::Top(0),
            TickStep::Top(1),
            TickStep::Grouped(1, 0),
            TickStep::Grouped(1, 3),
            TickStep::Top(3)
        ]
    );
}

#[test]
fn paused_ticks_run_no_physics() {
    let top = vec![0, 1, 2];
    let groups = vec![vec![], vec![0, 1, 2, 3]];
    for state in [GameState::Started, GameState::Paused, GameState::Won] {
        for _ in 0..3 {
            let order = tick_order(&top, 1, &groups, physics_group(state));
            assert!(order.iter().all(|s| matches!(s, TickStep::Top(_))));
        }
    }
}

#[test]
fn physics_runs_only_while_running() {
    assert_eq!(physics_group(GameState::Running), PHYSICS_GROUP);
    assert_eq!(physics_group(GameState::Started), IDLE_GROUP);
    assert_eq!(physics_group(GameState::Paused), IDLE_GROUP);
    assert_eq!(physics_group(GameState::Won), IDLE_GROUP);
}

#[test]
fn toggle_switches_between_running_and_paused() {
    let mut s = GameState::Started;
    s.toggle();
    assert_eq!(s, GameState::Running);
    s.toggle();
    assert_eq!(s, GameState::Paused);
    s.toggle();
    assert_eq!(s, GameState::Running);
    let mut w = GameState::Won;
    w.toggle();
    assert_eq!(w, GameState::Won);
}

#[test]
fn key_events_update_keys_and_state() {
    let mut keys = Keys::new();
    let mut state = GameState::Started;
    assert!(!handle_key(&mut keys, &mut state, Key::Left, true));
    assert!(keys.is_pressed(Key::Left));
    assert!(!handle_key(&mut keys, &mut state, Key::Space, true));
    assert_eq!(state, GameState::Started);
    assert!(!keys.is_pressed(Key::Space));
    assert!(!handle_key(&mut keys, &mut state, Key::Space, false));
    assert_eq!(state, GameState::Running);
    assert!(!handle_key(&mut keys, &mut state, Key::Left, false));
    assert!(!keys.is_pressed(Key::Left));
    assert!(handle_key(&mut keys, &mut state, Key::Escape, true));
    assert!(!keys.is_pressed(Key::Escape));
}

#[test]
fn pressing_a_key_twice_keeps_it_once() {
    let mut keys = Keys::new();
    keys.press(Key::Other(42));
    keys.press(Key::Other(42));
    keys.release(Key::Other(42));
    assert!(!keys.is_pressed(Key::Other(42)));
}

#[test]
fn status_text_per_state() {
    assert_eq!(status_text(GameState::Running), None);
    assert_eq!(status_text(GameState::Paused), Some("Paused"));
    assert_eq!(status_text(GameState::Won), Some("Congratulations, you've won!"));
    assert!(status_text(GameState::Started).unwrap().starts_with("Get the ship into the landing area"));
}

#[test]
fn only_thrusters_with_held_keys_fire() {
    let mut world = Entities::new();
    let ship = world.create();
    let left = world.create();
    let up = world.create();
    let mut links: Storage<ThrusterLink> = Storage::new();
    links.insert(left, ThrusterLink { ship, key: Key::Left });
    links.insert(up, ThrusterLink { ship, key: Key::Up });
    let mut index = Hierarchy::new();
    let changes = links.take_changes();
    index.maintain(&links, &changes, &vec![]);
    let mut keys = Keys::new();
    assert!(firing_thrusters(&index, &links, &keys, ship).is_empty());
    keys.press(Key::Left);
    assert_eq!(firing_thrusters(&index, &links, &keys, ship), vec![left]);
    keys.press(Key::Up);
    assert_eq!(firing_thrusters(&index, &links, &keys, ship), vec![left, up]);
}

#[test]
fn homing_follows_last_ship_with_held_key() {
    let a = Entity { index: 0, generation: 0 };
    let b = Entity { index: 1, generation: 0 };
    let mut ships: Storage<Ship> = Storage::new();
    ships.insert(a, Ship { homing_key: Key::Home });
    ships.insert(b, Ship { homing_key: Key::Other(7) });
    let mut keys = Keys::new();
    let candidates = vec![a, b];
    assert_eq!(homing_target(&candidates, &ships, &keys), None);
    keys.press(Key::Home);
    assert_eq!(homing_target(&candidates, &ships, &keys), Some(0));
    keys.press(Key::Other(7));
    assert_eq!(homing_target(&candidates, &ships, &keys), Some(1));
}

fn within_capture(ship: (f32, f32), landing: (f32, f32)) -> bool {
    let dx = ship.0 - landing.0;
    let dy = ship.1 - landing.1;
    (dx * dx + dy * dy).sqrt() <= 25.0
}

#[test]
fn ship_inside_capture_radius_wins() {
    let landing = (600.0, 300.0);
    let ship = (610.0, 300.0);
    let near = vec![vec![within_capture(ship, landing)]];
    assert_eq!(detect_victory(GameState::Running, &near), GameState::Won);
}

#[test]
fn ship_outside_capture_radius_does_not_win() {
    let landing = (600.0, 300.0);
    let ship = (600.0, 330.0);
    let near = vec![vec![within_capture(ship, landing)]];
    assert_eq!(detect_victory(GameState::Running, &near), GameState::Running);
    assert_eq!(detect_victory(GameState::Paused, &near), GameState::Paused);
}

#[test]
fn every_ship_must_reach_some_landing() {
    assert!(all_ships_landed(&vec![vec![false, true], vec![true, false]]));
    assert!(!all_ships_landed(&vec![vec![false, true], vec![false, false]]));
    assert!(!all_ships_landed(&vec![vec![]]));
    assert!(all_ships_landed(&vec![]));
}

#[test]
fn won_game_stays_won() {
    let mut keys = Keys::new();
    let mut state = detect_victory(GameState::Running, &vec![vec![true]]);
    assert_eq!(state, GameState::Won);
    handle_key(&mut keys, &mut state, Key::Space, false);
    assert_eq!(state, GameState::Won);
    assert_eq!(detect_victory(state, &vec![vec![false]]), GameState::Won);
}
