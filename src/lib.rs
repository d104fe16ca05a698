//! Core of a small gravity-and-thrusters arcade scene: a generational entity
//! arena, per-component storages with joins, a parent/child index rebuilt from
//! change notifications, a dependency-ordered step scheduler with a per-tick
//! group batch step, and the discrete rules of the game itself.

pub mod entity;
pub mod game;
pub mod batch;
pub mod hierarchy;
pub mod schedule;
pub mod storage;
