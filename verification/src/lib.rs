//! Headless core of the void engine: the wire formats, the session rules and
//! the persistence rules, each stated as a contract and proved.

pub mod ecs;
pub mod log;
pub mod min_heap;
pub mod net;
pub mod pathfind;
pub mod persist;
pub mod physics3d;
pub mod pick3d;
pub mod rng;
pub mod rotation;
pub mod sorted_map;
pub mod text;
