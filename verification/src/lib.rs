//! Command-resolution core of a text-driven, multi-zone world.
//!
//! Lines of client text are recognised by the matchers of [`input`], queued on
//! a [`command::CommandBus`], and resolved by the executors against the
//! containment forest of [`world::World`].

pub mod command;
pub mod enter;
pub mod input;
pub mod items;
pub mod locate;
pub mod look;
pub mod movement;
pub mod pattern;
pub mod player;
pub mod social;
pub mod spatial;
pub mod teleport;
pub mod text;
pub mod world;
