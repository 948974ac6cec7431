//! A terminal roguelike card game engine.
//!
//! A standard 54-card deck is partitioned at game start into a dungeon deck,
//! a shop deck, and a set of boss cards. The player clears rooms of four
//! cards at a time, fighting monsters, drinking potions, and equipping or
//! repairing a weapon, until the dungeon and all bosses are exhausted.
//!
//! This crate holds the verified engine: the card model, the deck builder,
//! and the room/floor/shop state machine with the combat and shop rules.
//! Reading commands and rendering styled text belong to the surrounding
//! program, which drives the engine through its public methods.

pub mod card;
pub mod deck;
pub mod game;
mod rng;
