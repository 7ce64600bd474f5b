// A turn-based dungeon crawl built on archetype tables: entities that share a set of
// components live as rows of one table, in parallel columns, and a fixed pipeline of
// systems reads and changes the tables once per tick.

pub mod components;
pub mod dungeon;
pub mod game;
pub mod map;
mod random;
pub mod systems;
pub mod world;
