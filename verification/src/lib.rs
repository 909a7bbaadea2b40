//! The simulation core of a turn-based dungeon crawl on a grid: cave
//! generation, the world's state, and the resolution of one turn.

pub mod actions;
pub mod bombs;
pub mod caves;
pub mod creature;
pub mod display;
pub mod generate;
pub mod item;
pub mod laws;
pub mod location;
pub mod pathing;
pub mod prng;
pub mod saved;
pub mod setup;
pub mod sight;
pub mod terrain;
pub mod turn;
pub mod validate;
pub mod world;

pub use actions::UseItemResult;
pub use caves::{make_cellular_caves, CaveGrid};
pub use creature::{apply_potion, Creature, CreatureID, KESTREL_RED, TERULO_BROWN};
pub use generate::BuildError;
pub use item::Item;
pub use location::Location;
pub use pathing::{first_step, shortest_path};
pub use prng::{step, PCG32};
pub use saved::SavedWorld;
pub use sight::{can_see, visible_cells};
pub use terrain::{Terrain, BOMB_GLYPH, POTION_GLYPH, WALL_TILE};
pub use world::GameWorld;
