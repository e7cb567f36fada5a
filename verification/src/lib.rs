//! Capitol Dungeon: the rules of the crawl, proved with Verus.

pub mod audio;
pub mod content;
pub mod dungeon;
pub mod editor;
pub mod look;
pub mod progress;
pub mod rng;
pub mod save;
pub mod settings;
pub mod spawn;
pub mod sprites;
pub mod text;
pub mod touch;
pub mod trade;
pub mod world;
