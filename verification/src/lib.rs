//! A discrete-time, tile-based multi-agent economic simulation. A finite
//! toroidal grid of tiles hosts autonomous agents that forage for four food
//! resources, trade on a price-discovering market with time-decayed limit
//! orders, and manage personal energy and cash under per-agent greed
//! preferences.
//!
//! The engine is the deterministic per-tick update of the world: the agent
//! decision state machine with mealing and shopping planning and
//! pathfinding, the market's order book with re-evaluation and expiry, the
//! tile-entity coherence layer, and the resource respawn cycle. Terrain
//! generation, rendering, argument parsing and statistics export live
//! outside the engine and feed it plain values.

pub mod agent;
pub mod building;
pub mod config;
pub mod entity;
pub mod host;
pub mod laws;
pub mod market;
pub mod resources;
pub mod tile;
pub mod world;
