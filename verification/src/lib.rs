//! A verified core for running online multi-player snake drafts.
//!
//! Players join a lobby, the lobby is seeded with randomly generated packs of
//! items, and players take turns picking one item from a pack that passes
//! around the table, reversing direction each round. A per-pick deadline
//! auto-picks for slow players, and long-polling clients are woken through
//! update listeners exactly when their view of the game changes.

pub mod draft_database;
pub mod draft_engine;
pub mod errors;
pub mod external;
pub mod laws;
pub mod lobby_manager;
