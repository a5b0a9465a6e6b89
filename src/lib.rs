//! Session and connection broker for a turn-based multiplayer game.
//!
//! - `game_state`: the shared store of players, live sessions and their
//!   rosters, and the index of sessions that can be resumed.
//! - `registry`: the open connections and the ids handed out to them.
//! - `event`: inbound and outbound events, and the router that decides, for
//!   each inbound event, how the store changes, what every connection is sent
//!   and what is saved.
//! - `scheduler`: the automated turns that follow a player's attack.
//! - `snapshot`: the saved form of a session.
//! - `laws`: properties that relate several calls.
//! - `assoc`: name-keyed lists modelled as maps.
pub mod assoc;
pub mod game_state;
pub mod registry;
pub mod snapshot;
pub mod event;
pub mod scheduler;
pub mod laws;
