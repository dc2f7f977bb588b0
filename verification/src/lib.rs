//! Meta-server core: the game-server bridge protocol and the versioned,
//! capability-gated character object store that it feeds.
//!
//! `protocol` holds the message types exchanged with a game server, `codec`
//! turns them into bytes and back, `store` keeps versioned avatar blobs behind
//! per-version capability secrets, `bridge` owns the connection registry and
//! player routing, `status` derives a presence condition for the chat bot, and
//! `avatar` validates uploads before they reach the store.
pub mod avatar;
pub mod bridge;
pub mod codec;
pub mod status;
pub mod store;
pub mod protocol;
