//! Verified core of an issue-reaction leaderboard.
//!
//! The library covers the three pieces of logic worth proving: draining a
//! paginated listing while following the server-supplied continuation link
//! (`page` and `link`), merging per-issue reaction counts into a single tally
//! (`tally`), and producing a deterministic ranked list from that tally
//! (`rank`). All network traffic, JSON decoding and console output live in
//! the surrounding application, which hands this library plain values.

pub mod bytes;
pub mod link;
pub mod page;
pub mod rank;
pub mod tally;
