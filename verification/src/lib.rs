//! Verified core of an emote-usage tally: parsing inline emote references
//! out of message text, merging per-message and per-reaction deltas into a
//! counter store, and building rank-ordered reports over the counters.

pub mod emote;
pub mod parse;
pub mod store;
pub mod report;
pub mod tally;
