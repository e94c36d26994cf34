//! What the server promises, in plain terms: each field of what it keeps and
//! hands out, each number it goes by, and how one call answers to another.

pub mod accounts;
pub mod answers;
pub mod counting;
pub mod devices;
pub mod limits;
pub mod mailbox;
pub mod names;
pub mod numbers;
pub mod pairing;
pub mod server;
pub mod settings;
pub mod signing_in;
pub mod texts;
pub mod updates;
pub mod upkeep;
