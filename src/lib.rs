//! A collaborative drawing application's networking core: the wire protocol, the matchmaker that
//! hosts rooms and relays payloads between their members, and client-side connection
//! bookkeeping, together with a few pieces of the user interface's state.
pub mod address_map;
pub mod config;
pub mod image;
pub mod lobby;
pub mod matchmaker;
pub mod protocol;
pub mod selection;
pub mod socket;
