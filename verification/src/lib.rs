//! Session-authorization core: a signed token codec, a concurrently readable
//! authorization cache with a freshness window, and the refresh trigger that
//! keeps the cache loosely synchronized with an authoritative user store.
pub mod auth_handler;
pub mod change_password_handler;
pub mod codec;
pub mod errors;
pub mod invitation_handler;
pub mod logged_user;
pub mod models;
pub mod register_handler;
pub mod utils;
