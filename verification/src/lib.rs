//! A keyed product store guarded by role-based access control and a single
//! owner.
//!
//! The store maps text keys to [`registry::Item`] records. Every mutating
//! operation is gated: writes and deletes require a role recorded in
//! [`access_control::AccessControl`], and role grants and ownership transfer
//! require the caller to be the current owner. The host environment that
//! dispatches calls hands each operation the calling principal as a plain
//! string; all decisions and state changes are made here, with contracts
//! stating exactly which callers succeed and how the store changes.

pub mod access_control;
pub mod errors;
pub mod registry;
