//! A lifetime bridge for objects owned by a foreign, manually reference-counted
//! runtime: strong and weak handles over retain counts, nested deferred-release
//! scopes, callback adapters that wrap host actions behind a foreign-invocable
//! entry point, a registry that owns each adapter for exactly as long as its
//! menu item exists, and a reactive menu model that derives its visible state
//! from the item tree and rebuilds it on every structural change.

pub mod handles;
pub mod adapter;
pub mod registry;
pub mod menu;
