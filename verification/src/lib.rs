//! Consistency engine for a per-user tree of folders and files kept in a
//! document store: building listings, resolving scopes, and walking trees to
//! create or delete them one store request at a time.
//!
//! The engine never talks to a store. A walk says which request it wants
//! carried out next (`request`) and is handed the store's reply (`accept`);
//! whoever drives it does the talking. `model`, `filter` and `protocol` hold
//! the entities, the selections and the requests; `plan`, `create` and
//! `delete` the walks; `scope`, `listing`, `files`, `naming` and `params`
//! what a single request needs. `store` says what the laws suppose of a
//! store, and `planting`, `cascade` and `isolation` state and prove the
//! laws: what creating leaves in the store, what deleting leaves of it, and
//! that owners never reach each other's entities.

pub mod model;
pub mod listing;
pub mod filter;
pub mod naming;
pub mod protocol;
pub mod fresh;
pub mod plan;
pub mod create;
pub mod delete;
pub mod scope;
pub mod params;
pub mod files;
pub mod store;
pub mod cascade;
pub mod planting;
pub mod isolation;
