//! Verified core of a plugin driver: a capability catalogue merged from core
//! and plugin providers, a manifest store, and a lifecycle manager that
//! reference-counts running plugin processes.
//!
//! Process spawning, RPC and disk scanning are performed by the embedding
//! application, which hands their results to the verified functions here as
//! plain values.

pub mod catalogue_manager;
pub mod plugin_manager;
pub mod plugin_models;
pub mod strutil;
pub mod versions;
