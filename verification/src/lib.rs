use vstd::prelude::*;

pub mod config;
pub mod icon;
pub mod listing;
pub mod markdown;
pub mod minimize;
pub mod modal;
pub mod notes;
pub mod paths;
pub mod plugin;
pub mod reconcile;
pub mod text;
pub mod viewport;
pub mod watcher;

verus! {

} // verus!
