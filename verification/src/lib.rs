//! A verified arena DOM tree, together with the small policy and bookkeeping
//! routines of a headless browser that decide things from plain values.
use vstd::prelude::*;

pub mod strutil;
pub mod tree;
pub mod cli;
pub mod fetch_policy;
pub mod origin_storage;
pub mod watchdog;
pub mod module_activity;
pub mod runtime;
pub mod ops;
pub mod readable;
pub mod glob;
pub mod mutation_impact;
pub mod node_order;
pub mod assets;
pub mod scripts;
pub mod frame_queue;
pub mod subtle;
pub mod fragment;
pub mod dom_ops;
pub mod scripted_fetch;
pub mod image_load;
pub mod style_queue;
pub mod realm;

verus! {

} // verus!
