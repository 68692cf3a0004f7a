//! Notes inspector: the verified core of an Apple Notes and Obsidian browser and exporter.
use vstd::prelude::*;

pub mod export;
pub mod layout;
pub mod markdown;
pub mod diagnosis;
pub mod display;
pub mod exporter;
pub mod naming;
pub mod nav;
pub mod note;
pub mod notes_tree;
pub mod order;
pub mod preview;
pub mod paths;
pub mod picture;
pub mod proto;
pub mod schema;
pub mod screens;
pub mod search;
pub mod text;
pub mod tree;
pub mod vault;
pub mod walk;

verus! {

} // verus!
