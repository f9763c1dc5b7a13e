//! A partial linker: it combines relocatable objects into one relocatable
//! object, merging their sections, resolving their symbols and retargeting
//! their relocations.
//!
//! A link runs in three stages, each of which needs what the one before it
//! made. `merge` lays the sections of all objects out as output sections and
//! records where each input section landed. `symbols` builds the symbol table
//! of the linked object from the symbols of all objects and from those
//! placements. `rewrite` moves every relocation to where its section landed
//! and points it at what its symbol became. `link` runs the three in order
//! and hands on their results together, or the first error.
//!
//! What each stage computes is defined in a module of its own, over the
//! mathematical views of the objects: `layout` for merging, `resolve` for the
//! symbol table, `relocation` for rewriting. `layout_guarantees` and
//! `symbol_guarantees` state what follows from those definitions.
//!
//! `preflight` holds the checks that decide whether files may be linked at
//! all, and `object_file` what they ask of the `object` crate.

pub mod model;
pub mod stream;
pub mod layout;
pub mod merge;
pub mod resolve;
pub mod symbols;
pub mod relocation;
pub mod rewrite;
pub mod link;
pub mod layout_guarantees;
pub mod symbol_guarantees;
pub mod object_file;
pub mod preflight;
