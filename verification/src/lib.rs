//! Editing the object graph of a cooked asset package.
//!
//! A package is held in memory as an [`AssetGraph`]: a table of names, a list
//! of imports and a list of exports that refer to one another by signed
//! indices. The functions of this crate change such a graph while keeping
//! every reference meaningful:
//!
//! - [`rename_names`] replaces a text inside every name,
//! - [`disable_import`] and [`rename_import`] detach and rename imports,
//! - [`disable_actors`] takes actors out of the level,
//! - [`edit_property`] overwrites the value of a single property,
//! - [`transplant`] copies a subgraph out of a second graph into the first,
//!   with every name and every reference turned into one of the first.
//!
//! Every function states what it does to the graph in its contract, and the
//! module [`consistency`] proves what holds of a graph after a subgraph was
//! carried into it.
//!
//! Reading a package from disk and writing it back is left to the caller.
//! The module [`name_map`] carries names between a name table and the name
//! map of the asset codec.
//! Floating-point components of vectors and rotators are kept as the 64 bits
//! of their doubles and never interpreted.

pub mod carry;
pub mod closure;
pub mod consistency;
pub mod edit;
pub mod error;
pub mod graph;
pub mod name_map;
pub mod name_table;
pub mod property;
pub mod property_edit;
pub mod reference;
pub mod remap;
pub mod text;
pub mod transplant;

pub use edit::{disable_actors, disable_import, rename_import, rename_names, ActorSelector};
pub use error::EditError;
pub use graph::{AssetGraph, Export, Import, Payload};
pub use name_table::{NameRef, NameTable};
pub use property::{Property, ScalarKind};
pub use property_edit::{edit_property, parse_edit, NewValue};
pub use reference::{RefIndex, RefKind};
pub use transplant::{transplant, transplant_all, TransplantReport, TransplantRun};
