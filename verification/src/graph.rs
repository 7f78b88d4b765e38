//! The object graph of a package: names, imports and exports.

use vstd::prelude::*;
use vstd::string::*;
use crate::name_table::{NameRef, NameTable};
use crate::property::{properties_names_valid, properties_well_named, Property};
use crate::reference::RefIndex;

verus! {

/// An object that lives outside the package and is found by its names.
#[derive(Clone, Copy, Debug, PartialEq, Eq, Structural)]
pub struct Import {
    pub class_package: NameRef,
    pub class_name: NameRef,
    pub object_name: NameRef,
    /// The import that this one lies in, or null for an import at the top.
    pub outer_index: RefIndex,
}

/// What an export holds besides its properties.
#[derive(Debug, PartialEq, Eq)]
pub enum Payload {
    /// Nothing more.
    Normal,
    /// A level: the references to its actors, in order.
    Level { actors: Vec<RefIndex> },
}

/// An object that the package owns.
#[derive(Debug, PartialEq, Eq)]
pub struct Export {
    pub object_name: NameRef,
    pub class_index: RefIndex,
    pub super_index: RefIndex,
    pub template_index: RefIndex,
    pub outer_index: RefIndex,
    /// Objects that must be created before this one is serialized.
    pub create_before_serialization: Vec<RefIndex>,
    /// Objects that must be serialized before this one is created.
    pub serialization_before_create: Vec<RefIndex>,
    /// Objects that must be created before this one is created.
    pub create_before_create: Vec<RefIndex>,
    pub properties: Vec<Property>,
    pub payload: Payload,
}

/// A package in memory. The position of an export or an import in its list
/// is what references encode, so entries are only ever added at the end.
#[derive(Debug, PartialEq, Eq)]
pub struct AssetGraph {
    pub names: NameTable,
    pub imports: Vec<Import>,
    pub exports: Vec<Export>,
}

/// The text by which the level root is known.
pub open spec fn level_root_name() -> Seq<char> {
    "PersistentLevel"@
}

impl Import {
    /// Every name of the import lies in a table of `names` entries.
    pub open spec fn names_valid(self, names: int) -> bool {
        &&& self.class_package.index < names
        &&& self.class_name.index < names
        &&& self.object_name.index < names
    }

    pub fn well_named(&self, names: usize) -> (b: bool)
        ensures
            b == self.names_valid(names as int),
    {
        self.class_package.index < names && self.class_name.index < names
            && self.object_name.index < names
    }
}

impl Export {
    /// Every name of the export and of its properties lies in a table of
    /// `names` entries.
    pub open spec fn names_valid(self, names: int) -> bool {
        &&& self.object_name.index < names
        &&& properties_names_valid(self.properties@, names)
    }

    pub open spec fn is_level(self) -> bool {
        self.payload is Level
    }

    pub fn well_named(&self, names: usize) -> (b: bool)
        ensures
            b == self.names_valid(names as int),
    {
        self.object_name.index < names && properties_well_named(&self.properties, names)
    }
}

impl AssetGraph {
    /// Every name in the graph lies in the graph's own table, and both lists
    /// are short enough for 32-bit references.
    pub open spec fn wf(&self) -> bool {
        &&& self.imports@.len() <= i32::MAX
        &&& self.exports@.len() <= i32::MAX
        &&& forall|i: int|
            0 <= i < self.imports@.len() ==> (#[trigger] self.imports@[i]).names_valid(
                self.names@.len() as int,
            )
        &&& forall|i: int|
            0 <= i < self.exports@.len() ==> (#[trigger] self.exports@[i]).names_valid(
                self.names@.len() as int,
            )
    }

    /// `r` selects an export of the graph.
    pub open spec fn has_export(&self, r: RefIndex) -> bool {
        1 <= r.index <= self.exports@.len()
    }

    /// `r` selects an import of the graph.
    pub open spec fn has_import(&self, r: RefIndex) -> bool {
        1 <= -r.index <= self.imports@.len()
    }

    /// The export that `r` selects.
    pub open spec fn export_at(&self, r: RefIndex) -> Export
        recommends
            self.has_export(r),
    {
        self.exports@[r.index - 1]
    }

    /// The import that `r` selects.
    pub open spec fn import_at(&self, r: RefIndex) -> Import
        recommends
            self.has_import(r),
    {
        self.imports@[-r.index - 1]
    }

    /// The text of a name of the graph.
    pub open spec fn name_text(&self, name: NameRef) -> Seq<char> {
        self.names@[name.index as int]
    }

    /// The export at position `i` is a level named as the level root is.
    pub open spec fn is_level_root_at(&self, i: int) -> bool {
        &&& 0 <= i < self.exports@.len()
        &&& self.exports@[i].is_level()
        &&& self.exports@[i].object_name.index < self.names@.len()
        &&& self.name_text(self.exports@[i].object_name) == level_root_name()
    }

    /// `r` selects the level root: the first level export named as the level
    /// root is.
    pub open spec fn is_level_root(&self, r: RefIndex) -> bool {
        &&& self.has_export(r)
        &&& self.is_level_root_at(r.index - 1)
        &&& forall|j: int| 0 <= j < r.index - 1 ==> !self.is_level_root_at(j)
    }

    /// The graph has a level root.
    pub open spec fn has_level_root(&self) -> bool {
        exists|i: int| self.is_level_root_at(i)
    }

    /// A graph without names, imports or exports.
    pub fn new() -> (graph: AssetGraph)
        ensures
            graph.wf(),
            graph.names@.len() == 0,
            graph.imports@.len() == 0,
            graph.exports@.len() == 0,
    {
        AssetGraph { names: NameTable::new(), imports: Vec::new(), exports: Vec::new() }
    }

    /// Whether the graph is well formed.
    pub fn is_well_formed(&self) -> (b: bool)
        ensures
            b == self.wf(),
    {
        let names = self.names.len();
        if self.imports.len() > i32::MAX as usize || self.exports.len() > i32::MAX as usize {
            return false;
        }
        let n = self.imports.len();
        let mut i: usize = 0;
        while i < n
            invariant
                i <= n,
                n == self.imports@.len(),
                names == self.names@.len(),
                forall|j: int|
                    0 <= j < i ==> (#[trigger] self.imports@[j]).names_valid(names as int),
            decreases n - i,
        {
            if !self.imports[i].well_named(names) {
                return false;
            }
            i = i + 1;
        }
        let n = self.exports.len();
        let mut i: usize = 0;
        while i < n
            invariant
                i <= n,
                n == self.exports@.len(),
                names == self.names@.len(),
                forall|j: int|
                    0 <= j < i ==> (#[trigger] self.exports@[j]).names_valid(names as int),
            decreases n - i,
        {
            if !self.exports[i].well_named(names) {
                return false;
            }
            i = i + 1;
        }
        true
    }

    /// Whether `r` is null or selects an entry of the graph.
    pub fn resolves(&self, r: RefIndex) -> (b: bool)
        requires
            self.imports@.len() <= i32::MAX,
            self.exports@.len() <= i32::MAX,
        ensures
            b == r.resolves(self.exports@.len() as int, self.imports@.len() as int),
    {
        let i = r.index as i64;
        -(self.imports.len() as i64) <= i && i <= self.exports.len() as i64
    }

    /// The export that `r` selects.
    pub fn get_export(&self, r: RefIndex) -> (export: Option<&Export>)
        ensures
            self.has_export(r) ==> export == Some(&self.export_at(r)),
            !self.has_export(r) ==> export is None,
    {
        match r.export_position() {
            Some(p) => if p < self.exports.len() {
                Some(&self.exports[p])
            } else {
                None
            },
            None => None,
        }
    }

    /// The import that `r` selects.
    pub fn get_import(&self, r: RefIndex) -> (import: Option<Import>)
        ensures
            self.has_import(r) ==> import == Some(self.import_at(r)),
            !self.has_import(r) ==> import is None,
    {
        match r.import_position() {
            Some(p) => if p < self.imports.len() {
                Some(self.imports[p])
            } else {
                None
            },
            None => None,
        }
    }

    /// The reference to the level root, if the graph has one.
    pub fn find_level_root(&self) -> (root: Option<RefIndex>)
        requires
            self.exports@.len() <= i32::MAX,
        ensures
            root matches Some(r) ==> self.is_level_root(r),
            root is None ==> !self.has_level_root(),
    {
        let wanted = "PersistentLevel".to_owned();
        let n = self.exports.len();
        let mut i: usize = 0;
        while i < n
            invariant
                i <= n,
                n == self.exports@.len(),
                n <= i32::MAX,
                wanted@ == level_root_name(),
                forall|j: int| 0 <= j < i ==> !self.is_level_root_at(j),
            decreases n - i,
        {
            let export = &self.exports[i];
            let is_level = match export.payload {
                Payload::Level { .. } => true,
                Payload::Normal => false,
            };
            if is_level && self.names.resolves_to(export.object_name, &wanted) {
                return Some(RefIndex { index: i as i32 + 1 });
            }
            i = i + 1;
        }
        None
    }
}

} // verus!
