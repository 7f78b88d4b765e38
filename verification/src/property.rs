//! The values that an export holds: a tree of named properties.

use vstd::prelude::*;
use crate::name_table::NameRef;
use crate::reference::RefIndex;

verus! {

/// The kinds of property that hold nothing but their own name.
#[derive(Clone, Copy, Debug, PartialEq, Eq, Structural)]
pub enum ScalarKind {
    Byte,
    Float,
    Int,
    Bool,
    MulticastDelegate,
}

/// A named value of an export. Struct and array properties hold further
/// properties; no other kind does.
#[allow(inconsistent_fields)]
#[derive(Debug, PartialEq, Eq)]
pub enum Property {
    /// A name.
    Name { name: NameRef, value: NameRef },
    /// A reference to an object.
    Object { name: NameRef, value: RefIndex },
    /// A list of properties, with the name of its struct type if it has one.
    Struct { name: NameRef, struct_type: Option<NameRef>, value: Vec<Property> },
    /// A list of properties.
    Array { name: NameRef, value: Vec<Property> },
    /// Three components, each kept as the 64 bits of a double.
    Vector { name: NameRef, x: u64, y: u64, z: u64 },
    /// Three components, each kept as the 64 bits of a double.
    Rotator { name: NameRef, x: u64, y: u64, z: u64 },
    /// A value without names or references of its own.
    Scalar { kind: ScalarKind, name: NameRef },
    /// A value of an enum, with the names of the value and of the enum type.
    Enum { name: NameRef, value: Option<NameRef>, enum_type: Option<NameRef> },
    /// A property of any other kind. Its contents are not known here.
    Unsupported { name: NameRef },
}

impl Property {
    /// The name of the property.
    pub open spec fn spec_name(self) -> NameRef {
        match self {
            Property::Name { name, .. } => name,
            Property::Object { name, .. } => name,
            Property::Struct { name, .. } => name,
            Property::Array { name, .. } => name,
            Property::Vector { name, .. } => name,
            Property::Rotator { name, .. } => name,
            Property::Scalar { name, .. } => name,
            Property::Enum { name, .. } => name,
            Property::Unsupported { name } => name,
        }
    }

    /// The name of the property.
    pub fn name(&self) -> (name: NameRef)
        ensures
            name == self.spec_name(),
    {
        match self {
            Property::Name { name, .. } => *name,
            Property::Object { name, .. } => *name,
            Property::Struct { name, .. } => *name,
            Property::Array { name, .. } => *name,
            Property::Vector { name, .. } => *name,
            Property::Rotator { name, .. } => *name,
            Property::Scalar { name, .. } => *name,
            Property::Enum { name, .. } => *name,
            Property::Unsupported { name } => *name,
        }
    }
}

/// A name that may be missing lies in a table of `names` entries.
pub open spec fn optional_name_valid(name: Option<NameRef>, names: int) -> bool {
    name matches Some(n) ==> n.index < names
}

/// Every name in the property, and in the properties below it, lies in a
/// table of `names` entries.
pub open spec fn property_names_valid(p: Property, names: int) -> bool
    decreases p,
{
    match p {
        Property::Name { name, value } => name.index < names && value.index < names,
        Property::Object { name, .. } => name.index < names,
        Property::Struct { name, struct_type, value } => name.index < names && optional_name_valid(
            struct_type,
            names,
        ) && properties_names_valid(value@, names),
        Property::Array { name, value } => name.index < names && properties_names_valid(
            value@,
            names,
        ),
        Property::Vector { name, .. } => name.index < names,
        Property::Rotator { name, .. } => name.index < names,
        Property::Scalar { name, .. } => name.index < names,
        Property::Enum { name, value, enum_type } => name.index < names && optional_name_valid(
            value,
            names,
        ) && optional_name_valid(enum_type, names),
        Property::Unsupported { name } => name.index < names,
    }
}

/// Every name in the properties lies in a table of `names` entries.
pub open spec fn properties_names_valid(ps: Seq<Property>, names: int) -> bool
    decreases ps,
{
    forall|i: int| 0 <= i < ps.len() ==> property_names_valid(#[trigger] ps[i], names)
}

fn optional_well_named(name: &Option<NameRef>, names: usize) -> (b: bool)
    ensures
        b == optional_name_valid(*name, names as int),
{
    match name {
        Some(n) => n.index < names,
        None => true,
    }
}

/// Whether every name in the property lies in a table of `names` entries.
pub fn property_well_named(p: &Property, names: usize) -> (b: bool)
    ensures
        b == property_names_valid(*p, names as int),
    decreases p,
{
    match p {
        Property::Name { name, value } => name.index < names && value.index < names,
        Property::Object { name, .. } => name.index < names,
        Property::Struct { name, struct_type, value } => name.index < names && optional_well_named(
            struct_type,
            names,
        ) && properties_well_named(value, names),
        Property::Array { name, value } => name.index < names && properties_well_named(
            value,
            names,
        ),
        Property::Vector { name, .. } => name.index < names,
        Property::Rotator { name, .. } => name.index < names,
        Property::Scalar { name, .. } => name.index < names,
        Property::Enum { name, value, enum_type } => name.index < names && optional_well_named(
            value,
            names,
        ) && optional_well_named(enum_type, names),
        Property::Unsupported { name } => name.index < names,
    }
}

/// Whether every name in the properties lies in a table of `names` entries.
pub fn properties_well_named(ps: &Vec<Property>, names: usize) -> (b: bool)
    ensures
        b == properties_names_valid(ps@, names as int),
    decreases ps,
{
    let n = ps.len();
    let mut i: usize = 0;
    while i < n
        invariant
            i <= n,
            n == ps@.len(),
            forall|j: int| 0 <= j < i ==> property_names_valid(#[trigger] ps@[j], names as int),
        decreases n - i,
    {
        if !property_well_named(&ps[i], names) {
            return false;
        }
        i = i + 1;
    }
    true
}

/// Names that lie in a table still lie in it when it has grown.
pub proof fn lemma_property_names_valid_grows(p: Property, names: int, more: int)
    requires
        property_names_valid(p, names),
        names <= more,
    ensures
        property_names_valid(p, more),
    decreases p,
{
    match p {
        Property::Struct { value, .. } => {
            lemma_properties_names_valid_grows(value@, names, more);
        },
        Property::Array { value, .. } => {
            lemma_properties_names_valid_grows(value@, names, more);
        },
        _ => {},
    }
}

/// Names that lie in a table still lie in it when it has grown.
pub proof fn lemma_properties_names_valid_grows(ps: Seq<Property>, names: int, more: int)
    requires
        properties_names_valid(ps, names),
        names <= more,
    ensures
        properties_names_valid(ps, more),
    decreases ps,
{
    assert forall|i: int| 0 <= i < ps.len() implies property_names_valid(
        #[trigger] ps[i],
        more,
    ) by {
        lemma_property_names_valid_grows(ps[i], names, more);
    }
}

} // verus!
