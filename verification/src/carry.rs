//! Carrying records from one graph into another: every name is interned in
//! the other graph's table, every reference is looked up in the table of old
//! and new indices.

use vstd::prelude::*;
use std::collections::HashMap;
use crate::graph::{Export, Import, Payload};
use crate::name_table::{
    all_distinct,
    interned,
    is_first_index,
    lemma_first_index_stable,
    lemma_intern_keeps_distinct,
    NameRef,
    NameTable,
};
use crate::property::{optional_name_valid, properties_names_valid, property_names_valid, Property};
use crate::reference::RefIndex;
use crate::remap::{
    is_mappable,
    mappable,
    mapped_or_same,
    mapped_unless_null,
    references_mapped,
    remap_all,
    remap_or_keep,
    remap_unless_null,
};

verus! {

/// No property of the tree is of an unsupported kind.
pub open spec fn property_supported(p: Property) -> bool
    decreases p,
{
    match p {
        Property::Unsupported { .. } => false,
        Property::Struct { value, .. } => properties_supported(value@),
        Property::Array { value, .. } => properties_supported(value@),
        _ => true,
    }
}

/// No property of the trees is of an unsupported kind.
pub open spec fn properties_supported(ps: Seq<Property>) -> bool
    decreases ps,
{
    forall|i: int| 0 <= i < ps.len() ==> property_supported(#[trigger] ps[i])
}

/// Every object property of the tree is null or has an entry in the table.
pub open spec fn property_mappable(p: Property, table: Map<i32, i32>) -> bool
    decreases p,
{
    match p {
        Property::Object { value, .. } => mappable(table, value),
        Property::Struct { value, .. } => properties_mappable(value@, table),
        Property::Array { value, .. } => properties_mappable(value@, table),
        _ => true,
    }
}

/// Every object property of the trees is null or has an entry in the table.
pub open spec fn properties_mappable(ps: Seq<Property>, table: Map<i32, i32>) -> bool
    decreases ps,
{
    forall|i: int| 0 <= i < ps.len() ==> property_mappable(#[trigger] ps[i], table)
}

/// Whether no property of the tree is of an unsupported kind.
pub fn is_property_supported(p: &Property) -> (b: bool)
    ensures
        b == property_supported(*p),
    decreases p,
{
    match p {
        Property::Unsupported { .. } => false,
        Property::Struct { value, .. } => are_properties_supported(value),
        Property::Array { value, .. } => are_properties_supported(value),
        _ => true,
    }
}

/// Whether no property of the trees is of an unsupported kind.
pub fn are_properties_supported(ps: &Vec<Property>) -> (b: bool)
    ensures
        b == properties_supported(ps@),
    decreases ps,
{
    let n = ps.len();
    let mut i: usize = 0;
    while i < n
        invariant
            i <= n,
            n == ps@.len(),
            forall|j: int| 0 <= j < i ==> property_supported(#[trigger] ps@[j]),
        decreases n - i,
    {
        if !is_property_supported(&ps[i]) {
            return false;
        }
        i = i + 1;
    }
    true
}

/// Whether every object property of the tree is null or has an entry in the
/// table.
pub fn is_property_mappable(p: &Property, table: &HashMap<i32, i32>) -> (b: bool)
    ensures
        b == property_mappable(*p, table@),
    decreases p,
{
    match p {
        Property::Object { value, .. } => is_mappable(table, *value),
        Property::Struct { value, .. } => are_properties_mappable(value, table),
        Property::Array { value, .. } => are_properties_mappable(value, table),
        _ => true,
    }
}

/// Whether every object property of the trees is null or has an entry in
/// the table.
pub fn are_properties_mappable(ps: &Vec<Property>, table: &HashMap<i32, i32>) -> (b: bool)
    ensures
        b == properties_mappable(ps@, table@),
    decreases ps,
{
    let n = ps.len();
    let mut i: usize = 0;
    while i < n
        invariant
            i <= n,
            n == ps@.len(),
            forall|j: int| 0 <= j < i ==> property_mappable(#[trigger] ps@[j], table@),
        decreases n - i,
    {
        if !is_property_mappable(&ps[i], table) {
            return false;
        }
        i = i + 1;
    }
    true
}

/// `dst` is the name of the table `to` that has the text of the name `src`
/// of the table `from`.
pub open spec fn name_carried(
    from: Seq<Seq<char>>,
    to: Seq<Seq<char>>,
    src: NameRef,
    dst: NameRef,
) -> bool {
    is_first_index(to, from[src.index as int], dst.index as int)
}

/// As [`name_carried`], for a name that may be missing.
pub open spec fn optional_name_carried(
    from: Seq<Seq<char>>,
    to: Seq<Seq<char>>,
    src: Option<NameRef>,
    dst: Option<NameRef>,
) -> bool {
    match src {
        None => dst is None,
        Some(s) => dst matches Some(d) && name_carried(from, to, s, d),
    }
}

/// `dst` is `src` carried over: of the same kind and shape, with every name
/// carried over, every object reference looked up in the table unless it is
/// null, and every other value as it was.
pub open spec fn property_carried(
    src: Property,
    dst: Property,
    from: Seq<Seq<char>>,
    to: Seq<Seq<char>>,
    table: Map<i32, i32>,
) -> bool
    decreases src,
{
    match src {
        Property::Name { name, value } => {
            &&& dst matches Property::Name { name: name2, value: value2 }
            &&& name_carried(from, to, name, name2)
            &&& name_carried(from, to, value, value2)
        },
        Property::Object { name, value } => {
            &&& dst matches Property::Object { name: name2, value: value2 }
            &&& name_carried(from, to, name, name2)
            &&& value2 == mapped_unless_null(table, value)
        },
        Property::Struct { name, struct_type, value } => {
            &&& dst matches Property::Struct { name: name2, struct_type: type2, value: value2 }
            &&& name_carried(from, to, name, name2)
            &&& optional_name_carried(from, to, struct_type, type2)
            &&& properties_carried(value@, value2@, from, to, table)
        },
        Property::Array { name, value } => {
            &&& dst matches Property::Array { name: name2, value: value2 }
            &&& name_carried(from, to, name, name2)
            &&& properties_carried(value@, value2@, from, to, table)
        },
        Property::Vector { name, x, y, z } => {
            &&& dst matches Property::Vector { name: name2, x: x2, y: y2, z: z2 }
            &&& name_carried(from, to, name, name2)
            &&& x2 == x
            &&& y2 == y
            &&& z2 == z
        },
        Property::Rotator { name, x, y, z } => {
            &&& dst matches Property::Rotator { name: name2, x: x2, y: y2, z: z2 }
            &&& name_carried(from, to, name, name2)
            &&& x2 == x
            &&& y2 == y
            &&& z2 == z
        },
        Property::Scalar { kind, name } => {
            &&& dst matches Property::Scalar { kind: kind2, name: name2 }
            &&& name_carried(from, to, name, name2)
            &&& kind2 == kind
        },
        Property::Enum { name, value, enum_type } => {
            &&& dst matches Property::Enum { name: name2, value: value2, enum_type: type2 }
            &&& name_carried(from, to, name, name2)
            &&& optional_name_carried(from, to, value, value2)
            &&& optional_name_carried(from, to, enum_type, type2)
        },
        Property::Unsupported { .. } => false,
    }
}

/// `dst` holds the properties of `src` carried over, one for one.
pub open spec fn properties_carried(
    src: Seq<Property>,
    dst: Seq<Property>,
    from: Seq<Seq<char>>,
    to: Seq<Seq<char>>,
    table: Map<i32, i32>,
) -> bool
    decreases src,
{
    &&& dst.len() == src.len()
    &&& forall|i: int|
        #![trigger src[i]]
        #![trigger dst[i]]
        0 <= i < src.len() ==> property_carried(src[i], dst[i], from, to, table)
}

/// The table `names` after a name of `from` that may be missing was
/// interned in it.
pub open spec fn names_after_optional(
    names: Seq<Seq<char>>,
    from: Seq<Seq<char>>,
    name: Option<NameRef>,
) -> Seq<Seq<char>> {
    match name {
        None => names,
        Some(n) => interned(names, from[n.index as int]),
    }
}

/// The table `names` after the names of a property were interned in it: the
/// property's own name, then the names in its value, then, for a struct or
/// an array, those of the properties below it in order.
pub open spec fn names_after_property(names: Seq<Seq<char>>, from: Seq<Seq<char>>, p: Property)
    -> Seq<Seq<char>>
    decreases p, 0int,
{
    let named = interned(names, from[p.spec_name().index as int]);
    match p {
        Property::Name { value, .. } => interned(named, from[value.index as int]),
        Property::Struct { struct_type, value, .. } => names_after_properties(
            names_after_optional(named, from, struct_type),
            from,
            value@,
            value@.len() as int,
        ),
        Property::Array { value, .. } => names_after_properties(
            named,
            from,
            value@,
            value@.len() as int,
        ),
        Property::Enum { value, enum_type, .. } => names_after_optional(
            names_after_optional(named, from, value),
            from,
            enum_type,
        ),
        _ => named,
    }
}

/// The table `names` after the names of the first `k` properties of `ps`
/// were interned in it.
pub open spec fn names_after_properties(
    names: Seq<Seq<char>>,
    from: Seq<Seq<char>>,
    ps: Seq<Property>,
    k: int,
) -> Seq<Seq<char>>
    decreases ps, k,
{
    if k <= 0 || k > ps.len() {
        names
    } else {
        names_after_property(names_after_properties(names, from, ps, k - 1), from, ps[k - 1])
    }
}

/// Interning the names of a property only adds to the table.
pub proof fn lemma_names_after_property_extend(
    names: Seq<Seq<char>>,
    from: Seq<Seq<char>>,
    p: Property,
)
    ensures
        names.is_prefix_of(names_after_property(names, from, p)),
    decreases p, 0int,
{
    let named = interned(names, from[p.spec_name().index as int]);
    match p {
        Property::Name { value, .. } => {
            lemma_prefix_chain(names, named, interned(named, from[value.index as int]));
        },
        Property::Struct { struct_type, value, .. } => {
            let typed = names_after_optional(named, from, struct_type);
            lemma_names_after_properties_extend(typed, from, value@, value@.len() as int);
            lemma_prefix_chain(names, named, typed);
            lemma_prefix_chain(names, typed, names_after_property(names, from, p));
        },
        Property::Array { value, .. } => {
            lemma_names_after_properties_extend(named, from, value@, value@.len() as int);
            lemma_prefix_chain(names, named, names_after_property(names, from, p));
        },
        Property::Enum { value, enum_type, .. } => {
            let valued = names_after_optional(named, from, value);
            lemma_prefix_chain(names, named, valued);
            lemma_prefix_chain(names, valued, names_after_optional(valued, from, enum_type));
        },
        _ => {},
    }
}

/// Interning the names of properties only adds to the table.
pub proof fn lemma_names_after_properties_extend(
    names: Seq<Seq<char>>,
    from: Seq<Seq<char>>,
    ps: Seq<Property>,
    k: int,
)
    ensures
        names.is_prefix_of(names_after_properties(names, from, ps, k)),
    decreases ps, k,
{
    if k <= 0 || k > ps.len() {
    } else {
        let before = names_after_properties(names, from, ps, k - 1);
        lemma_names_after_properties_extend(names, from, ps, k - 1);
        lemma_names_after_property_extend(before, from, ps[k - 1]);
        lemma_prefix_chain(names, before, names_after_property(before, from, ps[k - 1]));
    }
}

/// Interning the names of a property keeps a table free of doubles.
pub proof fn lemma_names_after_property_distinct(
    names: Seq<Seq<char>>,
    from: Seq<Seq<char>>,
    p: Property,
)
    requires
        all_distinct(names),
    ensures
        all_distinct(names_after_property(names, from, p)),
    decreases p, 0int,
{
    let named = interned(names, from[p.spec_name().index as int]);
    lemma_intern_keeps_distinct(names, from[p.spec_name().index as int]);
    match p {
        Property::Name { value, .. } => {
            lemma_intern_keeps_distinct(named, from[value.index as int]);
        },
        Property::Struct { struct_type, value, .. } => {
            if let Some(t) = struct_type {
                lemma_intern_keeps_distinct(named, from[t.index as int]);
            }
            lemma_names_after_properties_distinct(
                names_after_optional(named, from, struct_type),
                from,
                value@,
                value@.len() as int,
            );
        },
        Property::Array { value, .. } => {
            lemma_names_after_properties_distinct(named, from, value@, value@.len() as int);
        },
        Property::Enum { value, enum_type, .. } => {
            if let Some(v) = value {
                lemma_intern_keeps_distinct(named, from[v.index as int]);
            }
            if let Some(t) = enum_type {
                lemma_intern_keeps_distinct(
                    names_after_optional(named, from, value),
                    from[t.index as int],
                );
            }
        },
        _ => {},
    }
}

/// Interning the names of properties keeps a table free of doubles.
pub proof fn lemma_names_after_properties_distinct(
    names: Seq<Seq<char>>,
    from: Seq<Seq<char>>,
    ps: Seq<Property>,
    k: int,
)
    requires
        all_distinct(names),
    ensures
        all_distinct(names_after_properties(names, from, ps, k)),
    decreases ps, k,
{
    if k <= 0 || k > ps.len() {
    } else {
        lemma_names_after_properties_distinct(names, from, ps, k - 1);
        lemma_names_after_property_distinct(
            names_after_properties(names, from, ps, k - 1),
            from,
            ps[k - 1],
        );
    }
}

/// A carried name stays carried when the table grows.
proof fn lemma_optional_name_carried_stable(
    from: Seq<Seq<char>>,
    to: Seq<Seq<char>>,
    longer: Seq<Seq<char>>,
    src: Option<NameRef>,
    dst: Option<NameRef>,
)
    requires
        optional_name_carried(from, to, src, dst),
        to.is_prefix_of(longer),
    ensures
        optional_name_carried(from, longer, src, dst),
{
    if let Some(s) = src {
        lemma_first_index_stable(to, longer, from[s.index as int], dst->0.index as int);
    }
}

/// A carried property stays carried when the table grows.
pub proof fn lemma_property_carried_stable(
    src: Property,
    dst: Property,
    from: Seq<Seq<char>>,
    to: Seq<Seq<char>>,
    longer: Seq<Seq<char>>,
    table: Map<i32, i32>,
)
    requires
        property_carried(src, dst, from, to, table),
        to.is_prefix_of(longer),
    ensures
        property_carried(src, dst, from, longer, table),
    decreases src,
{
    let name = src.spec_name();
    let name2 = dst.spec_name();
    lemma_first_index_stable(to, longer, from[name.index as int], name2.index as int);
    match (src, dst) {
        (Property::Name { value, .. }, Property::Name { value: value2, .. }) => {
            lemma_first_index_stable(to, longer, from[value.index as int], value2.index as int);
        },
        (
            Property::Struct { struct_type, value, .. },
            Property::Struct { struct_type: type2, value: value2, .. },
        ) => {
            lemma_optional_name_carried_stable(from, to, longer, struct_type, type2);
            lemma_properties_carried_stable(value@, value2@, from, to, longer, table);
        },
        (Property::Array { value, .. }, Property::Array { value: value2, .. }) => {
            lemma_properties_carried_stable(value@, value2@, from, to, longer, table);
        },
        (
            Property::Enum { value, enum_type, .. },
            Property::Enum { value: value2, enum_type: type2, .. },
        ) => {
            lemma_optional_name_carried_stable(from, to, longer, value, value2);
            lemma_optional_name_carried_stable(from, to, longer, enum_type, type2);
        },
        _ => {},
    }
}

/// Carried properties stay carried when the table grows.
pub proof fn lemma_properties_carried_stable(
    src: Seq<Property>,
    dst: Seq<Property>,
    from: Seq<Seq<char>>,
    to: Seq<Seq<char>>,
    longer: Seq<Seq<char>>,
    table: Map<i32, i32>,
)
    requires
        properties_carried(src, dst, from, to, table),
        to.is_prefix_of(longer),
    ensures
        properties_carried(src, dst, from, longer, table),
    decreases src,
{
    assert forall|i: int| 0 <= i < src.len() implies property_carried(
        #[trigger] src[i],
        dst[i],
        from,
        longer,
        table,
    ) by {
        assert(property_carried(src[i], dst[i], from, to, table));
        lemma_property_carried_stable(src[i], dst[i], from, to, longer, table);
    }
}

/// Every name of a carried property lies in the table it was carried into.
pub proof fn lemma_property_carried_valid(
    src: Property,
    dst: Property,
    from: Seq<Seq<char>>,
    to: Seq<Seq<char>>,
    table: Map<i32, i32>,
)
    requires
        property_carried(src, dst, from, to, table),
    ensures
        property_names_valid(dst, to.len() as int),
    decreases src,
{
    match (src, dst) {
        (Property::Struct { value, .. }, Property::Struct { value: value2, .. }) => {
            lemma_properties_carried_valid(value@, value2@, from, to, table);
        },
        (Property::Array { value, .. }, Property::Array { value: value2, .. }) => {
            lemma_properties_carried_valid(value@, value2@, from, to, table);
        },
        _ => {},
    }
}

/// Every name of carried properties lies in the table they were carried
/// into.
pub proof fn lemma_properties_carried_valid(
    src: Seq<Property>,
    dst: Seq<Property>,
    from: Seq<Seq<char>>,
    to: Seq<Seq<char>>,
    table: Map<i32, i32>,
)
    requires
        properties_carried(src, dst, from, to, table),
    ensures
        properties_names_valid(dst, to.len() as int),
    decreases src,
{
    assert forall|i: int| 0 <= i < dst.len() implies property_names_valid(
        #[trigger] dst[i],
        to.len() as int,
    ) by {
        assert(property_carried(src[i], dst[i], from, to, table));
        lemma_property_carried_valid(src[i], dst[i], from, to, table);
    }
}

/// A table that has grown twice has grown.
pub proof fn lemma_prefix_chain(a: Seq<Seq<char>>, b: Seq<Seq<char>>, c: Seq<Seq<char>>)
    requires
        a.is_prefix_of(b),
        b.is_prefix_of(c),
    ensures
        a.is_prefix_of(c),
{
    assert forall|i: int| 0 <= i < a.len() implies a[i] == c[i] by {
        assert(a[i] == b[i]);
    }
}

/// Interns the text of a name of `from` in `names`.
pub fn carry_name(from: &NameTable, names: &mut NameTable, name: NameRef) -> (out: NameRef)
    requires
        name.index < from@.len(),
    ensures
        final(names)@ == interned(old(names)@, from@[name.index as int]),
        old(names)@.is_prefix_of(final(names)@),
        name_carried(from@, final(names)@, name, out),
{
    match from.lookup(name) {
        Some(text) => names.intern(text),
        None => name,
    }
}

/// Interns the text of a name of `from` that may be missing in `names`.
pub fn carry_optional_name(from: &NameTable, names: &mut NameTable, name: &Option<NameRef>) -> (out:
    Option<NameRef>)
    requires
        optional_name_valid(*name, from@.len() as int),
    ensures
        final(names)@ == names_after_optional(old(names)@, from@, *name),
        old(names)@.is_prefix_of(final(names)@),
        optional_name_carried(from@, final(names)@, *name, out),
{
    match name {
        Some(n) => Some(carry_name(from, names, *n)),
        None => None,
    }
}

/// Carries a property over: interns its names in `names` and looks its
/// object references up in `table`.
pub fn carry_property(
    p: &Property,
    from: &NameTable,
    names: &mut NameTable,
    table: &HashMap<i32, i32>,
) -> (out: Property)
    requires
        property_names_valid(*p, from@.len() as int),
        property_supported(*p),
        property_mappable(*p, table@),
    ensures
        final(names)@ == names_after_property(old(names)@, from@, *p),
        old(names)@.is_prefix_of(final(names)@),
        property_carried(*p, out, from@, final(names)@, table@),
    decreases p,
{
    let ghost start = names@;
    match p {
        Property::Name { name, value } => {
            let name2 = carry_name(from, names, *name);
            let ghost named = names@;
            let value2 = carry_name(from, names, *value);
            proof {
                lemma_first_index_stable(
                    named,
                    names@,
                    from@[name.index as int],
                    name2.index as int,
                );
                lemma_prefix_chain(start, named, names@);
            }
            Property::Name { name: name2, value: value2 }
        },
        Property::Object { name, value } => {
            let name2 = carry_name(from, names, *name);
            Property::Object { name: name2, value: remap_unless_null(table, *value) }
        },
        Property::Struct { name, struct_type, value } => {
            let name2 = carry_name(from, names, *name);
            let ghost named = names@;
            let type2 = carry_optional_name(from, names, struct_type);
            let ghost typed = names@;
            let value2 = carry_properties(value, from, names, table);
            proof {
                lemma_prefix_chain(named, typed, names@);
                lemma_prefix_chain(start, named, names@);
                lemma_first_index_stable(
                    named,
                    names@,
                    from@[name.index as int],
                    name2.index as int,
                );
                lemma_optional_name_carried_stable(from@, typed, names@, *struct_type, type2);
            }
            Property::Struct { name: name2, struct_type: type2, value: value2 }
        },
        Property::Array { name, value } => {
            let name2 = carry_name(from, names, *name);
            let ghost named = names@;
            let value2 = carry_properties(value, from, names, table);
            proof {
                lemma_prefix_chain(start, named, names@);
                lemma_first_index_stable(
                    named,
                    names@,
                    from@[name.index as int],
                    name2.index as int,
                );
            }
            Property::Array { name: name2, value: value2 }
        },
        Property::Vector { name, x, y, z } => {
            let name2 = carry_name(from, names, *name);
            Property::Vector { name: name2, x: *x, y: *y, z: *z }
        },
        Property::Rotator { name, x, y, z } => {
            let name2 = carry_name(from, names, *name);
            Property::Rotator { name: name2, x: *x, y: *y, z: *z }
        },
        Property::Scalar { kind, name } => {
            let name2 = carry_name(from, names, *name);
            Property::Scalar { kind: *kind, name: name2 }
        },
        Property::Enum { name, value, enum_type } => {
            let name2 = carry_name(from, names, *name);
            let ghost named = names@;
            let value2 = carry_optional_name(from, names, value);
            let ghost valued = names@;
            let type2 = carry_optional_name(from, names, enum_type);
            proof {
                lemma_prefix_chain(named, valued, names@);
                lemma_prefix_chain(start, named, names@);
                lemma_first_index_stable(
                    named,
                    names@,
                    from@[name.index as int],
                    name2.index as int,
                );
                lemma_optional_name_carried_stable(from@, valued, names@, *value, value2);
            }
            Property::Enum { name: name2, value: value2, enum_type: type2 }
        },
        Property::Unsupported { name } => {
            proof {
                assert(false);
            }
            Property::Unsupported { name: *name }
        },
    }
}

/// Carries properties over, one after the other.
pub fn carry_properties(
    ps: &Vec<Property>,
    from: &NameTable,
    names: &mut NameTable,
    table: &HashMap<i32, i32>,
) -> (out: Vec<Property>)
    requires
        properties_names_valid(ps@, from@.len() as int),
        properties_supported(ps@),
        properties_mappable(ps@, table@),
    ensures
        final(names)@ == names_after_properties(old(names)@, from@, ps@, ps@.len() as int),
        old(names)@.is_prefix_of(final(names)@),
        properties_carried(ps@, out@, from@, final(names)@, table@),
    decreases ps,
{
    let ghost start = names@;
    let n = ps.len();
    let mut out: Vec<Property> = Vec::new();
    let mut i: usize = 0;
    while i < n
        invariant
            i <= n,
            n == ps@.len(),
            properties_names_valid(ps@, from@.len() as int),
            properties_supported(ps@),
            properties_mappable(ps@, table@),
            names@ == names_after_properties(start, from@, ps@, i as int),
            start.is_prefix_of(names@),
            out@.len() == i,
            forall|j: int|
                #![trigger ps@[j]]
                #![trigger out@[j]]
                0 <= j < i ==> property_carried(ps@[j], out@[j], from@, names@, table@),
        decreases n - i,
    {
        let ghost before = names@;
        let ghost done = out@;
        assert(property_names_valid(ps@[i as int], from@.len() as int));
        assert(property_supported(ps@[i as int]));
        assert(property_mappable(ps@[i as int], table@));
        let q = carry_property(&ps[i], from, names, table);
        out.push(q);
        proof {
            lemma_prefix_chain(start, before, names@);
            assert forall|j: int|
                #![trigger ps@[j]]
                #![trigger out@[j]]
                0 <= j < i + 1 implies property_carried(
                ps@[j],
                out@[j],
                from@,
                names@,
                table@,
            ) by {
                if j < i {
                    assert(out@[j] == done[j]);
                    assert(property_carried(ps@[j], done[j], from@, before, table@));
                    lemma_property_carried_stable(
                        ps@[j],
                        done[j],
                        from@,
                        before,
                        names@,
                        table@,
                    );
                }
            }
        }
        i = i + 1;
    }
    out
}

/// The payload was kept as it was.
pub open spec fn payload_kept(src: Payload, dst: Payload) -> bool {
    match src {
        Payload::Normal => dst is Normal,
        Payload::Level { actors } => dst matches Payload::Level { actors: actors2 } && actors2@
            == actors@,
    }
}

/// `dst` is `src` carried over: every name carried over, every reference of
/// the record and of its dependency lists replaced by what the table holds
/// for it, or kept where the table holds nothing, the properties carried
/// over, and the payload as it was.
pub open spec fn export_carried(
    src: Export,
    dst: Export,
    from: Seq<Seq<char>>,
    to: Seq<Seq<char>>,
    table: Map<i32, i32>,
) -> bool {
    &&& name_carried(from, to, src.object_name, dst.object_name)
    &&& dst.class_index == mapped_or_same(table, src.class_index)
    &&& dst.super_index == mapped_or_same(table, src.super_index)
    &&& dst.template_index == mapped_or_same(table, src.template_index)
    &&& dst.outer_index == mapped_or_same(table, src.outer_index)
    &&& references_mapped(
        src.create_before_serialization@,
        dst.create_before_serialization@,
        table,
    )
    &&& references_mapped(
        src.serialization_before_create@,
        dst.serialization_before_create@,
        table,
    )
    &&& references_mapped(src.create_before_create@, dst.create_before_create@, table)
    &&& properties_carried(src.properties@, dst.properties@, from, to, table)
    &&& payload_kept(src.payload, dst.payload)
}

/// The table `names` after the names of an export were interned in it: the
/// name of the export, then the names of its properties.
pub open spec fn names_after_export(names: Seq<Seq<char>>, from: Seq<Seq<char>>, e: Export)
    -> Seq<Seq<char>> {
    names_after_properties(
        interned(names, from[e.object_name.index as int]),
        from,
        e.properties@,
        e.properties@.len() as int,
    )
}

/// Interning the names of an export only adds to the table.
pub proof fn lemma_names_after_export_extend(names: Seq<Seq<char>>, from: Seq<Seq<char>>, e: Export)
    ensures
        names.is_prefix_of(names_after_export(names, from, e)),
{
    let named = interned(names, from[e.object_name.index as int]);
    lemma_names_after_properties_extend(named, from, e.properties@, e.properties@.len() as int);
    lemma_prefix_chain(names, named, names_after_export(names, from, e));
}

/// A carried export stays carried when the table grows.
pub proof fn lemma_export_carried_stable(
    src: Export,
    dst: Export,
    from: Seq<Seq<char>>,
    to: Seq<Seq<char>>,
    longer: Seq<Seq<char>>,
    table: Map<i32, i32>,
)
    requires
        export_carried(src, dst, from, to, table),
        to.is_prefix_of(longer),
    ensures
        export_carried(src, dst, from, longer, table),
{
    lemma_first_index_stable(
        to,
        longer,
        from[src.object_name.index as int],
        dst.object_name.index as int,
    );
    lemma_properties_carried_stable(src.properties@, dst.properties@, from, to, longer, table);
}

/// Every name of a carried export lies in the table it was carried into.
pub proof fn lemma_export_carried_valid(
    src: Export,
    dst: Export,
    from: Seq<Seq<char>>,
    to: Seq<Seq<char>>,
    table: Map<i32, i32>,
)
    requires
        export_carried(src, dst, from, to, table),
    ensures
        dst.names_valid(to.len() as int),
{
    lemma_properties_carried_valid(src.properties@, dst.properties@, from, to, table);
}

fn copy_references(src: &Vec<RefIndex>) -> (dst: Vec<RefIndex>)
    ensures
        dst@ == src@,
{
    let n = src.len();
    let mut dst: Vec<RefIndex> = Vec::new();
    let mut i: usize = 0;
    while i < n
        invariant
            i <= n,
            n == src@.len(),
            dst@ == src@.take(i as int),
        decreases n - i,
    {
        dst.push(src[i]);
        assert(dst@ =~= src@.take(i + 1));
        i = i + 1;
    }
    assert(src@.take(n as int) =~= src@);
    dst
}

/// Carries an export over.
pub fn carry_export(
    e: &Export,
    from: &NameTable,
    names: &mut NameTable,
    table: &HashMap<i32, i32>,
) -> (out: Export)
    requires
        e.names_valid(from@.len() as int),
        properties_supported(e.properties@),
        properties_mappable(e.properties@, table@),
    ensures
        final(names)@ == names_after_export(old(names)@, from@, *e),
        old(names)@.is_prefix_of(final(names)@),
        export_carried(*e, out, from@, final(names)@, table@),
{
    let ghost start = names@;
    let object_name = carry_name(from, names, e.object_name);
    let ghost named = names@;
    let properties = carry_properties(&e.properties, from, names, table);
    proof {
        lemma_prefix_chain(start, named, names@);
        lemma_first_index_stable(
            named,
            names@,
            from@[e.object_name.index as int],
            object_name.index as int,
        );
    }
    let payload = match &e.payload {
        Payload::Normal => Payload::Normal,
        Payload::Level { actors } => Payload::Level { actors: copy_references(actors) },
    };
    Export {
        object_name,
        class_index: remap_or_keep(table, e.class_index),
        super_index: remap_or_keep(table, e.super_index),
        template_index: remap_or_keep(table, e.template_index),
        outer_index: remap_or_keep(table, e.outer_index),
        create_before_serialization: remap_all(table, &e.create_before_serialization),
        serialization_before_create: remap_all(table, &e.serialization_before_create),
        create_before_create: remap_all(table, &e.create_before_create),
        properties,
        payload,
    }
}

/// `dst` is `src` carried over: every name carried over, and the reference
/// to the parent looked up in the table unless it is null.
pub open spec fn import_carried(
    src: Import,
    dst: Import,
    from: Seq<Seq<char>>,
    to: Seq<Seq<char>>,
    table: Map<i32, i32>,
) -> bool {
    &&& name_carried(from, to, src.class_package, dst.class_package)
    &&& name_carried(from, to, src.class_name, dst.class_name)
    &&& name_carried(from, to, src.object_name, dst.object_name)
    &&& dst.outer_index == mapped_unless_null(table, src.outer_index)
}

/// The table `names` after the names of an import were interned in it: the
/// package of its class, the name of its class, its own name.
pub open spec fn names_after_import(names: Seq<Seq<char>>, from: Seq<Seq<char>>, i: Import)
    -> Seq<Seq<char>> {
    interned(
        interned(
            interned(names, from[i.class_package.index as int]),
            from[i.class_name.index as int],
        ),
        from[i.object_name.index as int],
    )
}

/// Interning the names of an import only adds to the table.
pub proof fn lemma_names_after_import_extend(names: Seq<Seq<char>>, from: Seq<Seq<char>>, i: Import)
    ensures
        names.is_prefix_of(names_after_import(names, from, i)),
{
    let first = interned(names, from[i.class_package.index as int]);
    let second = interned(first, from[i.class_name.index as int]);
    lemma_prefix_chain(names, first, second);
    lemma_prefix_chain(names, second, names_after_import(names, from, i));
}

/// A carried import stays carried when the table grows.
pub proof fn lemma_import_carried_stable(
    src: Import,
    dst: Import,
    from: Seq<Seq<char>>,
    to: Seq<Seq<char>>,
    longer: Seq<Seq<char>>,
    table: Map<i32, i32>,
)
    requires
        import_carried(src, dst, from, to, table),
        to.is_prefix_of(longer),
    ensures
        import_carried(src, dst, from, longer, table),
{
    lemma_first_index_stable(
        to,
        longer,
        from[src.class_package.index as int],
        dst.class_package.index as int,
    );
    lemma_first_index_stable(
        to,
        longer,
        from[src.class_name.index as int],
        dst.class_name.index as int,
    );
    lemma_first_index_stable(
        to,
        longer,
        from[src.object_name.index as int],
        dst.object_name.index as int,
    );
}

/// Carries an import over.
pub fn carry_import(
    i: &Import,
    from: &NameTable,
    names: &mut NameTable,
    table: &HashMap<i32, i32>,
) -> (out: Import)
    requires
        i.names_valid(from@.len() as int),
        mappable(table@, i.outer_index),
    ensures
        final(names)@ == names_after_import(old(names)@, from@, *i),
        old(names)@.is_prefix_of(final(names)@),
        import_carried(*i, out, from@, final(names)@, table@),
{
    let ghost start = names@;
    let class_package = carry_name(from, names, i.class_package);
    let ghost first = names@;
    let class_name = carry_name(from, names, i.class_name);
    let ghost second = names@;
    let object_name = carry_name(from, names, i.object_name);
    proof {
        lemma_prefix_chain(first, second, names@);
        lemma_prefix_chain(start, first, names@);
        lemma_first_index_stable(
            first,
            names@,
            from@[i.class_package.index as int],
            class_package.index as int,
        );
        lemma_first_index_stable(
            second,
            names@,
            from@[i.class_name.index as int],
            class_name.index as int,
        );
    }
    Import {
        class_package,
        class_name,
        object_name,
        outer_index: remap_unless_null(table, i.outer_index),
    }
}

} // verus!
