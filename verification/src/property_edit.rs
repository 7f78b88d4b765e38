//! Overwriting the value of a single property, selected by a path.
//!
//! An edit is written as `index.field=value` or `index.struct.field=value`:
//! the index of an export counted from one, the name of a property of that
//! export or of a struct property and a property in it, and either one token
//! or three tokens separated by commas.

use vstd::prelude::*;
use vstd::string::*;
use crate::error::EditError;
use crate::graph::{AssetGraph, Export};
use crate::name_table::{interned, is_first_index, NameRef, NameTable};
use crate::property::{
    lemma_properties_names_valid_grows,
    properties_names_valid,
    property_names_valid,
    Property,
};
use crate::reference::RefIndex;
use crate::text::{
    decimal_i32,
    parse_decimal_i32,
    position_of,
    split_first,
    split_on,
    split_text,
    texts,
};

verus! {

/// The value of an edit as it was written.
#[derive(Debug, PartialEq, Eq)]
pub enum EditValue {
    /// One token: a name.
    Name(String),
    /// Three tokens: the components of a vector or a rotator.
    Vector(String, String, String),
}

/// An edit as it was written: the export, the path to the property, and
/// the value.
#[derive(Debug, PartialEq, Eq)]
pub struct PropertyEdit {
    pub export: RefIndex,
    /// One name, or the name of a struct property and a name in it.
    pub path: Vec<String>,
    pub value: EditValue,
}

impl EditValue {
    /// The tokens of the value.
    pub open spec fn tokens(self) -> Seq<Seq<char>> {
        match self {
            EditValue::Name(t) => seq![t@],
            EditValue::Vector(x, y, z) => seq![x@, y@, z@],
        }
    }
}

/// The parts of an edit: the index of the export, the path, and the tokens
/// of the value. `None` where the text holds no `=`, where the value is not
/// made of one or three tokens, where the left side is not made of two or
/// three parts, or where its first part is no number.
pub open spec fn edit_parts(s: Seq<char>) -> Option<(i32, Seq<Seq<char>>, Seq<Seq<char>>)> {
    let cut = position_of(s, '=');
    let left = split_on(s.take(cut), '.');
    let right = split_on(s.skip(cut + 1), ',');
    if cut >= s.len() {
        None
    } else if right.len() != 1 && right.len() != 3 {
        None
    } else if left.len() != 2 && left.len() != 3 {
        None
    } else {
        match decimal_i32(left[0]) {
            None => None,
            Some(v) => Some((v, left.skip(1), right)),
        }
    }
}

/// Reads an edit.
pub fn parse_edit(expression: &str) -> (parsed: Result<PropertyEdit, EditError>)
    ensures
        match parsed {
            Ok(edit) => edit_parts(expression@) == Some(
                (edit.export.index, texts(edit.path@), edit.value.tokens()),
            ),
            Err(e) => e == EditError::MalformedExpression && edit_parts(expression@) is None,
        },
{
    let (left_text, right_text) = match split_first(expression, '=') {
        Some(parts) => parts,
        None => {
            return Err(EditError::MalformedExpression);
        },
    };
    let left = split_text(left_text.as_str(), '.');
    let right = split_text(right_text.as_str(), ',');
    let value = if right.len() == 1 {
        let v = EditValue::Name(right[0].clone());
        assert(v.tokens() =~= texts(right@));
        v
    } else if right.len() == 3 {
        let v = EditValue::Vector(right[0].clone(), right[1].clone(), right[2].clone());
        assert(v.tokens() =~= texts(right@));
        v
    } else {
        return Err(EditError::MalformedExpression);
    };
    if left.len() != 2 && left.len() != 3 {
        return Err(EditError::MalformedExpression);
    }
    let index = match parse_decimal_i32(left[0].as_str()) {
        Some(v) => v,
        None => {
            return Err(EditError::MalformedExpression);
        },
    };
    let mut path: Vec<String> = Vec::new();
    path.push(left[1].clone());
    if left.len() == 3 {
        path.push(left[2].clone());
    }
    assert(texts(path@) =~= texts(left@).skip(1));
    Ok(PropertyEdit { export: RefIndex { index }, path, value })
}

/// The value that an edit puts in place.
#[derive(Debug, PartialEq, Eq)]
pub enum NewValue {
    /// A name, by its text.
    Name(String),
    /// Three components, each as the 64 bits of a double.
    Vector { x: u64, y: u64, z: u64 },
}

/// The property is known by the text `field`.
pub open spec fn property_named(names: Seq<Seq<char>>, p: Property, field: Seq<char>) -> bool {
    names[p.spec_name().index as int] == field
}

/// The property can take the value: a name property takes a name, a vector
/// or a rotator takes three components.
pub open spec fn accepts(p: Property, value: NewValue) -> bool {
    match value {
        NewValue::Name(_) => p is Name,
        NewValue::Vector { .. } => p is Vector || p is Rotator,
    }
}

/// `i` is the first position of a struct property named `field`.
pub open spec fn is_first_struct(
    names: Seq<Seq<char>>,
    ps: Seq<Property>,
    field: Seq<char>,
    i: int,
) -> bool {
    &&& 0 <= i < ps.len()
    &&& ps[i] is Struct
    &&& property_named(names, ps[i], field)
    &&& forall|j: int|
        0 <= j < i ==> !((#[trigger] ps[j]) is Struct && property_named(names, ps[j], field))
}

/// `i` is the first position of a property named `field` that can take the
/// value.
pub open spec fn is_first_target(
    names: Seq<Seq<char>>,
    ps: Seq<Property>,
    field: Seq<char>,
    value: NewValue,
    i: int,
) -> bool {
    &&& 0 <= i < ps.len()
    &&& property_named(names, ps[i], field)
    &&& accepts(ps[i], value)
    &&& forall|j: int|
        0 <= j < i ==> !(property_named(names, #[trigger] ps[j], field) && accepts(ps[j], value))
}

/// The properties hold a struct property named `field`.
pub open spec fn has_struct(names: Seq<Seq<char>>, ps: Seq<Property>, field: Seq<char>) -> bool {
    exists|i: int| is_first_struct(names, ps, field, i)
}

/// The properties hold a property named `field` that can take the value.
pub open spec fn has_target(
    names: Seq<Seq<char>>,
    ps: Seq<Property>,
    field: Seq<char>,
    value: NewValue,
) -> bool {
    exists|i: int| is_first_target(names, ps, field, value, i)
}

/// The first position of a struct property named `field`.
pub open spec fn first_struct(names: Seq<Seq<char>>, ps: Seq<Property>, field: Seq<char>) -> int {
    choose|i: int| is_first_struct(names, ps, field, i)
}

/// The first position of a property named `field` that can take the value.
pub open spec fn first_target(
    names: Seq<Seq<char>>,
    ps: Seq<Property>,
    field: Seq<char>,
    value: NewValue,
) -> int {
    choose|i: int| is_first_target(names, ps, field, value, i)
}

/// There is one first struct property of a name at most.
pub proof fn lemma_first_struct(names: Seq<Seq<char>>, ps: Seq<Property>, field: Seq<char>, i: int)
    requires
        is_first_struct(names, ps, field, i),
    ensures
        has_struct(names, ps, field),
        first_struct(names, ps, field) == i,
{
    let c = first_struct(names, ps, field);
    assert(is_first_struct(names, ps, field, c));
    if c < i {
        assert(ps[c] is Struct);
    } else if i < c {
        assert(ps[i] is Struct);
    }
}

/// There is one first property that an edit aims at, at most.
pub proof fn lemma_first_target(
    names: Seq<Seq<char>>,
    ps: Seq<Property>,
    field: Seq<char>,
    value: NewValue,
    i: int,
)
    requires
        is_first_target(names, ps, field, value, i),
    ensures
        has_target(names, ps, field, value),
        first_target(names, ps, field, value) == i,
{
    let c = first_target(names, ps, field, value);
    assert(is_first_target(names, ps, field, value, c));
    if c < i {
        assert(accepts(ps[c], value));
    } else if i < c {
        assert(accepts(ps[i], value));
    }
}

/// The properties that a property holds: those of a struct or of an array,
/// none for any other kind.
pub open spec fn children(p: Property) -> Seq<Property> {
    match p {
        Property::Struct { value, .. } => value@,
        Property::Array { value, .. } => value@,
        _ => Seq::empty(),
    }
}

/// Why an edit is refused, or `None` where it can be made.
///
/// The path must hold one or two names, else the edit is malformed, and the
/// reference must select an export, else it is a selector that names none.
/// With two names the first must name a struct property of the export, else
/// the struct is not found, and the edit is made in the properties of the
/// first such struct; with one name it is made in the properties of the
/// export. There the last name of the path must name a property that can
/// take the value, else the property is not found.
pub open spec fn edit_refusal(g: AssetGraph, export: RefIndex, path: Seq<Seq<char>>, value: NewValue)
    -> Option<EditError> {
    if path.len() != 1 && path.len() != 2 {
        Some(EditError::MalformedExpression)
    } else if !g.has_export(export) {
        Some(EditError::AmbiguousRootSelector)
    } else {
        let ps = g.export_at(export).properties@;
        if path.len() == 2 {
            if !has_struct(g.names@, ps, path[0]) {
                Some(EditError::StructNotFound)
            } else if !has_target(
                g.names@,
                children(ps[first_struct(g.names@, ps, path[0])]),
                path[1],
                value,
            ) {
                Some(EditError::PropertyNotFound)
            } else {
                None
            }
        } else if !has_target(g.names@, ps, path[0], value) {
            Some(EditError::PropertyNotFound)
        } else {
            None
        }
    }
}

/// The table of names after the edit: with the text of a name value
/// interned, else as it was.
pub open spec fn names_after_edit(names: Seq<Seq<char>>, value: NewValue) -> Seq<Seq<char>> {
    match value {
        NewValue::Name(text) => interned(names, text@),
        NewValue::Vector { .. } => names,
    }
}

/// `after` is the property `before` with the value put in place: a name
/// property holds the name of the text in the table `names`, a vector or a
/// rotator holds the three components. The name of the property is as it
/// was.
pub open spec fn value_set(before: Property, after: Property, value: NewValue, names: Seq<Seq<char>>)
    -> bool {
    match value {
        NewValue::Name(text) => {
            &&& before matches Property::Name { name, .. }
            &&& after matches Property::Name { name: name2, value: value2 }
            &&& name2 == name
            &&& is_first_index(names, text@, value2.index as int)
        },
        NewValue::Vector { x, y, z } => match before {
            Property::Vector { name, .. } => after == (Property::Vector { name, x, y, z }),
            Property::Rotator { name, .. } => after == (Property::Rotator { name, x, y, z }),
            _ => false,
        },
    }
}

/// `after` holds the properties of `before` with the value put in place at
/// position `i`, and every other property as it was.
pub open spec fn list_edited(
    before: Seq<Property>,
    after: Seq<Property>,
    i: int,
    value: NewValue,
    names: Seq<Seq<char>>,
) -> bool {
    &&& 0 <= i < before.len()
    &&& after.len() == before.len()
    &&& forall|j: int| 0 <= j < before.len() && j != i ==> #[trigger] after[j] == before[j]
    &&& value_set(before[i], after[i], value, names)
}

/// `after` holds the properties of `before`, with the edit made in the
/// struct property at position `s`: the struct has its name and type as
/// before, and its own properties are edited at position `i`.
pub open spec fn struct_edited(
    before: Seq<Property>,
    after: Seq<Property>,
    s: int,
    i: int,
    value: NewValue,
    names: Seq<Seq<char>>,
) -> bool {
    &&& 0 <= s < before.len()
    &&& after.len() == before.len()
    &&& forall|j: int| 0 <= j < before.len() && j != s ==> #[trigger] after[j] == before[j]
    &&& before[s] matches Property::Struct { name, struct_type, value: inner }
    &&& after[s] matches Property::Struct { name: name2, struct_type: type2, value: inner2 }
    &&& name2 == name
    &&& type2 == struct_type
    &&& list_edited(inner@, inner2@, i, value, names)
}

/// `after` is the export `before` with its properties replaced; nothing
/// else has changed.
pub open spec fn same_but_properties(before: Export, after: Export) -> bool {
    &&& after.object_name == before.object_name
    &&& after.class_index == before.class_index
    &&& after.super_index == before.super_index
    &&& after.template_index == before.template_index
    &&& after.outer_index == before.outer_index
    &&& after.create_before_serialization == before.create_before_serialization
    &&& after.serialization_before_create == before.serialization_before_create
    &&& after.create_before_create == before.create_before_create
    &&& after.payload == before.payload
}

/// `after` is `before` with the edit made: the value stands in the first
/// property that the path leads to, the table of names has the text of a
/// name value, and nothing else has changed.
pub open spec fn edited(
    before: AssetGraph,
    after: AssetGraph,
    export: RefIndex,
    path: Seq<Seq<char>>,
    value: NewValue,
) -> bool {
    let e = export.index - 1;
    let ps = before.exports@[e].properties@;
    let qs = after.exports@[e].properties@;
    &&& after.names@ == names_after_edit(before.names@, value)
    &&& after.imports == before.imports
    &&& after.exports@.len() == before.exports@.len()
    &&& forall|j: int|
        0 <= j < before.exports@.len() && j != e ==> #[trigger] after.exports@[j]
            == before.exports@[j]
    &&& same_but_properties(before.exports@[e], after.exports@[e])
    &&& if path.len() == 2 {
        let s = first_struct(before.names@, ps, path[0]);
        struct_edited(
            ps,
            qs,
            s,
            first_target(before.names@, children(ps[s]), path[1], value),
            value,
            after.names@,
        )
    } else {
        list_edited(ps, qs, first_target(before.names@, ps, path[0], value), value, after.names@)
    }
}

/// The first struct property named `field`.
fn find_struct(names: &NameTable, ps: &Vec<Property>, field: &String) -> (found: Option<usize>)
    requires
        properties_names_valid(ps@, names@.len() as int),
    ensures
        match found {
            Some(i) => is_first_struct(names@, ps@, field@, i as int),
            None => !has_struct(names@, ps@, field@),
        },
{
    let n = ps.len();
    let mut i: usize = 0;
    while i < n
        invariant
            i <= n,
            n == ps@.len(),
            properties_names_valid(ps@, names@.len() as int),
            forall|j: int|
                0 <= j < i ==> !((#[trigger] ps@[j]) is Struct && property_named(
                    names@,
                    ps@[j],
                    field@,
                )),
        decreases n - i,
    {
        assert(property_names_valid(ps@[i as int], names@.len() as int));
        let is_struct = match &ps[i] {
            Property::Struct { .. } => true,
            _ => false,
        };
        if is_struct && names.resolves_to(ps[i].name(), field) {
            return Some(i);
        }
        i = i + 1;
    }
    assert forall|k: int| !is_first_struct(names@, ps@, field@, k) by {
        if 0 <= k < n {
            assert(!(ps@[k] is Struct && property_named(names@, ps@[k], field@)));
        }
    }
    None
}

/// Whether the property can take the value.
fn can_take(p: &Property, value: &NewValue) -> (b: bool)
    ensures
        b == accepts(*p, *value),
{
    match value {
        NewValue::Name(_) => match p {
            Property::Name { .. } => true,
            _ => false,
        },
        NewValue::Vector { .. } => match p {
            Property::Vector { .. } => true,
            Property::Rotator { .. } => true,
            _ => false,
        },
    }
}

/// The first property named `field` that can take the value.
fn find_target(names: &NameTable, ps: &Vec<Property>, field: &String, value: &NewValue) -> (found:
    Option<usize>)
    requires
        properties_names_valid(ps@, names@.len() as int),
    ensures
        match found {
            Some(i) => is_first_target(names@, ps@, field@, *value, i as int),
            None => !has_target(names@, ps@, field@, *value),
        },
{
    let n = ps.len();
    let mut i: usize = 0;
    while i < n
        invariant
            i <= n,
            n == ps@.len(),
            properties_names_valid(ps@, names@.len() as int),
            forall|j: int|
                0 <= j < i ==> !(property_named(names@, #[trigger] ps@[j], field@) && accepts(
                    ps@[j],
                    *value,
                )),
        decreases n - i,
    {
        assert(property_names_valid(ps@[i as int], names@.len() as int));
        if can_take(&ps[i], value) && names.resolves_to(ps[i].name(), field) {
            return Some(i);
        }
        i = i + 1;
    }
    assert forall|k: int| !is_first_target(names@, ps@, field@, *value, k) by {
        if 0 <= k < n {
            assert(!(property_named(names@, ps@[k], field@) && accepts(ps@[k], *value)));
        }
    }
    None
}

/// Puts the value in place. `name` is the name of the text of a name value.
fn set_value(p: &mut Property, value: &NewValue, name: NameRef, Ghost(names): Ghost<Seq<Seq<char>>>)
    requires
        accepts(*old(p), *value),
        value matches NewValue::Name(text) ==> is_first_index(names, text@, name.index as int),
    ensures
        value_set(*old(p), *final(p), *value, names),
{
    match value {
        NewValue::Name(_) => match p {
            Property::Name { value: held, .. } => {
                *held = name;
            },
            _ => {},
        },
        NewValue::Vector { x, y, z } => match p {
            Property::Vector { x: px, y: py, z: pz, .. } => {
                *px = *x;
                *py = *y;
                *pz = *z;
            },
            Property::Rotator { x: px, y: py, z: pz, .. } => {
                *px = *x;
                *py = *y;
                *pz = *z;
            },
            _ => {},
        },
    }
}

/// Puts the value in place at position `i` of the properties.
fn set_in_list(
    ps: &mut Vec<Property>,
    i: usize,
    value: &NewValue,
    name: NameRef,
    Ghost(names): Ghost<Seq<Seq<char>>>,
)
    requires
        i < old(ps)@.len(),
        accepts(old(ps)@[i as int], *value),
        value matches NewValue::Name(text) ==> is_first_index(names, text@, name.index as int),
    ensures
        list_edited(old(ps)@, final(ps)@, i as int, *value, names),
{
    set_value(&mut ps[i], value, name, Ghost(names));
}

/// Puts the value in place at position `i` of the properties of the struct
/// property at position `s`.
fn set_in_struct(
    ps: &mut Vec<Property>,
    s: usize,
    i: usize,
    value: &NewValue,
    name: NameRef,
    Ghost(names): Ghost<Seq<Seq<char>>>,
)
    requires
        s < old(ps)@.len(),
        old(ps)@[s as int] is Struct,
        i < children(old(ps)@[s as int]).len(),
        accepts(children(old(ps)@[s as int])[i as int], *value),
        value matches NewValue::Name(text) ==> is_first_index(names, text@, name.index as int),
    ensures
        struct_edited(old(ps)@, final(ps)@, s as int, i as int, *value, names),
{
    match &mut ps[s] {
        Property::Struct { value: inner, .. } => {
            set_in_list(inner, i, value, name, Ghost(names));
        },
        _ => {},
    }
}

/// Names of edited properties lie in the table of names, if those of the
/// properties did before.
proof fn lemma_list_edited_valid(
    before: Seq<Property>,
    after: Seq<Property>,
    i: int,
    value: NewValue,
    names: Seq<Seq<char>>,
    fewer: int,
)
    requires
        list_edited(before, after, i, value, names),
        properties_names_valid(before, fewer),
        fewer <= names.len(),
    ensures
        properties_names_valid(after, names.len() as int),
{
    lemma_properties_names_valid_grows(before, fewer, names.len() as int);
    assert forall|j: int| 0 <= j < after.len() implies property_names_valid(
        #[trigger] after[j],
        names.len() as int,
    ) by {
        assert(property_names_valid(before[j], names.len() as int));
        if j != i {
            assert(after[j] == before[j]);
        }
    }
}

proof fn lemma_struct_edited_valid(
    before: Seq<Property>,
    after: Seq<Property>,
    s: int,
    i: int,
    value: NewValue,
    names: Seq<Seq<char>>,
    fewer: int,
)
    requires
        struct_edited(before, after, s, i, value, names),
        properties_names_valid(before, fewer),
        fewer <= names.len(),
    ensures
        properties_names_valid(after, names.len() as int),
{
    lemma_properties_names_valid_grows(before, fewer, names.len() as int);
    assert forall|j: int| 0 <= j < after.len() implies property_names_valid(
        #[trigger] after[j],
        names.len() as int,
    ) by {
        assert(property_names_valid(before[j], names.len() as int));
        assert(property_names_valid(before[j], fewer));
        if j != s {
            assert(after[j] == before[j]);
        } else {
            lemma_list_edited_valid(
                children(before[s]),
                children(after[s]),
                i,
                value,
                names,
                fewer,
            );
        }
    }
}

/// Where an edit was made, and the name that it put in place.
#[derive(Clone, Copy, Debug, PartialEq, Eq)]
pub struct Edited {
    /// The position of the struct property that the path led through, if it
    /// led through one.
    pub inside: Option<usize>,
    /// The position of the property that was overwritten, in the properties
    /// of the struct or of the export.
    pub position: usize,
    /// The name that a name value was resolved to.
    pub name: Option<NameRef>,
}

/// The name that the edit puts in place is the name of the text of a name
/// value in the table `names`; an edit of components puts no name in place.
pub open spec fn name_resolved(value: NewValue, names: Seq<Seq<char>>, name: Option<NameRef>)
    -> bool {
    match value {
        NewValue::Name(text) => name matches Some(r) && is_first_index(
            names,
            text@,
            r.index as int,
        ),
        NewValue::Vector { .. } => name is None,
    }
}

/// The place at which an edit that is not refused is made: the struct
/// property that the path leads through, if it leads through one, and the
/// property that is overwritten.
pub open spec fn edit_place(g: AssetGraph, export: RefIndex, path: Seq<Seq<char>>, value: NewValue)
    -> (Option<usize>, usize) {
    let ps = g.export_at(export).properties@;
    if path.len() == 2 {
        let s = first_struct(g.names@, ps, path[0]);
        (Some(s as usize), first_target(g.names@, children(ps[s]), path[1], value) as usize)
    } else {
        (None, first_target(g.names@, ps, path[0], value) as usize)
    }
}

/// Overwrites the value of the property that the path leads to.
///
/// `path` holds the name of a property of the export, or the name of a
/// struct property of the export and the name of a property in it. The
/// first property of that name that can take the value is overwritten.
/// Returns the place of that property. On failure the graph is as it was.
pub fn edit_property(
    graph: &mut AssetGraph,
    export: RefIndex,
    path: &Vec<String>,
    value: &NewValue,
) -> (result: Result<Edited, EditError>)
    requires
        old(graph).wf(),
    ensures
        final(graph).wf(),
        match result {
            Ok(place) => edit_refusal(*old(graph), export, texts(path@), *value) is None && edited(
                *old(graph),
                *final(graph),
                export,
                texts(path@),
                *value,
            ) && (place.inside, place.position) == edit_place(
                *old(graph),
                export,
                texts(path@),
                *value,
            ) && name_resolved(*value, final(graph).names@, place.name),
            Err(e) => edit_refusal(*old(graph), export, texts(path@), *value) == Some(e)
                && *final(graph) == *old(graph),
        },
{
    let ghost before = *graph;
    let ghost fields = texts(path@);
    if path.len() != 1 && path.len() != 2 {
        return Err(EditError::MalformedExpression);
    }
    let position = match export.export_position() {
        Some(p) => p,
        None => {
            return Err(EditError::AmbiguousRootSelector);
        },
    };
    if position >= graph.exports.len() {
        return Err(EditError::AmbiguousRootSelector);
    }
    assert(before.exports@[position as int].names_valid(before.names@.len() as int));
    let ghost ps = before.exports@[position as int].properties@;
    let mut inside: Option<usize> = None;
    let target: usize;
    if path.len() == 2 {
        assert(fields[0] == path@[0]@ && fields[1] == path@[1]@);
        let s = match find_struct(&graph.names, &graph.exports[position].properties, &path[0]) {
            Some(s) => s,
            None => {
                return Err(EditError::StructNotFound);
            },
        };
        proof {
            lemma_first_struct(before.names@, ps, fields[0], s as int);
            assert(property_names_valid(ps[s as int], before.names@.len() as int));
        }
        let found = match &graph.exports[position].properties[s] {
            Property::Struct { value: inner, .. } => find_target(
                &graph.names,
                inner,
                &path[1],
                value,
            ),
            _ => None,
        };
        target = match found {
            Some(i) => i,
            None => {
                return Err(EditError::PropertyNotFound);
            },
        };
        proof {
            lemma_first_target(
                before.names@,
                children(ps[s as int]),
                fields[1],
                *value,
                target as int,
            );
        }
        inside = Some(s);
    } else {
        assert(fields[0] == path@[0]@);
        target = match find_target(
            &graph.names,
            &graph.exports[position].properties,
            &path[0],
            value,
        ) {
            Some(i) => i,
            None => {
                return Err(EditError::PropertyNotFound);
            },
        };
        proof {
            lemma_first_target(before.names@, ps, fields[0], *value, target as int);
        }
    }
    assert(edit_refusal(before, export, fields, *value) is None);
    let resolved = match value {
        NewValue::Name(text) => Some(graph.names.intern(text.as_str())),
        NewValue::Vector { .. } => None,
    };
    let name = match resolved {
        Some(r) => r,
        None => NameRef { index: 0 },
    };
    let ghost names = graph.names@;
    proof {
        if let NewValue::Name(text) = value {
            crate::name_table::lemma_intern_keeps_entries(before.names@, text@);
        }
    }
    match inside {
        Some(s) => {
            set_in_struct(
                &mut graph.exports[position].properties,
                s,
                target,
                value,
                name,
                Ghost(names),
            );
            proof {
                lemma_struct_edited_valid(
                    ps,
                    graph.exports@[position as int].properties@,
                    s as int,
                    target as int,
                    *value,
                    names,
                    before.names@.len() as int,
                );
            }
        },
        None => {
            set_in_list(&mut graph.exports[position].properties, target, value, name, Ghost(names));
            proof {
                lemma_list_edited_valid(
                    ps,
                    graph.exports@[position as int].properties@,
                    target as int,
                    *value,
                    names,
                    before.names@.len() as int,
                );
            }
        },
    }
    proof {
        assert forall|j: int| 0 <= j < graph.exports@.len() implies (
        #[trigger] graph.exports@[j]).names_valid(names.len() as int) by {
            assert(before.exports@[j].names_valid(before.names@.len() as int));
            if j != position {
                assert(graph.exports@[j] == before.exports@[j]);
                lemma_properties_names_valid_grows(
                    before.exports@[j].properties@,
                    before.names@.len() as int,
                    names.len() as int,
                );
            }
        }
        assert forall|j: int| 0 <= j < graph.imports@.len() implies (
        #[trigger] graph.imports@[j]).names_valid(names.len() as int) by {
            assert(before.imports@[j].names_valid(before.names@.len() as int));
        }
    }
    Ok(Edited { inside, position: target, name: resolved })
}

} // verus!
