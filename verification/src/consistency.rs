//! What holds of a graph after a subgraph was carried into it.

use vstd::prelude::*;
use crate::carry::{
    export_carried,
    import_carried,
    optional_name_carried,
    properties_carried,
    properties_mappable,
    property_carried,
    property_mappable,
};
use crate::closure::{
    lemma_export_closure_closed,
    lemma_export_closure_shape,
    lemma_import_closure_covers,
    lemma_import_closure_distinct,
};
use crate::graph::{AssetGraph, Export, Import, Payload};
use crate::name_table::NameRef;
use crate::property::Property;
use crate::reference::RefIndex;
use crate::remap::{
    lemma_table_values_resolve,
    mappable,
    mapped_or_same,
    mapped_unless_null,
    references_mapped,
    Placement,
};
use crate::transplant::{closure_mappable, transplant_plan, transplanted};

verus! {

/// Every object property of the tree is null or selects a record of a
/// graph with that many exports and imports.
pub open spec fn property_resolves(p: Property, exports: int, imports: int) -> bool
    decreases p,
{
    match p {
        Property::Object { value, .. } => value.resolves(exports, imports),
        Property::Struct { value, .. } => properties_resolve(value@, exports, imports),
        Property::Array { value, .. } => properties_resolve(value@, exports, imports),
        _ => true,
    }
}

/// Every object property of the trees is null or selects a record of a
/// graph with that many exports and imports.
pub open spec fn properties_resolve(ps: Seq<Property>, exports: int, imports: int) -> bool
    decreases ps,
{
    forall|i: int| 0 <= i < ps.len() ==> property_resolves(#[trigger] ps[i], exports, imports)
}

/// Every reference of the list is null or selects a record.
pub open spec fn references_resolve(rs: Seq<RefIndex>, exports: int, imports: int) -> bool {
    forall|i: int| 0 <= i < rs.len() ==> (#[trigger] rs[i]).resolves(exports, imports)
}

/// Every reference of the export is null or selects a record: those of the
/// record itself, those of its three lists of dependencies, and those of
/// its object properties at any depth.
pub open spec fn export_resolves(e: Export, exports: int, imports: int) -> bool {
    &&& e.class_index.resolves(exports, imports)
    &&& e.super_index.resolves(exports, imports)
    &&& e.template_index.resolves(exports, imports)
    &&& e.outer_index.resolves(exports, imports)
    &&& references_resolve(e.create_before_serialization@, exports, imports)
    &&& references_resolve(e.serialization_before_create@, exports, imports)
    &&& references_resolve(e.create_before_create@, exports, imports)
    &&& properties_resolve(e.properties@, exports, imports)
}

/// Every reference of the list is null or has an entry in the table.
pub open spec fn references_mappable(rs: Seq<RefIndex>, table: Map<i32, i32>) -> bool {
    forall|i: int| 0 <= i < rs.len() ==> mappable(table, #[trigger] rs[i])
}

/// Every reference of the record itself, every create-before-create
/// dependency, and every serialization-before-create dependency that
/// selects an export is null or has an entry in the table. (The other
/// dependencies of an export of a subgraph always have one: see
/// [`lemma_dependencies_mappable`].)
pub open spec fn export_covered(e: Export, table: Map<i32, i32>) -> bool {
    &&& mappable(table, e.class_index)
    &&& mappable(table, e.super_index)
    &&& mappable(table, e.template_index)
    &&& mappable(table, e.outer_index)
    &&& references_mappable(e.create_before_create@, table)
    &&& forall|j: int|
        0 <= j < e.serialization_before_create@.len() && (
        #[trigger] e.serialization_before_create@[j]).index > 0 ==> mappable(
            table,
            e.serialization_before_create@[j],
        )
}

/// Every export of the subgraph is covered by the table.
pub open spec fn closure_covered(donor: AssetGraph, p: Placement) -> bool {
    forall|k: int|
        0 <= k < p.exports.len() ==> export_covered(
            donor.export_at(#[trigger] p.exports[k]),
            p.table(),
        )
}

/// The placement of a subgraph that can be carried over is well formed.
pub proof fn lemma_plan_wf(target: AssetGraph, donor: AssetGraph, root: RefIndex)
    requires
        target.wf(),
        donor.wf(),
        transplant_plan(target, donor, root) is Ok,
    ensures
        transplant_plan(target, donor, root)->Ok_0.wf(),
        transplant_plan(target, donor, root)->Ok_0.export_base == target.exports@.len(),
        transplant_plan(target, donor, root)->Ok_0.import_base == target.imports@.len(),
        transplant_plan(target, donor, root)->Ok_0.exports.len() >= 1,
        transplant_plan(target, donor, root)->Ok_0.exports[0] == root,
        target.is_level_root(transplant_plan(target, donor, root)->Ok_0.target_level),
{
    let p = transplant_plan(target, donor, root)->Ok_0;
    lemma_export_closure_shape(donor.exports@, root);
    lemma_import_closure_distinct(
        donor.exports@,
        donor.imports@,
        p.exports,
        p.exports.len() as int,
    );
    let tl = choose|r: RefIndex| target.is_level_root(r);
    let i = choose|i: int| target.is_level_root_at(i);
    lemma_some_level_root(target, i);
    let dl = choose|r: RefIndex| donor.is_level_root(r);
    let j = choose|j: int| donor.is_level_root_at(j);
    lemma_some_level_root(donor, j);
}

/// A graph with a level export of the right name has a level root.
proof fn lemma_some_level_root(g: AssetGraph, i: int)
    requires
        g.is_level_root_at(i),
        g.exports@.len() <= i32::MAX,
    ensures
        exists|r: RefIndex| g.is_level_root(r),
    decreases i,
{
    if exists|j: int| 0 <= j < i && g.is_level_root_at(j) {
        let j = choose|j: int| 0 <= j < i && g.is_level_root_at(j);
        lemma_some_level_root(g, j);
    } else {
        let r = RefIndex { index: (i + 1) as i32 };
        assert(g.is_level_root(r));
    }
}

/// The dependencies that lead a walk have an entry in the table: every
/// create-before-serialization dependency of an export of a subgraph, and
/// every serialization-before-create dependency that selects an import, is
/// null or has an entry.
pub proof fn lemma_dependencies_mappable(
    target: AssetGraph,
    donor: AssetGraph,
    root: RefIndex,
    k: int,
)
    requires
        transplant_plan(target, donor, root) is Ok,
        0 <= k < transplant_plan(target, donor, root)->Ok_0.exports.len(),
    ensures
        ({
            let p = transplant_plan(target, donor, root)->Ok_0;
            let e = donor.export_at(p.exports[k]);
            &&& references_mappable(e.create_before_serialization@, p.table())
            &&& forall|j: int|
                0 <= j < e.serialization_before_create@.len() && (
                #[trigger] e.serialization_before_create@[j]).index < 0 ==> mappable(
                    p.table(),
                    e.serialization_before_create@[j],
                )
        }),
{
    let p = transplant_plan(target, donor, root)->Ok_0;
    let e = donor.export_at(p.exports[k]);
    lemma_import_closure_covers(
        donor.exports@,
        donor.imports@,
        p.exports,
        p.exports.len() as int,
    );
    assert forall|j: int| 0 <= j < e.create_before_serialization@.len() implies mappable(
        p.table(),
        #[trigger] e.create_before_serialization@[j],
    ) by {
        let d = e.create_before_serialization@[j];
        assert(d == RefIndex { index: d.index });
        if d.index >= 1 {
            lemma_export_closure_closed(donor.exports@, root, k, j);
        } else if d.index < 0 {
            assert(p.imports.contains(
                donor.exports@[p.exports[k].index - 1].create_before_serialization@[j],
            ));
        }
    }
    assert forall|j: int|
        0 <= j < e.serialization_before_create@.len() && (
        #[trigger] e.serialization_before_create@[j]).index < 0 implies mappable(
        p.table(),
        e.serialization_before_create@[j],
    ) by {
        let d = e.serialization_before_create@[j];
        assert(d == RefIndex { index: d.index });
        assert(p.imports.contains(
            donor.exports@[p.exports[k].index - 1].serialization_before_create@[j],
        ));
    }
}

proof fn lemma_mapped_resolves(p: Placement, r: RefIndex)
    requires
        p.wf(),
        mappable(p.table(), r),
    ensures
        mapped_or_same(p.table(), r).resolves(
            p.export_base + p.exports.len(),
            p.import_base + p.imports.len(),
        ),
        mapped_unless_null(p.table(), r).resolves(
            p.export_base + p.exports.len(),
            p.import_base + p.imports.len(),
        ),
{
    if r.index != 0 {
        lemma_table_values_resolve(p, r.index);
    } else {
        if p.table().contains_key(0) {
            lemma_table_values_resolve(p, 0);
            let z = RefIndex { index: 0 };
            if p.exports.contains(z) {
                let i = choose|i: int| 0 <= i < p.exports.len() && p.exports[i] == z;
                assert(p.exports[i].index >= 1);
            } else if p.imports.contains(z) {
                let i = choose|i: int| 0 <= i < p.imports.len() && p.imports[i] == z;
                assert(p.imports[i].index <= -1);
            }
        }
    }
}

proof fn lemma_references_mapped_resolve(
    p: Placement,
    src: Seq<RefIndex>,
    dst: Seq<RefIndex>,
)
    requires
        p.wf(),
        references_mapped(src, dst, p.table()),
        references_mappable(src, p.table()),
    ensures
        references_resolve(
            dst,
            p.export_base + p.exports.len(),
            p.import_base + p.imports.len(),
        ),
{
    assert forall|i: int| 0 <= i < dst.len() implies (#[trigger] dst[i]).resolves(
        p.export_base + p.exports.len(),
        p.import_base + p.imports.len(),
    ) by {
        assert(mappable(p.table(), src[i]));
        lemma_mapped_resolves(p, src[i]);
    }
}

/// Every object property of a carried property selects a record of the
/// target.
pub proof fn lemma_property_carried_resolves(
    src: Property,
    dst: Property,
    from: Seq<Seq<char>>,
    to: Seq<Seq<char>>,
    p: Placement,
)
    requires
        p.wf(),
        property_carried(src, dst, from, to, p.table()),
        property_mappable(src, p.table()),
    ensures
        property_resolves(
            dst,
            p.export_base + p.exports.len(),
            p.import_base + p.imports.len(),
        ),
    decreases src,
{
    match (src, dst) {
        (Property::Object { value, .. }, Property::Object { .. }) => {
            lemma_mapped_resolves(p, value);
        },
        (Property::Struct { value, .. }, Property::Struct { value: value2, .. }) => {
            lemma_properties_carried_resolve(value@, value2@, from, to, p);
        },
        (Property::Array { value, .. }, Property::Array { value: value2, .. }) => {
            lemma_properties_carried_resolve(value@, value2@, from, to, p);
        },
        _ => {},
    }
}

/// Every object property of carried properties selects a record of the
/// target.
pub proof fn lemma_properties_carried_resolve(
    src: Seq<Property>,
    dst: Seq<Property>,
    from: Seq<Seq<char>>,
    to: Seq<Seq<char>>,
    p: Placement,
)
    requires
        p.wf(),
        properties_carried(src, dst, from, to, p.table()),
        properties_mappable(src, p.table()),
    ensures
        properties_resolve(
            dst,
            p.export_base + p.exports.len(),
            p.import_base + p.imports.len(),
        ),
    decreases src,
{
    assert forall|i: int| 0 <= i < dst.len() implies property_resolves(
        #[trigger] dst[i],
        p.export_base + p.exports.len(),
        p.import_base + p.imports.len(),
    ) by {
        assert(property_carried(src[i], dst[i], from, to, p.table()));
        assert(property_mappable(src[i], p.table()));
        lemma_property_carried_resolves(src[i], dst[i], from, to, p);
    }
}

/// After a subgraph was carried into a graph, no reference of the other
/// graph is left in it.
///
/// Every object property of the carried exports, at any depth, and the
/// parent of every carried import select a record of the graph as it is
/// now, and so does the actor that the level root has gained. Where an
/// export is covered by the table of old and new indices, every reference
/// of the record and of its lists of dependencies selects a record of the
/// graph too. A reference without an entry is carried as it stands, so
/// nothing is claimed of an export that has one.
/// A reference to the level root of the other graph has become a reference
/// to the level root of this one.
pub proof fn lemma_transplant_isolated(
    before: AssetGraph,
    donor: AssetGraph,
    root: RefIndex,
    after: AssetGraph,
)
    requires
        before.wf(),
        donor.wf(),
        transplant_plan(before, donor, root) is Ok,
        transplanted(before, donor, transplant_plan(before, donor, root)->Ok_0, after),
    ensures
        ({
            let p = transplant_plan(before, donor, root)->Ok_0;
            let n = before.exports@.len() as int;
            let m = before.imports@.len() as int;
            let exports = after.exports@.len() as int;
            let imports = after.imports@.len() as int;
            &&& exports == n + p.exports.len()
            &&& imports == m + p.imports.len()
            &&& forall|k: int|
                0 <= k < p.exports.len() ==> properties_resolve(
                    (#[trigger] after.exports@[n + k]).properties@,
                    exports,
                    imports,
                )
            &&& forall|k: int|
                0 <= k < p.exports.len() && export_covered(
                    donor.export_at(p.exports[k]),
                    p.table(),
                ) ==> export_resolves(#[trigger] after.exports@[n + k], exports, imports)
            &&& forall|k: int|
                0 <= k < p.imports.len() ==> (#[trigger] after.imports@[m + k]).outer_index.resolves(
                    exports,
                    imports,
                )
            &&& after.exports@[p.target_level.index - 1].payload matches Payload::Level { actors }
            &&& actors@.len() >= 1
            &&& actors@.last() == p.target_of(root)
            &&& actors@.last().resolves(exports, imports)
            &&& p.table().contains_key(p.donor_level.index)
            &&& p.table()[p.donor_level.index] == p.target_level.index
        }),
{
    let p = transplant_plan(before, donor, root)->Ok_0;
    lemma_plan_wf(before, donor, root);
    let n = before.exports@.len() as int;
    let m = before.imports@.len() as int;
    let exports = after.exports@.len() as int;
    let imports = after.imports@.len() as int;
    assert(closure_mappable(donor, p.exports, p.imports, p.table()));
    assert forall|k: int| 0 <= k < p.exports.len() implies properties_resolve(
        (#[trigger] after.exports@[n + k]).properties@,
        exports,
        imports,
    ) by {
        let src = donor.export_at(p.exports[k]);
        let dst = after.exports@[n + k];
        assert(export_carried(src, dst, donor.names@, after.names@, p.table()));
        assert(properties_mappable(src.properties@, p.table()));
        lemma_properties_carried_resolve(
            src.properties@,
            dst.properties@,
            donor.names@,
            after.names@,
            p,
        );
    }
    assert forall|k: int|
        0 <= k < p.exports.len() && export_covered(
            donor.export_at(p.exports[k]),
            p.table(),
        ) implies export_resolves(#[trigger] after.exports@[n + k], exports, imports) by {
        let src = donor.export_at(p.exports[k]);
        let dst = after.exports@[n + k];
        assert(export_carried(src, dst, donor.names@, after.names@, p.table()));
        assert(properties_resolve(dst.properties@, exports, imports));
        lemma_dependencies_mappable(before, donor, root, k);
        assert forall|j: int|
            0 <= j < src.serialization_before_create@.len() implies mappable(
            p.table(),
            #[trigger] src.serialization_before_create@[j],
        ) by {}
        lemma_mapped_resolves(p, src.class_index);
        lemma_mapped_resolves(p, src.super_index);
        lemma_mapped_resolves(p, src.template_index);
        lemma_mapped_resolves(p, src.outer_index);
        lemma_references_mapped_resolve(
            p,
            src.create_before_serialization@,
            dst.create_before_serialization@,
        );
        lemma_references_mapped_resolve(
            p,
            src.serialization_before_create@,
            dst.serialization_before_create@,
        );
        lemma_references_mapped_resolve(p, src.create_before_create@, dst.create_before_create@);
    }
    assert forall|k: int| 0 <= k < p.imports.len() implies (
    #[trigger] after.imports@[m + k]).outer_index.resolves(exports, imports) by {
        let src = donor.import_at(p.imports[k]);
        assert(import_carried(src, after.imports@[m + k], donor.names@, after.names@, p.table()));
        assert(mappable(p.table(), src.outer_index));
        lemma_mapped_resolves(p, src.outer_index);
    }
    crate::remap::lemma_index_of_distinct(p.exports, 0);
    assert(p.exports.contains(root));
    assert(root != p.donor_level);
}

/// What the table of a placement holds for a reference is what the
/// placement says of it.
pub proof fn lemma_target_of_table(p: Placement, d: RefIndex)
    requires
        p.wf(),
    ensures
        mapped_or_same(p.table(), d) == p.target_of(d),
        mappable(p.table(), d) ==> mapped_unless_null(p.table(), d) == p.target_of(d),
{
    assert(d == RefIndex { index: d.index });
    if d.index == 0 {
        if p.exports.contains(d) {
            let i = choose|i: int| 0 <= i < p.exports.len() && p.exports[i] == d;
            assert(p.exports[i].index >= 1);
        }
        if p.imports.contains(d) {
            let i = choose|i: int| 0 <= i < p.imports.len() && p.imports[i] == d;
            assert(p.imports[i].index <= -1);
        }
    }
}

/// Two placements of one subgraph differ only by the counts of the records
/// that were there and by the level root: a reference to the level root
/// goes to either level root, a reference to a record of the subgraph goes
/// as far behind the records of the one graph as behind those of the other,
/// and any other reference stays as it is.
pub proof fn lemma_placements_differ_by_counts(pa: Placement, pb: Placement, d: RefIndex)
    requires
        pa.wf(),
        pb.wf(),
        pa.exports == pb.exports,
        pa.imports == pb.imports,
        pa.donor_level == pb.donor_level,
    ensures
        d == pa.donor_level ==> pa.target_of(d) == pa.target_level && pb.target_of(d)
            == pb.target_level,
        d != pa.donor_level && pa.exports.contains(d) ==> pa.target_of(d).index - pa.export_base
            == pb.target_of(d).index - pb.export_base,
        d != pa.donor_level && !pa.exports.contains(d) && pa.imports.contains(d) ==> pa.target_of(
            d,
        ).index + pa.import_base == pb.target_of(d).index + pb.import_base,
        !pa.covers(d) ==> pa.target_of(d) == d && pb.target_of(d) == d,
{
    if d != pa.donor_level && pa.exports.contains(d) {
        let i = pa.exports.index_of(d);
        assert(0 <= i < pa.exports.len());
    } else if d != pa.donor_level && pa.imports.contains(d) {
        let i = pa.imports.index_of(d);
        assert(0 <= i < pa.imports.len());
    }
}

/// The two references stand for one reference of the donor, each under its
/// own placement.
pub open spec fn references_alike(pa: Placement, pb: Placement, ra: RefIndex, rb: RefIndex) -> bool {
    exists|d: RefIndex| ra == #[trigger] pa.target_of(d) && rb == pb.target_of(d)
}

/// The two lists hold references that are alike, one for one.
pub open spec fn reference_lists_alike(
    pa: Placement,
    pb: Placement,
    a: Seq<RefIndex>,
    b: Seq<RefIndex>,
) -> bool {
    &&& a.len() == b.len()
    &&& forall|i: int| 0 <= i < a.len() ==> references_alike(pa, pb, #[trigger] a[i], b[i])
}

/// The two names have the same text, each in its own table.
pub open spec fn names_alike(na: Seq<Seq<char>>, nb: Seq<Seq<char>>, a: NameRef, b: NameRef)
    -> bool {
    &&& a.index < na.len()
    &&& b.index < nb.len()
    &&& na[a.index as int] == nb[b.index as int]
}

/// As [`names_alike`], for names that may be missing.
pub open spec fn optional_names_alike(
    na: Seq<Seq<char>>,
    nb: Seq<Seq<char>>,
    a: Option<NameRef>,
    b: Option<NameRef>,
) -> bool {
    match a {
        None => b is None,
        Some(x) => b matches Some(y) && names_alike(na, nb, x, y),
    }
}

/// The two properties are of the same kind and shape, their names have the
/// same texts, their object references are alike, and their other values
/// are equal.
pub open spec fn property_alike(
    a: Property,
    b: Property,
    na: Seq<Seq<char>>,
    nb: Seq<Seq<char>>,
    pa: Placement,
    pb: Placement,
) -> bool
    decreases a,
{
    &&& names_alike(na, nb, a.spec_name(), b.spec_name())
    &&& match a {
        Property::Name { value, .. } => b matches Property::Name { value: value2, .. }
            && names_alike(na, nb, value, value2),
        Property::Object { value, .. } => b matches Property::Object { value: value2, .. }
            && references_alike(pa, pb, value, value2),
        Property::Struct { struct_type, value, .. } => {
            &&& b matches Property::Struct { struct_type: type2, value: value2, .. }
            &&& optional_names_alike(na, nb, struct_type, type2)
            &&& properties_alike(value@, value2@, na, nb, pa, pb)
        },
        Property::Array { value, .. } => b matches Property::Array { value: value2, .. }
            && properties_alike(value@, value2@, na, nb, pa, pb),
        Property::Vector { x, y, z, .. } => b matches Property::Vector {
            x: x2,
            y: y2,
            z: z2,
            ..
        } && x == x2 && y == y2 && z == z2,
        Property::Rotator { x, y, z, .. } => b matches Property::Rotator {
            x: x2,
            y: y2,
            z: z2,
            ..
        } && x == x2 && y == y2 && z == z2,
        Property::Scalar { kind, .. } => b matches Property::Scalar { kind: kind2, .. } && kind
            == kind2,
        Property::Enum { value, enum_type, .. } => {
            &&& b matches Property::Enum { value: value2, enum_type: type2, .. }
            &&& optional_names_alike(na, nb, value, value2)
            &&& optional_names_alike(na, nb, enum_type, type2)
        },
        Property::Unsupported { .. } => b is Unsupported,
    }
}

/// The two lists hold properties that are alike, one for one.
pub open spec fn properties_alike(
    a: Seq<Property>,
    b: Seq<Property>,
    na: Seq<Seq<char>>,
    nb: Seq<Seq<char>>,
    pa: Placement,
    pb: Placement,
) -> bool
    decreases a,
{
    &&& a.len() == b.len()
    &&& forall|i: int|
        #![trigger a[i]]
        #![trigger b[i]]
        0 <= i < a.len() ==> property_alike(a[i], b[i], na, nb, pa, pb)
}

/// The two exports are alike: in their names, in every reference of the
/// record and of its lists of dependencies, in their properties, and in
/// the kind of their payload.
pub open spec fn exports_alike(
    a: Export,
    b: Export,
    na: Seq<Seq<char>>,
    nb: Seq<Seq<char>>,
    pa: Placement,
    pb: Placement,
) -> bool {
    &&& names_alike(na, nb, a.object_name, b.object_name)
    &&& references_alike(pa, pb, a.class_index, b.class_index)
    &&& references_alike(pa, pb, a.super_index, b.super_index)
    &&& references_alike(pa, pb, a.template_index, b.template_index)
    &&& references_alike(pa, pb, a.outer_index, b.outer_index)
    &&& reference_lists_alike(
        pa,
        pb,
        a.create_before_serialization@,
        b.create_before_serialization@,
    )
    &&& reference_lists_alike(
        pa,
        pb,
        a.serialization_before_create@,
        b.serialization_before_create@,
    )
    &&& reference_lists_alike(pa, pb, a.create_before_create@, b.create_before_create@)
    &&& properties_alike(a.properties@, b.properties@, na, nb, pa, pb)
    &&& match a.payload {
        Payload::Normal => b.payload is Normal,
        Payload::Level { actors } => b.payload matches Payload::Level { actors: actors2 }
            && actors@ == actors2@,
    }
}

/// The two imports are alike: in their names and in their parent.
pub open spec fn imports_alike(
    a: Import,
    b: Import,
    na: Seq<Seq<char>>,
    nb: Seq<Seq<char>>,
    pa: Placement,
    pb: Placement,
) -> bool {
    &&& names_alike(na, nb, a.class_package, b.class_package)
    &&& names_alike(na, nb, a.class_name, b.class_name)
    &&& names_alike(na, nb, a.object_name, b.object_name)
    &&& references_alike(pa, pb, a.outer_index, b.outer_index)
}

proof fn lemma_optional_names_alike(
    from: Seq<Seq<char>>,
    na: Seq<Seq<char>>,
    nb: Seq<Seq<char>>,
    src: Option<NameRef>,
    a: Option<NameRef>,
    b: Option<NameRef>,
)
    requires
        optional_name_carried(from, na, src, a),
        optional_name_carried(from, nb, src, b),
    ensures
        optional_names_alike(na, nb, a, b),
{
}

proof fn lemma_mapped_alike(pa: Placement, pb: Placement, d: RefIndex)
    requires
        pa.wf(),
        pb.wf(),
    ensures
        references_alike(
            pa,
            pb,
            mapped_or_same(pa.table(), d),
            mapped_or_same(pb.table(), d),
        ),
        mappable(pa.table(), d) && mappable(pb.table(), d) ==> references_alike(
            pa,
            pb,
            mapped_unless_null(pa.table(), d),
            mapped_unless_null(pb.table(), d),
        ),
{
    lemma_target_of_table(pa, d);
    lemma_target_of_table(pb, d);
    assert(mapped_or_same(pa.table(), d) == pa.target_of(d));
}

proof fn lemma_mapped_lists_alike(
    pa: Placement,
    pb: Placement,
    src: Seq<RefIndex>,
    a: Seq<RefIndex>,
    b: Seq<RefIndex>,
)
    requires
        pa.wf(),
        pb.wf(),
        references_mapped(src, a, pa.table()),
        references_mapped(src, b, pb.table()),
    ensures
        reference_lists_alike(pa, pb, a, b),
{
    assert forall|i: int| 0 <= i < a.len() implies references_alike(
        pa,
        pb,
        #[trigger] a[i],
        b[i],
    ) by {
        lemma_mapped_alike(pa, pb, src[i]);
        assert(a[i] == mapped_or_same(pa.table(), src[i]));
        assert(b[i] == mapped_or_same(pb.table(), src[i]));
    }
}

/// A property carried into two graphs gives two properties that are alike.
pub proof fn lemma_property_carried_alike(
    src: Property,
    a: Property,
    b: Property,
    from: Seq<Seq<char>>,
    na: Seq<Seq<char>>,
    nb: Seq<Seq<char>>,
    pa: Placement,
    pb: Placement,
)
    requires
        pa.wf(),
        pb.wf(),
        property_carried(src, a, from, na, pa.table()),
        property_carried(src, b, from, nb, pb.table()),
        property_mappable(src, pa.table()),
        property_mappable(src, pb.table()),
    ensures
        property_alike(a, b, na, nb, pa, pb),
    decreases src,
{
    match (src, a, b) {
        (
            Property::Object { value, .. },
            Property::Object { .. },
            Property::Object { .. },
        ) => {
            lemma_mapped_alike(pa, pb, value);
        },
        (
            Property::Struct { struct_type, value, .. },
            Property::Struct { struct_type: ta, value: va, .. },
            Property::Struct { struct_type: tb, value: vb, .. },
        ) => {
            lemma_optional_names_alike(from, na, nb, struct_type, ta, tb);
            lemma_properties_carried_alike(value@, va@, vb@, from, na, nb, pa, pb);
        },
        (
            Property::Array { value, .. },
            Property::Array { value: va, .. },
            Property::Array { value: vb, .. },
        ) => {
            lemma_properties_carried_alike(value@, va@, vb@, from, na, nb, pa, pb);
        },
        (
            Property::Enum { value, enum_type, .. },
            Property::Enum { value: va, enum_type: ta, .. },
            Property::Enum { value: vb, enum_type: tb, .. },
        ) => {
            lemma_optional_names_alike(from, na, nb, value, va, vb);
            lemma_optional_names_alike(from, na, nb, enum_type, ta, tb);
        },
        _ => {},
    }
}

/// Properties carried into two graphs give properties that are alike.
pub proof fn lemma_properties_carried_alike(
    src: Seq<Property>,
    a: Seq<Property>,
    b: Seq<Property>,
    from: Seq<Seq<char>>,
    na: Seq<Seq<char>>,
    nb: Seq<Seq<char>>,
    pa: Placement,
    pb: Placement,
)
    requires
        pa.wf(),
        pb.wf(),
        properties_carried(src, a, from, na, pa.table()),
        properties_carried(src, b, from, nb, pb.table()),
        properties_mappable(src, pa.table()),
        properties_mappable(src, pb.table()),
    ensures
        properties_alike(a, b, na, nb, pa, pb),
    decreases src,
{
    assert forall|i: int|
        #![trigger a[i]]
        #![trigger b[i]]
        0 <= i < a.len() implies property_alike(a[i], b[i], na, nb, pa, pb) by {
        assert(property_carried(src[i], a[i], from, na, pa.table()));
        assert(property_carried(src[i], b[i], from, nb, pb.table()));
        assert(property_mappable(src[i], pa.table()));
        assert(property_mappable(src[i], pb.table()));
        lemma_property_carried_alike(src[i], a[i], b[i], from, na, nb, pa, pb);
    }
}

/// Carrying one subgraph into two graphs gives the same content in both,
/// up to where it was put.
///
/// The same exports and imports of the donor are taken, in the same order.
/// The copies in the one graph and in the other are alike: their names have
/// the same texts, and each pair of references stands for one reference of
/// the donor. By [`lemma_placements_differ_by_counts`] such a pair differs
/// only by the counts of the records that the two graphs had, and by their
/// level roots.
pub proof fn lemma_transplant_deterministic(
    first: AssetGraph,
    second: AssetGraph,
    donor: AssetGraph,
    root: RefIndex,
    first_after: AssetGraph,
    second_after: AssetGraph,
)
    requires
        first.wf(),
        second.wf(),
        donor.wf(),
        transplant_plan(first, donor, root) is Ok,
        transplant_plan(second, donor, root) is Ok,
        transplanted(first, donor, transplant_plan(first, donor, root)->Ok_0, first_after),
        transplanted(second, donor, transplant_plan(second, donor, root)->Ok_0, second_after),
    ensures
        ({
            let pa = transplant_plan(first, donor, root)->Ok_0;
            let pb = transplant_plan(second, donor, root)->Ok_0;
            let na = first.exports@.len() as int;
            let nb = second.exports@.len() as int;
            let ma = first.imports@.len() as int;
            let mb = second.imports@.len() as int;
            &&& pa.wf()
            &&& pb.wf()
            &&& pa.exports == pb.exports
            &&& pa.imports == pb.imports
            &&& pa.donor_level == pb.donor_level
            &&& first_after.exports@.len() - na == second_after.exports@.len() - nb
            &&& first_after.imports@.len() - ma == second_after.imports@.len() - mb
            &&& forall|k: int|
                0 <= k < pa.exports.len() ==> exports_alike(
                    #[trigger] first_after.exports@[na + k],
                    second_after.exports@[nb + k],
                    first_after.names@,
                    second_after.names@,
                    pa,
                    pb,
                )
            &&& forall|k: int|
                0 <= k < pa.imports.len() ==> imports_alike(
                    #[trigger] first_after.imports@[ma + k],
                    second_after.imports@[mb + k],
                    first_after.names@,
                    second_after.names@,
                    pa,
                    pb,
                )
        }),
{
    let pa = transplant_plan(first, donor, root)->Ok_0;
    let pb = transplant_plan(second, donor, root)->Ok_0;
    let na = first.exports@.len() as int;
    let nb = second.exports@.len() as int;
    let ma = first.imports@.len() as int;
    let mb = second.imports@.len() as int;
    let from = donor.names@;
    let names_a = first_after.names@;
    let names_b = second_after.names@;
    lemma_plan_wf(first, donor, root);
    lemma_plan_wf(second, donor, root);
    assert(closure_mappable(donor, pa.exports, pa.imports, pa.table()));
    assert(closure_mappable(donor, pb.exports, pb.imports, pb.table()));
    assert forall|k: int| 0 <= k < pa.exports.len() implies exports_alike(
        #[trigger] first_after.exports@[na + k],
        second_after.exports@[nb + k],
        names_a,
        names_b,
        pa,
        pb,
    ) by {
        let src = donor.export_at(pa.exports[k]);
        let a = first_after.exports@[na + k];
        let b = second_after.exports@[nb + k];
        assert(export_carried(src, a, from, names_a, pa.table()));
        assert(src == donor.export_at(pb.exports[k]));
        assert(export_carried(src, b, from, names_b, pb.table()));
        assert(properties_mappable(src.properties@, pa.table()));
        assert(properties_mappable(src.properties@, pb.table()));
        lemma_mapped_alike(pa, pb, src.class_index);
        lemma_mapped_alike(pa, pb, src.super_index);
        lemma_mapped_alike(pa, pb, src.template_index);
        lemma_mapped_alike(pa, pb, src.outer_index);
        lemma_mapped_lists_alike(
            pa,
            pb,
            src.create_before_serialization@,
            a.create_before_serialization@,
            b.create_before_serialization@,
        );
        lemma_mapped_lists_alike(
            pa,
            pb,
            src.serialization_before_create@,
            a.serialization_before_create@,
            b.serialization_before_create@,
        );
        lemma_mapped_lists_alike(
            pa,
            pb,
            src.create_before_create@,
            a.create_before_create@,
            b.create_before_create@,
        );
        lemma_properties_carried_alike(
            src.properties@,
            a.properties@,
            b.properties@,
            from,
            names_a,
            names_b,
            pa,
            pb,
        );
    }
    assert forall|k: int| 0 <= k < pa.imports.len() implies imports_alike(
        #[trigger] first_after.imports@[ma + k],
        second_after.imports@[mb + k],
        names_a,
        names_b,
        pa,
        pb,
    ) by {
        let src = donor.import_at(pa.imports[k]);
        let a = first_after.imports@[ma + k];
        let b = second_after.imports@[mb + k];
        assert(import_carried(src, a, from, names_a, pa.table()));
        assert(src == donor.import_at(pb.imports[k]));
        assert(import_carried(src, b, from, names_b, pb.table()));
        assert(mappable(pa.table(), src.outer_index));
        assert(mappable(pb.table(), src.outer_index));
        lemma_mapped_alike(pa, pb, src.outer_index);
    }
}

/// No reference of the graph dangles: the parent of every import, every
/// reference of every export, and every actor of a level is null or selects
/// a record of the graph.
pub open spec fn graph_resolves(g: AssetGraph) -> bool {
    let exports = g.exports@.len() as int;
    let imports = g.imports@.len() as int;
    &&& forall|i: int|
        0 <= i < imports ==> (#[trigger] g.imports@[i]).outer_index.resolves(exports, imports)
    &&& forall|i: int| 0 <= i < exports ==> export_sound(#[trigger] g.exports@[i], exports, imports)
}

fn reference_resolves(r: RefIndex, exports: usize, imports: usize) -> (b: bool)
    requires
        exports <= i32::MAX,
        imports <= i32::MAX,
    ensures
        b == r.resolves(exports as int, imports as int),
{
    let i = r.index as i64;
    -(imports as i64) <= i && i <= exports as i64
}

fn do_references_resolve(rs: &Vec<RefIndex>, exports: usize, imports: usize) -> (b: bool)
    requires
        exports <= i32::MAX,
        imports <= i32::MAX,
    ensures
        b == references_resolve(rs@, exports as int, imports as int),
{
    let n = rs.len();
    let mut i: usize = 0;
    while i < n
        invariant
            i <= n,
            n == rs@.len(),
            exports <= i32::MAX,
            imports <= i32::MAX,
            forall|j: int| 0 <= j < i ==> (#[trigger] rs@[j]).resolves(exports as int, imports as int),
        decreases n - i,
    {
        if !reference_resolves(rs[i], exports, imports) {
            return false;
        }
        i = i + 1;
    }
    true
}

fn does_property_resolve(p: &Property, exports: usize, imports: usize) -> (b: bool)
    requires
        exports <= i32::MAX,
        imports <= i32::MAX,
    ensures
        b == property_resolves(*p, exports as int, imports as int),
    decreases p,
{
    match p {
        Property::Object { value, .. } => reference_resolves(*value, exports, imports),
        Property::Struct { value, .. } => do_properties_resolve(value, exports, imports),
        Property::Array { value, .. } => do_properties_resolve(value, exports, imports),
        _ => true,
    }
}

fn do_properties_resolve(ps: &Vec<Property>, exports: usize, imports: usize) -> (b: bool)
    requires
        exports <= i32::MAX,
        imports <= i32::MAX,
    ensures
        b == properties_resolve(ps@, exports as int, imports as int),
    decreases ps,
{
    let n = ps.len();
    let mut i: usize = 0;
    while i < n
        invariant
            i <= n,
            n == ps@.len(),
            exports <= i32::MAX,
            imports <= i32::MAX,
            forall|j: int|
                0 <= j < i ==> property_resolves(#[trigger] ps@[j], exports as int, imports as int),
        decreases n - i,
    {
        if !does_property_resolve(&ps[i], exports, imports) {
            return false;
        }
        i = i + 1;
    }
    true
}

fn does_export_resolve(e: &Export, exports: usize, imports: usize) -> (b: bool)
    requires
        exports <= i32::MAX,
        imports <= i32::MAX,
    ensures
        b == export_sound(*e, exports as int, imports as int),
{
    let actors_resolve = match &e.payload {
        Payload::Level { actors } => do_references_resolve(actors, exports, imports),
        Payload::Normal => true,
    };
    actors_resolve && reference_resolves(e.class_index, exports, imports) && reference_resolves(
        e.super_index,
        exports,
        imports,
    ) && reference_resolves(e.template_index, exports, imports) && reference_resolves(
        e.outer_index,
        exports,
        imports,
    ) && do_references_resolve(&e.create_before_serialization, exports, imports)
        && do_references_resolve(&e.serialization_before_create, exports, imports)
        && do_references_resolve(&e.create_before_create, exports, imports)
        && do_properties_resolve(&e.properties, exports, imports)
}

/// Whether no reference of the graph dangles.
pub fn has_no_dangling_reference(graph: &AssetGraph) -> (b: bool)
    requires
        graph.wf(),
    ensures
        b == graph_resolves(*graph),
{
    let exports = graph.exports.len();
    let imports = graph.imports.len();
    let mut i: usize = 0;
    while i < imports
        invariant
            i <= imports,
            exports == graph.exports@.len(),
            imports == graph.imports@.len(),
            exports <= i32::MAX,
            imports <= i32::MAX,
            forall|j: int|
                0 <= j < i ==> (#[trigger] graph.imports@[j]).outer_index.resolves(
                    exports as int,
                    imports as int,
                ),
        decreases imports - i,
    {
        if !reference_resolves(graph.imports[i].outer_index, exports, imports) {
            return false;
        }
        i = i + 1;
    }
    let mut i: usize = 0;
    while i < exports
        invariant
            i <= exports,
            exports == graph.exports@.len(),
            imports == graph.imports@.len(),
            exports <= i32::MAX,
            imports <= i32::MAX,
            forall|j: int|
                0 <= j < imports ==> (#[trigger] graph.imports@[j]).outer_index.resolves(
                    exports as int,
                    imports as int,
                ),
            forall|j: int|
                0 <= j < i ==> export_sound(
                    #[trigger] graph.exports@[j],
                    exports as int,
                    imports as int,
                ),
        decreases exports - i,
    {
        if !does_export_resolve(&graph.exports[i], exports, imports) {
            return false;
        }
        i = i + 1;
    }
    true
}

/// Object properties that select records of a graph select records of a
/// graph that has more of them.
pub proof fn lemma_property_resolves_grows(
    p: Property,
    exports: int,
    imports: int,
    more_exports: int,
    more_imports: int,
)
    requires
        property_resolves(p, exports, imports),
        exports <= more_exports,
        imports <= more_imports,
    ensures
        property_resolves(p, more_exports, more_imports),
    decreases p,
{
    match p {
        Property::Struct { value, .. } => {
            lemma_properties_resolve_grow(value@, exports, imports, more_exports, more_imports);
        },
        Property::Array { value, .. } => {
            lemma_properties_resolve_grow(value@, exports, imports, more_exports, more_imports);
        },
        _ => {},
    }
}

/// Object properties that select records of a graph select records of a
/// graph that has more of them.
pub proof fn lemma_properties_resolve_grow(
    ps: Seq<Property>,
    exports: int,
    imports: int,
    more_exports: int,
    more_imports: int,
)
    requires
        properties_resolve(ps, exports, imports),
        exports <= more_exports,
        imports <= more_imports,
    ensures
        properties_resolve(ps, more_exports, more_imports),
    decreases ps,
{
    assert forall|i: int| 0 <= i < ps.len() implies property_resolves(
        #[trigger] ps[i],
        more_exports,
        more_imports,
    ) by {
        lemma_property_resolves_grows(ps[i], exports, imports, more_exports, more_imports);
    }
}

/// The export has no dangling reference: every reference of it is null or
/// selects a record, and so is every actor if it is a level.
pub open spec fn export_sound(e: Export, exports: int, imports: int) -> bool {
    &&& export_resolves(e, exports, imports)
    &&& e.payload matches Payload::Level { actors } ==> references_resolve(
        actors@,
        exports,
        imports,
    )
}

/// An export without dangling references has none in a graph that has
/// more records.
pub proof fn lemma_export_sound_grows(
    e: Export,
    exports: int,
    imports: int,
    more_exports: int,
    more_imports: int,
)
    requires
        export_sound(e, exports, imports),
        exports <= more_exports,
        imports <= more_imports,
    ensures
        export_sound(e, more_exports, more_imports),
{
    lemma_properties_resolve_grow(e.properties@, exports, imports, more_exports, more_imports);
    assert forall|j: int| 0 <= j < e.create_before_serialization@.len() implies (
    #[trigger] e.create_before_serialization@[j]).resolves(more_exports, more_imports) by {
        assert(e.create_before_serialization@[j].resolves(exports, imports));
    }
    assert forall|j: int| 0 <= j < e.serialization_before_create@.len() implies (
    #[trigger] e.serialization_before_create@[j]).resolves(more_exports, more_imports) by {
        assert(e.serialization_before_create@[j].resolves(exports, imports));
    }
    assert forall|j: int| 0 <= j < e.create_before_create@.len() implies (
    #[trigger] e.create_before_create@[j]).resolves(more_exports, more_imports) by {
        assert(e.create_before_create@[j].resolves(exports, imports));
    }
    if let Payload::Level { actors } = e.payload {
        assert forall|j: int| 0 <= j < actors@.len() implies (#[trigger] actors@[j]).resolves(
            more_exports,
            more_imports,
        ) by {
            assert(actors@[j].resolves(exports, imports));
        }
    }
}

/// A level without dangling references that gains an actor has none, if
/// the actor selects a record.
proof fn lemma_attached_sound(
    before: Export,
    after: Export,
    actor: RefIndex,
    exports: int,
    imports: int,
)
    requires
        export_sound(before, exports, imports),
        crate::transplant::actor_attached(before, after, actor),
        actor.resolves(exports, imports),
    ensures
        export_sound(after, exports, imports),
{
    assert forall|j: int| 0 <= j < after.create_before_serialization@.len() implies (
    #[trigger] after.create_before_serialization@[j]).resolves(exports, imports) by {
        if j < before.create_before_serialization@.len() {
            assert(before.create_before_serialization@[j].resolves(exports, imports));
        }
    }
    let held = before.payload->Level_actors;
    let actors = after.payload->Level_actors;
    assert forall|j: int| 0 <= j < actors@.len() implies (#[trigger] actors@[j]).resolves(
        exports,
        imports,
    ) by {
        if j < held@.len() {
            assert(held@[j].resolves(exports, imports));
        }
    }
}

/// The exports that were there have no dangling reference after a subgraph
/// was carried over, if they had none before.
proof fn lemma_kept_exports_sound(
    before: AssetGraph,
    donor: AssetGraph,
    p: Placement,
    after: AssetGraph,
    i: int,
)
    requires
        p.wf(),
        p.export_base == before.exports@.len(),
        p.import_base == before.imports@.len(),
        p.exports.len() >= 1,
        transplanted(before, donor, p, after),
        0 <= i < before.exports@.len(),
        export_sound(before.exports@[i], before.exports@.len() as int, before.imports@.len() as int),
    ensures
        export_sound(after.exports@[i], after.exports@.len() as int, after.imports@.len() as int),
{
    let n = before.exports@.len() as int;
    let m = before.imports@.len() as int;
    let exports = after.exports@.len() as int;
    let imports = after.imports@.len() as int;
    lemma_export_sound_grows(before.exports@[i], n, m, exports, imports);
    if i == p.target_level.index - 1 {
        lemma_attached_sound(
            before.exports@[i],
            after.exports@[i],
            RefIndex { index: (n + 1) as i32 },
            exports,
            imports,
        );
    } else {
        assert(after.exports@[i] == before.exports@[i]);
    }
}

/// A carried export has no dangling reference, if the table covers the
/// export that it was carried from and that export is no level.
proof fn lemma_carried_export_sound(src: Export, dst: Export, from: Seq<Seq<char>>, to: Seq<Seq<char>>, p: Placement)
    requires
        p.wf(),
        export_carried(src, dst, from, to, p.table()),
        properties_mappable(src.properties@, p.table()),
        export_covered(src, p.table()),
        references_mappable(src.create_before_serialization@, p.table()),
        references_mappable(src.serialization_before_create@, p.table()),
        src.payload is Normal,
    ensures
        export_sound(
            dst,
            p.export_base + p.exports.len(),
            p.import_base + p.imports.len(),
        ),
{
    lemma_properties_carried_resolve(src.properties@, dst.properties@, from, to, p);
    lemma_mapped_resolves(p, src.class_index);
    lemma_mapped_resolves(p, src.super_index);
    lemma_mapped_resolves(p, src.template_index);
    lemma_mapped_resolves(p, src.outer_index);
    lemma_references_mapped_resolve(
        p,
        src.create_before_serialization@,
        dst.create_before_serialization@,
    );
    lemma_references_mapped_resolve(
        p,
        src.serialization_before_create@,
        dst.serialization_before_create@,
    );
    lemma_references_mapped_resolve(p, src.create_before_create@, dst.create_before_create@);
}

/// Every create-before-serialization and serialization-before-create
/// dependency of every export of the subgraph is null or has an entry in
/// the table.
pub open spec fn dependencies_mappable(donor: AssetGraph, p: Placement) -> bool {
    forall|k: int|
        0 <= k < p.exports.len() ==> references_mappable(
            donor.export_at(#[trigger] p.exports[k]).create_before_serialization@,
            p.table(),
        ) && references_mappable(
            donor.export_at(p.exports[k]).serialization_before_create@,
            p.table(),
        )
}

/// No export of the subgraph is a level.
pub open spec fn no_level_carried(donor: AssetGraph, p: Placement) -> bool {
    forall|k: int|
        0 <= k < p.exports.len() ==> donor.export_at(#[trigger] p.exports[k]).payload is Normal
}

proof fn lemma_carried_keeps_resolving(
    before: AssetGraph,
    donor: AssetGraph,
    p: Placement,
    after: AssetGraph,
)
    requires
        p.wf(),
        p.export_base == before.exports@.len(),
        p.import_base == before.imports@.len(),
        p.exports.len() >= 1,
        graph_resolves(before),
        transplanted(before, donor, p, after),
        closure_mappable(donor, p.exports, p.imports, p.table()),
        closure_covered(donor, p),
        dependencies_mappable(donor, p),
        no_level_carried(donor, p),
    ensures
        graph_resolves(after),
{
    let n = before.exports@.len() as int;
    let m = before.imports@.len() as int;
    let exports = after.exports@.len() as int;
    let imports = after.imports@.len() as int;
    assert forall|i: int| 0 <= i < imports implies (
    #[trigger] after.imports@[i]).outer_index.resolves(exports, imports) by {
        if i < m {
            assert(after.imports@[i] == before.imports@[i]);
            assert(before.imports@[i].outer_index.resolves(n, m));
        } else {
            let src = donor.import_at(p.imports[i - m]);
            assert(import_carried(
                src,
                after.imports@[m + (i - m)],
                donor.names@,
                after.names@,
                p.table(),
            ));
            assert(mappable(p.table(), src.outer_index));
            lemma_mapped_resolves(p, src.outer_index);
        }
    }
    assert forall|i: int| 0 <= i < exports implies export_sound(
        #[trigger] after.exports@[i],
        exports,
        imports,
    ) by {
        if i < n {
            assert(export_sound(before.exports@[i], n, m));
            lemma_kept_exports_sound(before, donor, p, after, i);
        } else {
            let k = i - n;
            let src = donor.export_at(p.exports[k]);
            assert(export_carried(src, after.exports@[n + k], donor.names@, after.names@, p.table()));
            assert(properties_mappable(src.properties@, p.table()));
            assert(export_covered(src, p.table()));
            assert(references_mappable(src.create_before_serialization@, p.table()));
            assert(src.payload is Normal);
            lemma_carried_export_sound(
                src,
                after.exports@[n + k],
                donor.names@,
                after.names@,
                p,
            );
        }
    }
}

/// Carrying a subgraph into a graph without dangling references leaves no
/// dangling reference, where the table of old and new indices covers every
/// export of the subgraph and none of them is a level.
pub proof fn lemma_transplant_keeps_resolving(
    before: AssetGraph,
    donor: AssetGraph,
    root: RefIndex,
    after: AssetGraph,
)
    requires
        before.wf(),
        donor.wf(),
        graph_resolves(before),
        transplant_plan(before, donor, root) is Ok,
        transplanted(before, donor, transplant_plan(before, donor, root)->Ok_0, after),
        closure_covered(donor, transplant_plan(before, donor, root)->Ok_0),
        no_level_carried(donor, transplant_plan(before, donor, root)->Ok_0),
    ensures
        graph_resolves(after),
{
    let p = transplant_plan(before, donor, root)->Ok_0;
    lemma_plan_wf(before, donor, root);
    assert(closure_mappable(donor, p.exports, p.imports, p.table()));
    assert forall|k: int| 0 <= k < p.exports.len() implies references_mappable(
        donor.export_at(#[trigger] p.exports[k]).create_before_serialization@,
        p.table(),
    ) && references_mappable(
        donor.export_at(p.exports[k]).serialization_before_create@,
        p.table(),
    ) by {
        let src = donor.export_at(p.exports[k]);
        lemma_dependencies_mappable(before, donor, root, k);
        assert(export_covered(src, p.table()));
        assert forall|j: int| 0 <= j < src.serialization_before_create@.len() implies mappable(
            p.table(),
            #[trigger] src.serialization_before_create@[j],
        ) by {}
    }
    lemma_carried_keeps_resolving(before, donor, p, after);
}

} // verus!
