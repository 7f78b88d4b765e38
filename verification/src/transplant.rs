//! Copying a subgraph of one graph into another.
//!
//! The subgraph under an export of the donor is carried into the target:
//! the exports that the walk from that export reaches, and the imports that
//! they depend on. The copies are put behind the target's own records, every
//! reference among them is turned into a reference of the target, and the
//! copy of the export that the walk started from becomes an actor of the
//! target's level.

use vstd::prelude::*;
use std::collections::HashMap;
use crate::carry::{
    are_properties_mappable,
    are_properties_supported,
    carry_export,
    carry_import,
    export_carried,
    import_carried,
    lemma_export_carried_stable,
    lemma_export_carried_valid,
    lemma_import_carried_stable,
    lemma_names_after_export_extend,
    lemma_names_after_import_extend,
    lemma_names_after_properties_distinct,
    lemma_prefix_chain,
    names_after_export,
    names_after_import,
    properties_mappable,
    properties_supported,
};
use crate::closure::{
    collect_exports,
    collect_imports,
    export_closure,
    import_closure,
    lemma_export_closure_shape,
    lemma_import_closure_distinct,
};
use crate::error::EditError;
use crate::graph::{AssetGraph, Export, Import, Payload};
use crate::name_table::{all_distinct, interned, lemma_intern_keeps_distinct, NameTable};
use crate::property::lemma_properties_names_valid_grows;
use crate::reference::RefIndex;
use crate::remap::{build_table, is_mappable, mappable, placement, Placement};

verus! {

/// The level root of a graph that has one.
pub open spec fn level_root_of(g: AssetGraph) -> RefIndex {
    choose|r: RefIndex| g.is_level_root(r)
}

/// A graph has one level root at most.
pub proof fn lemma_level_root_unique(g: AssetGraph, r: RefIndex)
    requires
        g.is_level_root(r),
    ensures
        level_root_of(g) == r,
        g.has_level_root(),
{
    let c = level_root_of(g);
    assert(g.is_level_root(c));
    if c.index < r.index {
        assert(g.is_level_root_at(c.index - 1));
    } else if r.index < c.index {
        assert(g.is_level_root_at(r.index - 1));
    }
    assert(g.is_level_root_at(r.index - 1));
}

/// No export of `order` holds a property of an unsupported kind.
pub open spec fn closure_supported(donor: AssetGraph, order: Seq<RefIndex>) -> bool {
    forall|k: int|
        0 <= k < order.len() ==> properties_supported(
            donor.export_at(#[trigger] order[k]).properties@,
        )
}

/// Every object property of the exports of `order`, and the parent of every
/// import of `found`, is null or has an entry in the table.
pub open spec fn closure_mappable(
    donor: AssetGraph,
    order: Seq<RefIndex>,
    found: Seq<RefIndex>,
    table: Map<i32, i32>,
) -> bool {
    &&& forall|k: int|
        0 <= k < order.len() ==> properties_mappable(
            donor.export_at(#[trigger] order[k]).properties@,
            table,
        )
    &&& forall|k: int|
        0 <= k < found.len() ==> mappable(table, donor.import_at(#[trigger] found[k]).outer_index)
}

/// Where the subgraph under `root` goes in `target`, or why it cannot be
/// carried over.
///
/// Both graphs need a level root, and `root` has to select an export of the
/// donor. The table of old and new indices cannot be built where a
/// dependency selects no record of the donor, where a new index would not
/// fit in 32 bits, or where the donor's level root is itself part of the
/// subgraph. It cannot be applied where an object property, or the parent of
/// an import, has no entry in it. A property of an unsupported kind anywhere
/// in the subgraph is refused before that.
pub open spec fn transplant_plan(target: AssetGraph, donor: AssetGraph, root: RefIndex) -> Result<
    Placement,
    EditError,
> {
    if !target.has_level_root() || !donor.has_level_root() {
        Err(EditError::LevelRootNotFound)
    } else if !donor.has_export(root) {
        Err(EditError::AmbiguousRootSelector)
    } else {
        match export_closure(donor.exports@, root) {
            None => Err(EditError::RemapConsistencyError),
            Some(order) => match import_closure(donor.exports@, donor.imports@, order) {
                None => Err(EditError::RemapConsistencyError),
                Some(found) => {
                    let p = placement(
                        order,
                        found,
                        target.exports@.len() as int,
                        target.imports@.len() as int,
                        level_root_of(donor),
                        level_root_of(target),
                    );
                    if !p.fits() || order.contains(p.donor_level) {
                        Err(EditError::RemapConsistencyError)
                    } else if !closure_supported(donor, order) {
                        Err(EditError::UnsupportedPropertyKind)
                    } else if !closure_mappable(donor, order, found, p.table()) {
                        Err(EditError::RemapConsistencyError)
                    } else {
                        Ok(p)
                    }
                },
            },
        }
    }
}

/// The table `names` after the names of the first `k` exports of `order`
/// were interned in it, export after export.
pub open spec fn names_after_exports(
    names: Seq<Seq<char>>,
    donor: AssetGraph,
    order: Seq<RefIndex>,
    k: int,
) -> Seq<Seq<char>>
    decreases k,
{
    if k <= 0 {
        names
    } else {
        names_after_export(
            names_after_exports(names, donor, order, k - 1),
            donor.names@,
            donor.export_at(order[k - 1]),
        )
    }
}

/// The table `names` after the names of the first `k` imports of `found`
/// were interned in it, import after import.
pub open spec fn names_after_imports(
    names: Seq<Seq<char>>,
    donor: AssetGraph,
    found: Seq<RefIndex>,
    k: int,
) -> Seq<Seq<char>>
    decreases k,
{
    if k <= 0 {
        names
    } else {
        names_after_import(
            names_after_imports(names, donor, found, k - 1),
            donor.names@,
            donor.import_at(found[k - 1]),
        )
    }
}

/// Interning the names of a subgraph only adds to the table.
pub proof fn lemma_names_after_exports_extend(
    names: Seq<Seq<char>>,
    donor: AssetGraph,
    order: Seq<RefIndex>,
    k: int,
)
    ensures
        names.is_prefix_of(names_after_exports(names, donor, order, k)),
    decreases k,
{
    if k > 0 {
        let before = names_after_exports(names, donor, order, k - 1);
        lemma_names_after_exports_extend(names, donor, order, k - 1);
        lemma_names_after_export_extend(before, donor.names@, donor.export_at(order[k - 1]));
        lemma_prefix_chain(names, before, names_after_exports(names, donor, order, k));
    }
}

/// Interning the names of a subgraph only adds to the table.
pub proof fn lemma_names_after_imports_extend(
    names: Seq<Seq<char>>,
    donor: AssetGraph,
    found: Seq<RefIndex>,
    k: int,
)
    ensures
        names.is_prefix_of(names_after_imports(names, donor, found, k)),
    decreases k,
{
    if k > 0 {
        let before = names_after_imports(names, donor, found, k - 1);
        lemma_names_after_imports_extend(names, donor, found, k - 1);
        lemma_names_after_import_extend(before, donor.names@, donor.import_at(found[k - 1]));
        lemma_prefix_chain(names, before, names_after_imports(names, donor, found, k));
    }
}

/// Carrying a subgraph over never removes a name and never moves one.
pub proof fn lemma_transplanted_names_extend(
    before: AssetGraph,
    donor: AssetGraph,
    p: Placement,
    after: AssetGraph,
)
    requires
        transplanted(before, donor, p, after),
    ensures
        before.names@.is_prefix_of(after.names@),
{
    let named = names_after_exports(before.names@, donor, p.exports, p.exports.len() as int);
    lemma_names_after_exports_extend(before.names@, donor, p.exports, p.exports.len() as int);
    lemma_names_after_imports_extend(named, donor, p.imports, p.imports.len() as int);
    lemma_prefix_chain(before.names@, named, after.names@);
}

/// Carrying a subgraph over keeps a table of names free of doubles.
pub proof fn lemma_transplanted_names_distinct(
    before: AssetGraph,
    donor: AssetGraph,
    p: Placement,
    after: AssetGraph,
)
    requires
        transplanted(before, donor, p, after),
        all_distinct(before.names@),
    ensures
        all_distinct(after.names@),
{
    lemma_names_after_exports_distinct(before.names@, donor, p.exports, p.exports.len() as int);
    lemma_names_after_imports_distinct(
        names_after_exports(before.names@, donor, p.exports, p.exports.len() as int),
        donor,
        p.imports,
        p.imports.len() as int,
    );
}

proof fn lemma_names_after_exports_distinct(
    names: Seq<Seq<char>>,
    donor: AssetGraph,
    order: Seq<RefIndex>,
    k: int,
)
    requires
        all_distinct(names),
    ensures
        all_distinct(names_after_exports(names, donor, order, k)),
    decreases k,
{
    if k > 0 {
        let before = names_after_exports(names, donor, order, k - 1);
        let e = donor.export_at(order[k - 1]);
        lemma_names_after_exports_distinct(names, donor, order, k - 1);
        lemma_intern_keeps_distinct(before, donor.names@[e.object_name.index as int]);
        lemma_names_after_properties_distinct(
            interned(before, donor.names@[e.object_name.index as int]),
            donor.names@,
            e.properties@,
            e.properties@.len() as int,
        );
    }
}

proof fn lemma_names_after_imports_distinct(
    names: Seq<Seq<char>>,
    donor: AssetGraph,
    found: Seq<RefIndex>,
    k: int,
)
    requires
        all_distinct(names),
    ensures
        all_distinct(names_after_imports(names, donor, found, k)),
    decreases k,
{
    if k > 0 {
        let before = names_after_imports(names, donor, found, k - 1);
        let i = donor.import_at(found[k - 1]);
        lemma_names_after_imports_distinct(names, donor, found, k - 1);
        let first = interned(before, donor.names@[i.class_package.index as int]);
        let second = interned(first, donor.names@[i.class_name.index as int]);
        lemma_intern_keeps_distinct(before, donor.names@[i.class_package.index as int]);
        lemma_intern_keeps_distinct(first, donor.names@[i.class_name.index as int]);
        lemma_intern_keeps_distinct(second, donor.names@[i.object_name.index as int]);
    }
}

/// `after` is `before` with `actor` added as the last actor of the level
/// and as the last of the objects to create before the level is serialized.
pub open spec fn actor_attached(before: Export, after: Export, actor: RefIndex) -> bool {
    &&& after.object_name == before.object_name
    &&& after.class_index == before.class_index
    &&& after.super_index == before.super_index
    &&& after.template_index == before.template_index
    &&& after.outer_index == before.outer_index
    &&& after.create_before_serialization@ == before.create_before_serialization@.push(actor)
    &&& after.serialization_before_create == before.serialization_before_create
    &&& after.create_before_create == before.create_before_create
    &&& after.properties == before.properties
    &&& before.payload matches Payload::Level { actors }
    &&& after.payload matches Payload::Level { actors: actors2 }
    &&& actors2@ == actors@.push(actor)
}

/// `after` is `before` with the subgraph of the placement `p` carried into
/// it from `donor`.
///
/// The names of the subgraph were interned, exports first. The carried
/// imports and exports stand behind the records that were there, in the
/// order of the placement. The first of the carried exports was attached to
/// the level root. No other record has changed.
pub open spec fn transplanted(before: AssetGraph, donor: AssetGraph, p: Placement, after: AssetGraph)
    -> bool {
    let n = before.exports@.len() as int;
    let m = before.imports@.len() as int;
    let level = p.target_level.index - 1;
    &&& after.names@ == names_after_imports(
        names_after_exports(before.names@, donor, p.exports, p.exports.len() as int),
        donor,
        p.imports,
        p.imports.len() as int,
    )
    &&& after.imports@.len() == m + p.imports.len()
    &&& forall|i: int| 0 <= i < m ==> #[trigger] after.imports@[i] == before.imports@[i]
    &&& forall|k: int|
        0 <= k < p.imports.len() ==> import_carried(
            donor.import_at(#[trigger] p.imports[k]),
            after.imports@[m + k],
            donor.names@,
            after.names@,
            p.table(),
        )
    &&& after.exports@.len() == n + p.exports.len()
    &&& forall|i: int|
        0 <= i < n && i != level ==> #[trigger] after.exports@[i] == before.exports@[i]
    &&& actor_attached(before.exports@[level], after.exports@[level], RefIndex { index: (n + 1) as i32 })
    &&& forall|k: int|
        0 <= k < p.exports.len() ==> export_carried(
            donor.export_at(#[trigger] p.exports[k]),
            after.exports@[n + k],
            donor.names@,
            after.names@,
            p.table(),
        )
}

/// Which record of the donor went where in the target.
#[derive(Debug)]
pub struct TransplantReport {
    /// For each carried export, its reference in the donor and its
    /// reference in the target.
    pub exports: Vec<(RefIndex, RefIndex)>,
    /// For each carried import, its reference in the donor and its
    /// reference in the target.
    pub imports: Vec<(RefIndex, RefIndex)>,
}

impl TransplantReport {
    /// The report lists the records of the placement with their new
    /// references, in order.
    pub open spec fn tells(self, p: Placement) -> bool {
        &&& self.exports@.len() == p.exports.len()
        &&& forall|k: int|
            0 <= k < p.exports.len() ==> #[trigger] self.exports@[k] == (
                p.exports[k],
                p.target_of(p.exports[k]),
            )
        &&& self.imports@.len() == p.imports.len()
        &&& forall|k: int|
            0 <= k < p.imports.len() ==> #[trigger] self.imports@[k] == (
                p.imports[k],
                p.target_of(p.imports[k]),
            )
    }
}

/// Checks that every record of the subgraph can be carried over.
fn check_closure(
    donor: &AssetGraph,
    order: &Vec<RefIndex>,
    found: &Vec<RefIndex>,
    table: &HashMap<i32, i32>,
) -> (checked: Result<(), EditError>)
    requires
        forall|k: int| 0 <= k < order@.len() ==> donor.has_export(#[trigger] order@[k]),
        forall|k: int| 0 <= k < found@.len() ==> donor.has_import(#[trigger] found@[k]),
    ensures
        match checked {
            Ok(_) => closure_supported(*donor, order@) && closure_mappable(
                *donor,
                order@,
                found@,
                table@,
            ),
            Err(e) => if closure_supported(*donor, order@) {
                e == EditError::RemapConsistencyError && !closure_mappable(
                    *donor,
                    order@,
                    found@,
                    table@,
                )
            } else {
                e == EditError::UnsupportedPropertyKind
            },
        },
{
    let n = order.len();
    let mut k: usize = 0;
    while k < n
        invariant
            k <= n,
            n == order@.len(),
            forall|i: int| 0 <= i < order@.len() ==> donor.has_export(#[trigger] order@[i]),
            forall|i: int|
                0 <= i < k ==> properties_supported(
                    donor.export_at(#[trigger] order@[i]).properties@,
                ),
        decreases n - k,
    {
        assert(donor.has_export(order@[k as int]));
        match donor.get_export(order[k]) {
            Some(export) => {
                if !are_properties_supported(&export.properties) {
                    return Err(EditError::UnsupportedPropertyKind);
                }
            },
            None => {},
        }
        k = k + 1;
    }
    let mut k: usize = 0;
    while k < n
        invariant
            k <= n,
            n == order@.len(),
            forall|i: int| 0 <= i < order@.len() ==> donor.has_export(#[trigger] order@[i]),
            closure_supported(*donor, order@),
            forall|i: int|
                0 <= i < k ==> properties_mappable(
                    donor.export_at(#[trigger] order@[i]).properties@,
                    table@,
                ),
        decreases n - k,
    {
        assert(donor.has_export(order@[k as int]));
        match donor.get_export(order[k]) {
            Some(export) => {
                if !are_properties_mappable(&export.properties, table) {
                    return Err(EditError::RemapConsistencyError);
                }
            },
            None => {},
        }
        k = k + 1;
    }
    let m = found.len();
    let mut k: usize = 0;
    while k < m
        invariant
            k <= m,
            m == found@.len(),
            closure_supported(*donor, order@),
            forall|i: int|
                0 <= i < order@.len() ==> properties_mappable(
                    donor.export_at(#[trigger] order@[i]).properties@,
                    table@,
                ),
            forall|i: int| 0 <= i < found@.len() ==> donor.has_import(#[trigger] found@[i]),
            forall|i: int|
                0 <= i < k ==> mappable(
                    table@,
                    donor.import_at(#[trigger] found@[i]).outer_index,
                ),
        decreases m - k,
    {
        assert(donor.has_import(found@[k as int]));
        match donor.get_import(found[k]) {
            Some(import) => {
                if !is_mappable(table, import.outer_index) {
                    return Err(EditError::RemapConsistencyError);
                }
            },
            None => {},
        }
        k = k + 1;
    }
    Ok(())
}

/// Carries the exports of `order` over, one after the other.
fn carry_exports(
    donor: &AssetGraph,
    order: &Vec<RefIndex>,
    names: &mut NameTable,
    table: &HashMap<i32, i32>,
) -> (carried: Vec<Export>)
    requires
        donor.wf(),
        forall|k: int| 0 <= k < order@.len() ==> donor.has_export(#[trigger] order@[k]),
        closure_supported(*donor, order@),
        forall|k: int|
            0 <= k < order@.len() ==> properties_mappable(
                donor.export_at(#[trigger] order@[k]).properties@,
                table@,
            ),
    ensures
        final(names)@ == names_after_exports(old(names)@, *donor, order@, order@.len() as int),
        old(names)@.is_prefix_of(final(names)@),
        carried@.len() == order@.len(),
        forall|k: int|
            0 <= k < order@.len() ==> export_carried(
                donor.export_at(#[trigger] order@[k]),
                carried@[k],
                donor.names@,
                final(names)@,
                table@,
            ),
{
    let ghost start = names@;
    let n = order.len();
    let mut carried: Vec<Export> = Vec::new();
    let mut k: usize = 0;
    while k < n
        invariant
            k <= n,
            n == order@.len(),
            donor.wf(),
            forall|i: int| 0 <= i < order@.len() ==> donor.has_export(#[trigger] order@[i]),
            closure_supported(*donor, order@),
            forall|i: int|
                0 <= i < order@.len() ==> properties_mappable(
                    donor.export_at(#[trigger] order@[i]).properties@,
                    table@,
                ),
            names@ == names_after_exports(start, *donor, order@, k as int),
            start.is_prefix_of(names@),
            carried@.len() == k,
            forall|i: int|
                0 <= i < k ==> export_carried(
                    donor.export_at(#[trigger] order@[i]),
                    carried@[i],
                    donor.names@,
                    names@,
                    table@,
                ),
        decreases n - k,
    {
        let ghost before = names@;
        let ghost done = carried@;
        assert(donor.has_export(order@[k as int]));
        match donor.get_export(order[k]) {
            Some(export) => {
                assert(*export == donor.exports@[order@[k as int].index - 1]);
                assert(export.names_valid(donor.names@.len() as int));
                let copy = carry_export(export, &donor.names, names, table);
                carried.push(copy);
            },
            None => {
                assert(false);
            },
        }
        proof {
            assert(start.is_prefix_of(names@)) by {
                assert forall|i: int| 0 <= i < start.len() implies start[i] == names@[i] by {
                    assert(start[i] == before[i]);
                }
            }
            assert forall|i: int| 0 <= i < k + 1 implies export_carried(
                donor.export_at(#[trigger] order@[i]),
                carried@[i],
                donor.names@,
                names@,
                table@,
            ) by {
                if i < k {
                    assert(carried@[i] == done[i]);
                    lemma_export_carried_stable(
                        donor.export_at(order@[i]),
                        done[i],
                        donor.names@,
                        before,
                        names@,
                        table@,
                    );
                }
            }
        }
        k = k + 1;
    }
    carried
}

/// Carries the imports of `found` over, one after the other.
fn carry_imports(
    donor: &AssetGraph,
    found: &Vec<RefIndex>,
    names: &mut NameTable,
    table: &HashMap<i32, i32>,
) -> (carried: Vec<Import>)
    requires
        donor.wf(),
        forall|k: int| 0 <= k < found@.len() ==> donor.has_import(#[trigger] found@[k]),
        forall|k: int|
            0 <= k < found@.len() ==> mappable(
                table@,
                donor.import_at(#[trigger] found@[k]).outer_index,
            ),
    ensures
        final(names)@ == names_after_imports(old(names)@, *donor, found@, found@.len() as int),
        old(names)@.is_prefix_of(final(names)@),
        carried@.len() == found@.len(),
        forall|k: int|
            0 <= k < found@.len() ==> import_carried(
                donor.import_at(#[trigger] found@[k]),
                carried@[k],
                donor.names@,
                final(names)@,
                table@,
            ),
{
    let ghost start = names@;
    let n = found.len();
    let mut carried: Vec<Import> = Vec::new();
    let mut k: usize = 0;
    while k < n
        invariant
            k <= n,
            n == found@.len(),
            donor.wf(),
            forall|i: int| 0 <= i < found@.len() ==> donor.has_import(#[trigger] found@[i]),
            forall|i: int|
                0 <= i < found@.len() ==> mappable(
                    table@,
                    donor.import_at(#[trigger] found@[i]).outer_index,
                ),
            names@ == names_after_imports(start, *donor, found@, k as int),
            start.is_prefix_of(names@),
            carried@.len() == k,
            forall|i: int|
                0 <= i < k ==> import_carried(
                    donor.import_at(#[trigger] found@[i]),
                    carried@[i],
                    donor.names@,
                    names@,
                    table@,
                ),
        decreases n - k,
    {
        let ghost before = names@;
        let ghost done = carried@;
        assert(donor.has_import(found@[k as int]));
        match donor.get_import(found[k]) {
            Some(import) => {
                assert(import == donor.imports@[-found@[k as int].index - 1]);
                assert(import.names_valid(donor.names@.len() as int));
                let copy = carry_import(&import, &donor.names, names, table);
                carried.push(copy);
            },
            None => {
                assert(false);
            },
        }
        proof {
            assert(start.is_prefix_of(names@)) by {
                assert forall|i: int| 0 <= i < start.len() implies start[i] == names@[i] by {
                    assert(start[i] == before[i]);
                }
            }
            assert forall|i: int| 0 <= i < k + 1 implies import_carried(
                donor.import_at(#[trigger] found@[i]),
                carried@[i],
                donor.names@,
                names@,
                table@,
            ) by {
                if i < k {
                    assert(carried@[i] == done[i]);
                    lemma_import_carried_stable(
                        donor.import_at(found@[i]),
                        done[i],
                        donor.names@,
                        before,
                        names@,
                        table@,
                    );
                }
            }
        }
        k = k + 1;
    }
    carried
}

/// Makes `actor` the last actor of a level, to be created before the level
/// is serialized.
fn attach_actor(level: &mut Export, actor: RefIndex)
    requires
        old(level).is_level(),
    ensures
        actor_attached(*old(level), *final(level), actor),
{
    level.create_before_serialization.push(actor);
    match &mut level.payload {
        Payload::Level { actors } => {
            actors.push(actor);
        },
        Payload::Normal => {},
    }
}

/// Lists the records of a placement with their new references.
fn report_placement(
    order: &Vec<RefIndex>,
    found: &Vec<RefIndex>,
    export_base: usize,
    import_base: usize,
    Ghost(p): Ghost<Placement>,
) -> (report: TransplantReport)
    requires
        p.wf(),
        p.exports == order@,
        p.imports == found@,
        p.export_base == export_base,
        p.import_base == import_base,
    ensures
        report.tells(p),
{
    let mut exports: Vec<(RefIndex, RefIndex)> = Vec::new();
    let n = order.len();
    let mut k: usize = 0;
    while k < n
        invariant
            k <= n,
            n == order@.len(),
            p.wf(),
            p.exports == order@,
            p.export_base == export_base,
            exports@.len() == k,
            forall|i: int|
                0 <= i < k ==> #[trigger] exports@[i] == (p.exports[i], p.target_of(p.exports[i])),
        decreases n - k,
    {
        proof {
            crate::remap::lemma_index_of_distinct(order@, k as int);
        }
        exports.push((order[k], RefIndex { index: (export_base + k + 1) as i32 }));
        k = k + 1;
    }
    let mut imports: Vec<(RefIndex, RefIndex)> = Vec::new();
    let m = found.len();
    let mut k: usize = 0;
    while k < m
        invariant
            k <= m,
            m == found@.len(),
            p.wf(),
            p.imports == found@,
            p.import_base == import_base,
            imports@.len() == k,
            forall|i: int|
                0 <= i < k ==> #[trigger] imports@[i] == (p.imports[i], p.target_of(p.imports[i])),
        decreases m - k,
    {
        proof {
            crate::remap::lemma_index_of_distinct(found@, k as int);
            let r = found@[k as int];
            assert(r.index <= -1);
            if p.exports.contains(r) {
                let i = choose|i: int| 0 <= i < p.exports.len() && p.exports[i] == r;
                assert(p.exports[i].index >= 1);
            }
        }
        imports.push(
            (found[k], RefIndex { index: (-(import_base as i64) - (k as i64) - 1) as i32 }),
        );
        k = k + 1;
    }
    TransplantReport { exports, imports }
}

/// A graph that a subgraph was carried into is well formed, if it was
/// before. Its level root is the level root that it had.
pub proof fn lemma_transplanted_wf(
    before: AssetGraph,
    donor: AssetGraph,
    p: Placement,
    after: AssetGraph,
)
    requires
        before.wf(),
        p.wf(),
        p.export_base == before.exports@.len(),
        p.import_base == before.imports@.len(),
        before.is_level_root(p.target_level),
        transplanted(before, donor, p, after),
    ensures
        after.wf(),
        after.is_level_root(p.target_level),
{
    lemma_transplanted_names_extend(before, donor, p, after);
    assert forall|j: int| 0 <= j < p.target_level.index - 1 implies !after.is_level_root_at(j) by {
        assert(after.exports@[j] == before.exports@[j]);
        assert(before.exports@[j].names_valid(before.names@.len() as int));
        assert(!before.is_level_root_at(j));
    }
    let n = before.exports@.len() as int;
    let m = before.imports@.len() as int;
    let names = after.names@.len() as int;
    let level = p.target_level.index - 1;
    assert forall|i: int| 0 <= i < after.imports@.len() implies (
    #[trigger] after.imports@[i]).names_valid(names) by {
        if i < m {
            assert(after.imports@[i] == before.imports@[i]);
            assert(before.imports@[i].names_valid(before.names@.len() as int));
        } else {
            let k = i - m;
            assert(import_carried(
                donor.import_at(p.imports[k]),
                after.imports@[m + k],
                donor.names@,
                after.names@,
                p.table(),
            ));
        }
    }
    assert forall|i: int| 0 <= i < after.exports@.len() implies (
    #[trigger] after.exports@[i]).names_valid(names) by {
        if i < n {
            assert(before.exports@[i].names_valid(before.names@.len() as int));
            lemma_properties_names_valid_grows(
                before.exports@[i].properties@,
                before.names@.len() as int,
                names,
            );
            if i != level {
                assert(after.exports@[i] == before.exports@[i]);
            }
        } else {
            let k = i - n;
            assert(export_carried(
                donor.export_at(p.exports[k]),
                after.exports@[n + k],
                donor.names@,
                after.names@,
                p.table(),
            ));
            lemma_export_carried_valid(
                donor.export_at(p.exports[k]),
                after.exports@[n + k],
                donor.names@,
                after.names@,
                p.table(),
            );
        }
    }
}

/// Carries the subgraph under the export `root` of `donor` into `target`.
///
/// On success the exports and imports of the subgraph stand behind the
/// records that `target` had, every reference among them is a reference of
/// `target`, and the copy of `root` is the last actor of the level. The
/// report lists which record went where. On failure `target` is as it was.
pub fn transplant(target: &mut AssetGraph, donor: &AssetGraph, root: RefIndex) -> (result: Result<
    TransplantReport,
    EditError,
>)
    requires
        old(target).wf(),
        donor.wf(),
    ensures
        match result {
            Ok(report) => (transplant_plan(*old(target), *donor, root) matches Ok(p)
                && transplanted(*old(target), *donor, p, *final(target)) && report.tells(p)),
            Err(e) => transplant_plan(*old(target), *donor, root) == Err::<Placement, EditError>(e)
                && *final(target) == *old(target),
        },
        final(target).wf(),
        old(target).names@.is_prefix_of(final(target).names@),
        forall|r: RefIndex| old(target).is_level_root(r) ==> final(target).is_level_root(r),
{
    let ghost before = *target;
    let target_level = match target.find_level_root() {
        Some(r) => r,
        None => {
            return Err(EditError::LevelRootNotFound);
        },
    };
    let donor_level = match donor.find_level_root() {
        Some(r) => r,
        None => {
            return Err(EditError::LevelRootNotFound);
        },
    };
    proof {
        lemma_level_root_unique(before, target_level);
        lemma_level_root_unique(*donor, donor_level);
    }
    if donor.get_export(root).is_none() {
        return Err(EditError::AmbiguousRootSelector);
    }
    let order = match collect_exports(donor, root) {
        Some(order) => order,
        None => {
            return Err(EditError::RemapConsistencyError);
        },
    };
    proof {
        lemma_export_closure_shape(donor.exports@, root);
    }
    let found = match collect_imports(donor, &order) {
        Some(found) => found,
        None => {
            return Err(EditError::RemapConsistencyError);
        },
    };
    let n = target.exports.len();
    let m = target.imports.len();
    let ghost p = placement(order@, found@, n as int, m as int, donor_level, target_level);
    proof {
        lemma_import_closure_distinct(donor.exports@, donor.imports@, order@, order@.len() as int);
    }
    if order.len() > i32::MAX as usize - n || found.len() > i32::MAX as usize - m {
        return Err(EditError::RemapConsistencyError);
    }
    let table = match build_table(&order, &found, n, m, donor_level, target_level) {
        Ok(table) => table,
        Err(e) => {
            return Err(e);
        },
    };
    match check_closure(donor, &order, &found, &table) {
        Ok(_) => {},
        Err(e) => {
            return Err(e);
        },
    }
    assert(transplant_plan(before, *donor, root) == Ok::<Placement, EditError>(p));
    assert(p.wf());
    let report = report_placement(&order, &found, n, m, Ghost(p));
    let mut new_exports = carry_exports(donor, &order, &mut target.names, &table);
    let ghost named = target.names@;
    let ghost carried_exports = new_exports@;
    let mut new_imports = carry_imports(donor, &found, &mut target.names, &table);
    let ghost carried_imports = new_imports@;
    let actor = RefIndex { index: n as i32 + 1 };
    let position = (target_level.index - 1) as usize;
    attach_actor(&mut target.exports[position], actor);
    target.exports.append(&mut new_exports);
    target.imports.append(&mut new_imports);
    proof {
        assert(before.names@.is_prefix_of(target.names@)) by {
            assert forall|i: int| 0 <= i < before.names@.len() implies before.names@[i]
                == target.names@[i] by {
                assert(before.names@[i] == named[i]);
            }
        }
        assert forall|k: int| 0 <= k < p.exports.len() implies export_carried(
            donor.export_at(#[trigger] p.exports[k]),
            target.exports@[n + k],
            donor.names@,
            target.names@,
            p.table(),
        ) by {
            assert(target.exports@[n + k] == carried_exports[k]);
            lemma_export_carried_stable(
                donor.export_at(p.exports[k]),
                carried_exports[k],
                donor.names@,
                named,
                target.names@,
                p.table(),
            );
        }
        assert forall|k: int| 0 <= k < p.imports.len() implies import_carried(
            donor.import_at(#[trigger] p.imports[k]),
            target.imports@[m + k],
            donor.names@,
            target.names@,
            p.table(),
        ) by {
            assert(target.imports@[m + k] == carried_imports[k]);
        }
        assert(transplanted(before, *donor, p, *target));
        lemma_transplanted_wf(before, *donor, p, *target);
    }
    Ok(report)
}

/// `after` is `before` with the subgraph under `root` carried into it.
pub open spec fn carried(before: AssetGraph, donor: AssetGraph, root: RefIndex, after: AssetGraph)
    -> bool {
    &&& transplant_plan(before, donor, root) is Ok
    &&& transplanted(before, donor, transplant_plan(before, donor, root)->Ok_0, after)
}

/// `states` are the graphs that arise when the subgraphs under the first
/// `k` roots are carried over one after the other, each into the graph that
/// the one before has left.
pub open spec fn carried_in_turn(
    states: Seq<AssetGraph>,
    donor: AssetGraph,
    roots: Seq<RefIndex>,
    k: int,
) -> bool {
    &&& states.len() == k + 1
    &&& forall|j: int|
        #![trigger states[j]]
        0 <= j < k ==> carried(states[j], donor, roots[j], states[j + 1])
}

/// What carrying several subgraphs over has done: the report of each that
/// was carried over, and the error that stopped the work, if one did.
#[derive(Debug)]
pub struct TransplantRun {
    pub reports: Vec<TransplantReport>,
    pub stopped_by: Option<EditError>,
}

/// Carries the subgraphs under `roots` into `target`, one after the other.
/// Each is carried into the graph as the one before has left it. The work
/// stops at the first that cannot be carried over; those before it stay.
pub fn transplant_all(target: &mut AssetGraph, donor: &AssetGraph, roots: &Vec<RefIndex>) -> (run:
    TransplantRun)
    requires
        old(target).wf(),
        donor.wf(),
    ensures
        final(target).wf(),
        run.reports@.len() <= roots@.len(),
        exists|states: Seq<AssetGraph>|
            {
                &&& #[trigger] carried_in_turn(states, *donor, roots@, run.reports@.len() as int)
                &&& states[0] == *old(target)
                &&& states[run.reports@.len() as int] == *final(target)
                &&& forall|j: int|
                    0 <= j < run.reports@.len() ==> (#[trigger] run.reports@[j]).tells(
                        transplant_plan(states[j], *donor, roots@[j])->Ok_0,
                    )
            },
        match run.stopped_by {
            None => run.reports@.len() == roots@.len(),
            Some(e) => run.reports@.len() < roots@.len() && transplant_plan(
                *final(target),
                *donor,
                roots@[run.reports@.len() as int],
            ) == Err::<Placement, EditError>(e),
        },
{
    let mut reports: Vec<TransplantReport> = Vec::new();
    let ghost mut states: Seq<AssetGraph> = seq![*target];
    let n = roots.len();
    let mut k: usize = 0;
    while k < n
        invariant
            k <= n,
            n == roots@.len(),
            donor.wf(),
            target.wf(),
            reports@.len() == k,
            carried_in_turn(states, *donor, roots@, k as int),
            states[0] == *old(target),
            states[k as int] == *target,
            forall|j: int|
                0 <= j < k ==> (#[trigger] reports@[j]).tells(
                    transplant_plan(states[j], *donor, roots@[j])->Ok_0,
                ),
        decreases n - k,
    {
        let ghost before = states;
        let ghost listed = reports@;
        match transplant(target, donor, roots[k]) {
            Ok(report) => {
                reports.push(report);
                proof {
                    states = before.push(*target);
                    assert forall|j: int|
                        #![trigger states[j]]
                        0 <= j < k + 1 implies carried(
                        states[j],
                        *donor,
                        roots@[j],
                        states[j + 1],
                    ) by {
                        if j < k {
                            assert(states[j] == before[j]);
                            assert(states[j + 1] == before[j + 1]);
                        }
                    }
                    assert forall|j: int| 0 <= j < k + 1 implies (#[trigger] reports@[j]).tells(
                        transplant_plan(states[j], *donor, roots@[j])->Ok_0,
                    ) by {
                        if j < k {
                            assert(reports@[j] == listed[j]);
                            assert(states[j] == before[j]);
                        }
                    }
                }
            },
            Err(e) => {
                return TransplantRun { reports, stopped_by: Some(e) };
            },
        }
        k = k + 1;
    }
    TransplantRun { reports, stopped_by: None }
}

} // verus!
