//! The edits of a single graph: detaching and renaming imports, and taking
//! actors out of the level.

use vstd::prelude::*;
use vstd::string::*;
use std::collections::HashSet;
use crate::error::EditError;
use crate::graph::{AssetGraph, Export, Import, Payload};
use crate::name_table::{interned, is_first_index, renamed};
use crate::property::lemma_properties_names_valid_grows;
use crate::reference::RefIndex;
use crate::text::{contains_text, decimal_i32, parse_decimal_i32, split_on, split_text, texts};

verus! {

/// Replaces `from` by `to` inside every name of the graph. Every name stays
/// where it is, so every record keeps its names, now with their new texts.
/// Returns the positions of the names in which `from` stood, in rising
/// order.
pub fn rename_names(graph: &mut AssetGraph, from: &str, to: &str) -> (touched: Vec<usize>)
    requires
        old(graph).wf(),
    ensures
        final(graph).wf(),
        final(graph).names@ == renamed(old(graph).names@, from@, to@),
        final(graph).imports == old(graph).imports,
        final(graph).exports == old(graph).exports,
        forall|k: int|
            #![trigger touched@[k]]
            0 <= k < touched@.len() ==> touched@[k] < old(graph).names@.len() && contains_text(
                old(graph).names@[touched@[k] as int],
                from@,
            ),
        forall|i: int|
            0 <= i < old(graph).names@.len() && contains_text(
                #[trigger] old(graph).names@[i],
                from@,
            ) ==> touched@.contains(i as usize),
        forall|k: int, l: int| 0 <= k < l < touched@.len() ==> touched@[k] < touched@[l],
{
    graph.names.rename_matching(from, to)
}

/// The import is known by the text `name`.
pub open spec fn import_named(names: Seq<Seq<char>>, import: Import, name: Seq<char>) -> bool {
    names[import.object_name.index as int] == name
}

/// The import after imports named `name` were detached: one of that name
/// lies at the top, any other is as it was.
pub open spec fn import_detached(names: Seq<Seq<char>>, name: Seq<char>, import: Import)
    -> Import {
    if import_named(names, import, name) {
        Import {
            class_package: import.class_package,
            class_name: import.class_name,
            object_name: import.object_name,
            outer_index: RefIndex { index: 0 },
        }
    } else {
        import
    }
}

/// The imports after those named `name` were detached.
pub open spec fn imports_detached(names: Seq<Seq<char>>, name: Seq<char>, imports: Seq<Import>)
    -> Seq<Import> {
    Seq::new(imports.len(), |k: int| import_detached(names, name, imports[k]))
}

/// Detaching the imports of a name a second time changes nothing.
pub proof fn lemma_detach_twice(names: Seq<Seq<char>>, name: Seq<char>, imports: Seq<Import>)
    ensures
        imports_detached(names, name, imports_detached(names, name, imports)) == imports_detached(
            names,
            name,
            imports,
        ),
{
    assert(imports_detached(names, name, imports_detached(names, name, imports))
        =~= imports_detached(names, name, imports));
}

/// An import that was detached: where it stands and what it lay in.
#[derive(Clone, Copy, Debug, PartialEq, Eq, Structural)]
pub struct Detached {
    pub import: RefIndex,
    pub outer_before: RefIndex,
}

/// Detaches every import named `name`: its parent becomes null, so that it
/// lies at the top. Returns the imports of that name, in order, each with
/// the parent it had.
pub fn disable_import(graph: &mut AssetGraph, name: &str) -> (detached: Vec<Detached>)
    requires
        old(graph).wf(),
    ensures
        final(graph).imports@ == imports_detached(old(graph).names@, name@, old(graph).imports@),
        final(graph).names == old(graph).names,
        final(graph).exports == old(graph).exports,
        final(graph).wf(),
        forall|k: int|
            #![trigger detached@[k]]
            0 <= k < detached@.len() ==> {
                let r = detached@[k].import;
                &&& old(graph).has_import(r)
                &&& import_named(old(graph).names@, old(graph).import_at(r), name@)
                &&& detached@[k].outer_before == old(graph).import_at(r).outer_index
            },
        forall|i: int|
            0 <= i < old(graph).imports@.len() && import_named(
                old(graph).names@,
                #[trigger] old(graph).imports@[i],
                name@,
            ) ==> exists|k: int| 0 <= k < detached@.len() && detached@[k].import.index == -i - 1,
        forall|k: int, l: int|
            0 <= k < l < detached@.len() ==> detached@[k].import.index > detached@[l].import.index,
{
    let ghost before = graph.imports@;
    let ghost names = graph.names@;
    let wanted = name.to_owned();
    let n = graph.imports.len();
    let mut detached: Vec<Detached> = Vec::new();
    let mut i: usize = 0;
    while i < n
        invariant
            i <= n,
            n == before.len(),
            n <= i32::MAX,
            before == old(graph).imports@,
            names == old(graph).names@,
            wanted@ == name@,
            graph.names == old(graph).names,
            graph.exports == old(graph).exports,
            graph.imports@.len() == n,
            forall|j: int| 0 <= j < n ==> (#[trigger] before[j]).names_valid(names.len() as int),
            forall|j: int|
                0 <= j < i ==> #[trigger] graph.imports@[j] == import_detached(
                    names,
                    name@,
                    before[j],
                ),
            forall|j: int| i <= j < n ==> #[trigger] graph.imports@[j] == before[j],
            forall|k: int|
                #![trigger detached@[k]]
                0 <= k < detached@.len() ==> {
                    let r = detached@[k].import;
                    &&& 1 <= -r.index <= i
                    &&& import_named(names, before[-r.index - 1], name@)
                    &&& detached@[k].outer_before == before[-r.index - 1].outer_index
                },
            forall|j: int|
                0 <= j < i && import_named(names, #[trigger] before[j], name@) ==> exists|k: int|
                    0 <= k < detached@.len() && detached@[k].import.index == -j - 1,
            forall|k: int, l: int|
                0 <= k < l < detached@.len() ==> detached@[k].import.index
                    > detached@[l].import.index,
        decreases n - i,
    {
        let import = graph.imports[i];
        let ghost listed = detached@;
        assert(before[i as int].names_valid(names.len() as int));
        if graph.names.resolves_to(import.object_name, &wanted) {
            detached.push(
                Detached {
                    import: RefIndex { index: -(i as i32) - 1 },
                    outer_before: import.outer_index,
                },
            );
            graph.imports.set(
                i,
                Import {
                    class_package: import.class_package,
                    class_name: import.class_name,
                    object_name: import.object_name,
                    outer_index: RefIndex { index: 0 },
                },
            );
        }
        proof {
            assert forall|j: int|
                0 <= j < i + 1 && import_named(names, #[trigger] before[j], name@) implies exists|
                k: int,
            | 0 <= k < detached@.len() && detached@[k].import.index == -j - 1 by {
                if j < i {
                    let k = choose|k: int|
                        0 <= k < listed.len() && listed[k].import.index == -j - 1;
                    assert(detached@[k] == listed[k]);
                } else {
                    assert(detached@[detached@.len() - 1].import.index == -j - 1);
                }
            }
        }
        i = i + 1;
    }
    assert(graph.imports@ =~= imports_detached(names, name@, before));
    detached
}

/// `i` is the first position of an import named `name`.
pub open spec fn is_first_import_named(
    names: Seq<Seq<char>>,
    imports: Seq<Import>,
    name: Seq<char>,
    i: int,
) -> bool {
    &&& 0 <= i < imports.len()
    &&& import_named(names, imports[i], name)
    &&& forall|j: int| 0 <= j < i ==> !import_named(names, #[trigger] imports[j], name)
}

/// Some import is named `name`.
pub open spec fn has_import_named(names: Seq<Seq<char>>, imports: Seq<Import>, name: Seq<char>)
    -> bool {
    exists|i: int| 0 <= i < imports.len() && import_named(names, #[trigger] imports[i], name)
}

/// Names that lie in the table of a well-formed graph still lie in it when
/// the table has grown.
pub proof fn lemma_wf_names_grow(before: AssetGraph, after: AssetGraph)
    requires
        before.wf(),
        before.names@.len() <= after.names@.len(),
        after.imports == before.imports,
        after.exports == before.exports,
    ensures
        after.wf(),
{
    let more = after.names@.len() as int;
    assert forall|i: int| 0 <= i < after.exports@.len() implies (
    #[trigger] after.exports@[i]).names_valid(more) by {
        assert(before.exports@[i].names_valid(before.names@.len() as int));
        lemma_properties_names_valid_grows(
            before.exports@[i].properties@,
            before.names@.len() as int,
            more,
        );
    }
    assert forall|i: int| 0 <= i < after.imports@.len() implies (
    #[trigger] after.imports@[i]).names_valid(more) by {
        assert(before.imports@[i].names_valid(before.names@.len() as int));
    }
}

/// The two names of a renaming written as `old>new`: the text before the
/// first `>` and the text between it and the next, or up to the end.
/// `None` where the text holds no `>`.
pub open spec fn rename_parts(s: Seq<char>) -> Option<(Seq<char>, Seq<char>)> {
    let pieces = split_on(s, '>');
    if pieces.len() < 2 {
        None
    } else {
        Some((pieces[0], pieces[1]))
    }
}

/// Reads a renaming written as `old>new`.
pub fn parse_rename(expression: &str) -> (parsed: Result<(String, String), EditError>)
    ensures
        match parsed {
            Ok((old_name, new_name)) => rename_parts(expression@) == Some((old_name@, new_name@)),
            Err(e) => e == EditError::MalformedExpression && rename_parts(expression@) is None,
        },
{
    let pieces = split_text(expression, '>');
    if pieces.len() < 2 {
        return Err(EditError::MalformedExpression);
    }
    assert(texts(pieces@)[0] == pieces@[0]@ && texts(pieces@)[1] == pieces@[1]@);
    Ok((pieces[0].clone(), pieces[1].clone()))
}

/// Gives the first import named `old_name` the name `new_name`.
///
/// The new name is interned first, whether or not an import is found.
/// Returns the import that was renamed, or `ImportNotFound` where no import
/// has the old name.
pub fn rename_import(graph: &mut AssetGraph, old_name: &str, new_name: &str) -> (renamed: Result<
    RefIndex,
    EditError,
>)
    requires
        old(graph).wf(),
    ensures
        final(graph).names@ == interned(old(graph).names@, new_name@),
        final(graph).exports == old(graph).exports,
        final(graph).wf(),
        match renamed {
            Ok(r) => {
                let i = -r.index - 1;
                let before = old(graph).imports@;
                let after = final(graph).imports@;
                &&& is_first_import_named(old(graph).names@, before, old_name@, i)
                &&& after.len() == before.len()
                &&& forall|j: int| 0 <= j < before.len() && j != i ==> #[trigger] after[j] == before[j]
                &&& after[i].class_package == before[i].class_package
                &&& after[i].class_name == before[i].class_name
                &&& after[i].outer_index == before[i].outer_index
                &&& is_first_index(final(graph).names@, new_name@, after[i].object_name.index as int)
            },
            Err(e) => {
                &&& e == EditError::ImportNotFound
                &&& !has_import_named(old(graph).names@, old(graph).imports@, old_name@)
                &&& final(graph).imports == old(graph).imports
            },
        },
{
    let ghost before = *graph;
    let new_ref = graph.names.intern(new_name);
    proof {
        crate::name_table::lemma_intern_keeps_entries(before.names@, new_name@);
        lemma_wf_names_grow(before, *graph);
    }
    let wanted = old_name.to_owned();
    let n = graph.imports.len();
    let mut i: usize = 0;
    while i < n
        invariant
            i <= n,
            n == graph.imports@.len(),
            n <= i32::MAX,
            graph.wf(),
            before == *old(graph),
            graph.imports == before.imports,
            graph.exports == before.exports,
            graph.names@ == interned(before.names@, new_name@),
            before.wf(),
            wanted@ == old_name@,
            is_first_index(graph.names@, new_name@, new_ref.index as int),
            forall|j: int|
                0 <= j < before.names@.len() ==> #[trigger] graph.names@[j] == before.names@[j],
            forall|j: int|
                0 <= j < i ==> !import_named(before.names@, #[trigger] before.imports@[j], old_name@),
        decreases n - i,
    {
        let import = graph.imports[i];
        assert(before.imports@[i as int].names_valid(before.names@.len() as int));
        if graph.names.resolves_to(import.object_name, &wanted) {
            graph.imports.set(
                i,
                Import {
                    class_package: import.class_package,
                    class_name: import.class_name,
                    object_name: new_ref,
                    outer_index: import.outer_index,
                },
            );
            proof {
                assert forall|j: int| 0 <= j < graph.imports@.len() implies (
                #[trigger] graph.imports@[j]).names_valid(graph.names@.len() as int) by {
                    if j != i {
                        assert(before.imports@[j].names_valid(before.names@.len() as int));
                    }
                }
            }
            return Ok(RefIndex { index: -(i as i32) - 1 });
        }
        i = i + 1;
    }
    Err(EditError::ImportNotFound)
}

/// How an actor is selected: by the name of its export, which may select
/// several, or by the index of its export, written in decimal and counted
/// from one.
#[derive(Debug, PartialEq, Eq)]
pub enum ActorSelector {
    Name(String),
    Index(String),
}

/// The export is known by the text `name`.
pub open spec fn export_named(names: Seq<Seq<char>>, export: Export, name: Seq<char>) -> bool {
    names[export.object_name.index as int] == name
}

/// The references to those of the first `k` exports that are named `name`,
/// in order.
pub open spec fn exports_named(names: Seq<Seq<char>>, exports: Seq<Export>, name: Seq<char>, k: int)
    -> Seq<RefIndex>
    decreases k,
{
    if k <= 0 {
        Seq::empty()
    } else {
        let rest = exports_named(names, exports, name, k - 1);
        if export_named(names, exports[k - 1], name) {
            rest.push(RefIndex { index: k as i32 })
        } else {
            rest
        }
    }
}

/// The exports that a selector selects: every export of the name, or the
/// export of the index if there is one.
pub open spec fn selected(g: AssetGraph, s: ActorSelector) -> Seq<RefIndex> {
    match s {
        ActorSelector::Name(text) => exports_named(
            g.names@,
            g.exports@,
            text@,
            g.exports@.len() as int,
        ),
        ActorSelector::Index(text) => match decimal_i32(text@) {
            Some(v) => if 1 <= v <= g.exports@.len() {
                seq![RefIndex { index: v }]
            } else {
                Seq::empty()
            },
            None => Seq::empty(),
        },
    }
}

/// The exports that the first `k` selectors select, selector after
/// selector; `None` where one of them selects nothing.
pub open spec fn resolved(g: AssetGraph, selectors: Seq<ActorSelector>, k: int) -> Option<
    Seq<RefIndex>,
>
    decreases k,
{
    if k <= 0 {
        Some(Seq::empty())
    } else {
        match resolved(g, selectors, k - 1) {
            None => None,
            Some(rest) => {
                let more = selected(g, selectors[k - 1]);
                if more.len() == 0 {
                    None
                } else {
                    Some(rest + more)
                }
            },
        }
    }
}

proof fn lemma_resolved_fails(g: AssetGraph, selectors: Seq<ActorSelector>, k: int, l: int)
    requires
        0 <= k <= l,
        resolved(g, selectors, k) is None,
    ensures
        resolved(g, selectors, l) is None,
    decreases l - k,
{
    if k < l {
        lemma_resolved_fails(g, selectors, k, l - 1);
    }
}

/// The exports that a selector selects.
pub fn select_exports(graph: &AssetGraph, selector: &ActorSelector) -> (found: Vec<RefIndex>)
    requires
        graph.wf(),
    ensures
        found@ == selected(*graph, *selector),
{
    let mut found: Vec<RefIndex> = Vec::new();
    match selector {
        ActorSelector::Name(text) => {
            let n = graph.exports.len();
            let mut i: usize = 0;
            while i < n
                invariant
                    i <= n,
                    n == graph.exports@.len(),
                    graph.wf(),
                    found@ == exports_named(graph.names@, graph.exports@, text@, i as int),
                decreases n - i,
            {
                assert(graph.exports@[i as int].names_valid(graph.names@.len() as int));
                if graph.names.resolves_to(graph.exports[i].object_name, text) {
                    found.push(RefIndex { index: i as i32 + 1 });
                }
                i = i + 1;
            }
        },
        ActorSelector::Index(text) => {
            match parse_decimal_i32(text.as_str()) {
                Some(v) => {
                    if 1 <= v && v as usize <= graph.exports.len() {
                        found.push(RefIndex { index: v });
                        assert(found@ =~= seq![RefIndex { index: v }]);
                    }
                },
                None => {},
            }
        },
    }
    found
}

/// The exports that the selectors select, or `None` where one of them
/// selects nothing.
pub fn resolve_selectors(graph: &AssetGraph, selectors: &Vec<ActorSelector>) -> (found: Option<
    Vec<RefIndex>,
>)
    requires
        graph.wf(),
    ensures
        match found {
            Some(list) => resolved(*graph, selectors@, selectors@.len() as int) == Some(list@),
            None => resolved(*graph, selectors@, selectors@.len() as int) is None,
        },
{
    let n = selectors.len();
    let mut found: Vec<RefIndex> = Vec::new();
    let mut k: usize = 0;
    while k < n
        invariant
            k <= n,
            n == selectors@.len(),
            graph.wf(),
            resolved(*graph, selectors@, k as int) == Some(found@),
        decreases n - k,
    {
        let mut more = select_exports(graph, &selectors[k]);
        if more.len() == 0 {
            proof {
                lemma_resolved_fails(*graph, selectors@, k + 1, n as int);
            }
            return None;
        }
        found.append(&mut more);
        k = k + 1;
    }
    Some(found)
}

/// The actors that stay when those of `removed` leave.
pub open spec fn stays(removed: Seq<RefIndex>) -> spec_fn(RefIndex) -> bool {
    |a: RefIndex| !removed.contains(a)
}

/// `after` is the level `before` without the actors of `removed`.
pub open spec fn level_without(before: Export, after: Export, removed: Seq<RefIndex>) -> bool {
    &&& after.object_name == before.object_name
    &&& after.class_index == before.class_index
    &&& after.super_index == before.super_index
    &&& after.template_index == before.template_index
    &&& after.outer_index == before.outer_index
    &&& after.create_before_serialization == before.create_before_serialization
    &&& after.serialization_before_create == before.serialization_before_create
    &&& after.create_before_create == before.create_before_create
    &&& after.properties == before.properties
    &&& before.payload matches Payload::Level { actors }
    &&& after.payload matches Payload::Level { actors: actors2 }
    &&& actors2@ == actors@.filter(stays(removed))
}

/// `after` is `before` with the actors of `removed` taken out of the level
/// root, whose reference is `level`. Nothing else has changed; the exports
/// of the actors are still there.
pub open spec fn actors_removed(
    before: AssetGraph,
    after: AssetGraph,
    level: RefIndex,
    removed: Seq<RefIndex>,
) -> bool {
    &&& after.names == before.names
    &&& after.imports == before.imports
    &&& after.exports@.len() == before.exports@.len()
    &&& forall|i: int|
        0 <= i < before.exports@.len() && i != level.index - 1 ==> #[trigger] after.exports@[i]
            == before.exports@[i]
    &&& level_without(before.exports@[level.index - 1], after.exports@[level.index - 1], removed)
}

fn remove_from_level(level: &mut Export, removed: &Vec<RefIndex>)
    requires
        old(level).is_level(),
    ensures
        level_without(*old(level), *final(level), removed@),
{
    broadcast use vstd::std_specs::hash::group_hash_axioms;

    let mut leaving: HashSet<i32> = HashSet::new();
    let m = removed.len();
    let mut k: usize = 0;
    while k < m
        invariant
            k <= m,
            m == removed@.len(),
            forall|x: i32| #[trigger]
                leaving@.contains(x) <==> removed@.take(k as int).contains(RefIndex { index: x }),
        decreases m - k,
    {
        let r = removed[k];
        let ghost marked = leaving@;
        leaving.insert(r.index);
        proof {
            let shorter = removed@.take(k as int);
            let longer = removed@.take(k + 1);
            assert(longer =~= shorter.push(r));
            assert forall|x: i32| #[trigger]
                leaving@.contains(x) <==> longer.contains(RefIndex { index: x }) by {
                let y = RefIndex { index: x };
                if x == r.index {
                    assert(longer[k as int] == y);
                } else if marked.contains(x) {
                    let i = choose|i: int| 0 <= i < shorter.len() && shorter[i] == y;
                    assert(longer[i] == y);
                } else if longer.contains(y) {
                    let i = choose|i: int| 0 <= i < longer.len() && longer[i] == y;
                    assert(shorter[i] == y);
                    assert(shorter.contains(y));
                }
            }
        }
        k = k + 1;
    }
    assert(removed@.take(m as int) =~= removed@);
    match &mut level.payload {
        Payload::Level { actors } => {
            let ghost all = actors@;
            let n = actors.len();
            let mut kept: Vec<RefIndex> = Vec::new();
            let mut i: usize = 0;
            assert(all.take(0).filter(stays(removed@)) =~= Seq::<RefIndex>::empty()) by {
                reveal(Seq::filter);
            }
            while i < n
                invariant
                    i <= n,
                    n == all.len(),
                    actors@ == all,
                    kept@ == all.take(i as int).filter(stays(removed@)),
                    forall|x: i32| #[trigger]
                        leaving@.contains(x) <==> removed@.contains(RefIndex { index: x }),
                decreases n - i,
            {
                let a = actors[i];
                proof {
                    reveal(Seq::filter);
                    let t = all.take(i + 1);
                    assert(t.drop_last() =~= all.take(i as int));
                    assert(t.last() == a);
                    assert(a == RefIndex { index: a.index });
                }
                if !leaving.contains(&a.index) {
                    kept.push(a);
                }
                i = i + 1;
            }
            assert(all.take(n as int) =~= all);
            *actors = kept;
        },
        Payload::Normal => {},
    }
}

/// Takes the selected actors out of the level root. Their exports stay in
/// the graph. Returns the references that the selectors selected.
///
/// Fails with `AmbiguousRootSelector` where a selector selects no export,
/// and with `LevelRootNotFound` where the graph has no level root.
pub fn disable_actors(graph: &mut AssetGraph, selectors: &Vec<ActorSelector>) -> (result: Result<
    Vec<RefIndex>,
    EditError,
>)
    requires
        old(graph).wf(),
    ensures
        final(graph).wf(),
        match result {
            Ok(removed) => {
                &&& resolved(*old(graph), selectors@, selectors@.len() as int) == Some(removed@)
                &&& old(graph).has_level_root()
                &&& exists|level: RefIndex|
                    old(graph).is_level_root(level) && actors_removed(
                        *old(graph),
                        *final(graph),
                        level,
                        removed@,
                    )
            },
            Err(e) => {
                &&& *final(graph) == *old(graph)
                &&& if resolved(*old(graph), selectors@, selectors@.len() as int) is None {
                    e == EditError::AmbiguousRootSelector
                } else {
                    e == EditError::LevelRootNotFound && !old(graph).has_level_root()
                }
            },
        },
{
    let ghost before = *graph;
    let removed = match resolve_selectors(graph, selectors) {
        Some(list) => list,
        None => {
            return Err(EditError::AmbiguousRootSelector);
        },
    };
    let level = match graph.find_level_root() {
        Some(r) => r,
        None => {
            return Err(EditError::LevelRootNotFound);
        },
    };
    let position = (level.index - 1) as usize;
    assert(before.is_level_root_at(level.index - 1));
    remove_from_level(&mut graph.exports[position], &removed);
    proof {
        assert(actors_removed(before, *graph, level, removed@));
        assert forall|i: int| 0 <= i < graph.exports@.len() implies (
        #[trigger] graph.exports@[i]).names_valid(graph.names@.len() as int) by {
            assert(before.exports@[i].names_valid(before.names@.len() as int));
        }
    }
    Ok(removed)
}

} // verus!
