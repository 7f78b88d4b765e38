//! Which exports and imports a subgraph takes along.

use vstd::prelude::*;
use std::collections::HashMap;
use crate::graph::{AssetGraph, Export, Import};
use crate::reference::RefIndex;

verus! {

/// The dependencies that a walk still has to visit: those that select an
/// export and were not visited yet.
pub open spec fn pending(visited: Seq<RefIndex>) -> spec_fn(RefIndex) -> bool {
    |d: RefIndex| d.index >= 1 && !visited.contains(d)
}

/// The exports that a walk visits, in the order of their visits, when it
/// has visited `order` and still holds `stack`.
///
/// The walk takes the reference on top of the stack. One that it has
/// visited is dropped. Any other is visited, and those of its
/// create-before-serialization dependencies that are still pending are put
/// on the stack, the last of them on top. The walk fails on a reference
/// that selects no export. (It would also stop once it had visited as many
/// exports as there are; that only shows that it ends, and by
/// [`lemma_walk_has_room`] it never happens.)
pub open spec fn export_walk(exports: Seq<Export>, stack: Seq<RefIndex>, order: Seq<RefIndex>)
    -> Option<Seq<RefIndex>>
    decreases exports.len() - order.len(), stack.len(),
{
    if stack.len() == 0 {
        Some(order)
    } else {
        let cur = stack.last();
        let rest = stack.drop_last();
        if order.contains(cur) {
            export_walk(exports, rest, order)
        } else if !(1 <= cur.index <= exports.len()) || order.len() >= exports.len() {
            None
        } else {
            let visited = order.push(cur);
            export_walk(
                exports,
                rest + exports[cur.index - 1].create_before_serialization@.filter(
                    pending(visited),
                ),
                visited,
            )
        }
    }
}

/// The exports that the subgraph under `root` takes along, `root` first.
pub open spec fn export_closure(exports: Seq<Export>, root: RefIndex) -> Option<Seq<RefIndex>> {
    export_walk(exports, seq![root], Seq::empty())
}

/// The exports of `order` are all different and all exist.
pub open spec fn distinct_exports(exports: Seq<Export>, order: Seq<RefIndex>) -> bool {
    &&& order.no_duplicates()
    &&& forall|k: int| 0 <= k < order.len() ==> 1 <= (#[trigger] order[k]).index <= exports.len()
}

/// References that are all different and lie in a range are no more than
/// the range holds.
pub proof fn lemma_distinct_bounded(s: Seq<RefIndex>, lo: int, hi: int)
    requires
        s.no_duplicates(),
        lo <= hi,
        forall|k: int| 0 <= k < s.len() ==> lo <= (#[trigger] s[k]).index < hi,
    ensures
        s.len() <= hi - lo,
{
    let ints = s.map_values(|r: RefIndex| r.index as int);
    assert(ints.no_duplicates()) by {
        assert forall|i: int, j: int|
            0 <= i < ints.len() && 0 <= j < ints.len() && i != j implies ints[i] != ints[j] by {
            assert(s[i] != s[j]);
        }
    }
    ints.unique_seq_to_set();
    vstd::set_lib::lemma_int_range(lo, hi);
    assert(ints.to_set().subset_of(vstd::set_lib::set_int_range(lo, hi))) by {
        assert forall|x: int| ints.to_set().contains(x) implies vstd::set_lib::set_int_range(
            lo,
            hi,
        ).contains(x) by {
            let k = choose|k: int| 0 <= k < ints.len() && ints[k] == x;
            assert(lo <= s[k].index < hi);
        }
    }
    vstd::set_lib::lemma_len_subset(ints.to_set(), vstd::set_lib::set_int_range(lo, hi));
}

/// A walk that has visited different exports has not visited all of them
/// while there is an export that it has not visited.
pub proof fn lemma_walk_has_room(exports: Seq<Export>, order: Seq<RefIndex>, cur: RefIndex)
    requires
        distinct_exports(exports, order),
        !order.contains(cur),
        1 <= cur.index <= exports.len(),
    ensures
        order.len() < exports.len(),
        distinct_exports(exports, order.push(cur)),
{
    let longer = order.push(cur);
    assert forall|i: int, j: int|
        0 <= i < longer.len() && 0 <= j < longer.len() && i != j implies longer[i]
        != longer[j] by {
        if i < order.len() && j < order.len() {
        } else if i < order.len() {
            assert(order[i] != cur);
        } else {
            assert(order[j] != cur);
        }
    }
    lemma_distinct_bounded(longer, 1, exports.len() as int + 1);
}

/// A walk only adds to what it has visited, never visits an export twice,
/// and visits existing exports only.
pub proof fn lemma_export_walk_distinct(
    exports: Seq<Export>,
    stack: Seq<RefIndex>,
    order: Seq<RefIndex>,
)
    requires
        distinct_exports(exports, order),
        export_walk(exports, stack, order) is Some,
    ensures
        distinct_exports(exports, export_walk(exports, stack, order)->0),
        order.is_prefix_of(export_walk(exports, stack, order)->0),
    decreases exports.len() - order.len(), stack.len(),
{
    if stack.len() == 0 {
    } else {
        let cur = stack.last();
        let rest = stack.drop_last();
        if order.contains(cur) {
            lemma_export_walk_distinct(exports, rest, order);
        } else {
            let visited = order.push(cur);
            let next = rest + exports[cur.index - 1].create_before_serialization@.filter(
                pending(visited),
            );
            lemma_walk_has_room(exports, order, cur);
            lemma_export_walk_distinct(exports, next, visited);
        }
    }
}

/// Every create-before-serialization dependency of the first `k` visited
/// exports that selects an export was visited or waits on the stack.
pub open spec fn dependencies_seen(
    exports: Seq<Export>,
    stack: Seq<RefIndex>,
    order: Seq<RefIndex>,
    k: int,
) -> bool {
    forall|i: int, j: int|
        #![trigger order[i], exports[order[i].index - 1].create_before_serialization@[j]]
        0 <= i < k && 0 <= j < exports[order[i].index - 1].create_before_serialization@.len()
            && exports[order[i].index - 1].create_before_serialization@[j].index >= 1 ==> {
            let d = exports[order[i].index - 1].create_before_serialization@[j];
            order.contains(d) || stack.contains(d)
        }
}

proof fn lemma_export_walk_closed(exports: Seq<Export>, stack: Seq<RefIndex>, order: Seq<RefIndex>)
    requires
        distinct_exports(exports, order),
        dependencies_seen(exports, stack, order, order.len() as int),
        export_walk(exports, stack, order) is Some,
    ensures
        dependencies_seen(
            exports,
            Seq::empty(),
            export_walk(exports, stack, order)->0,
            export_walk(exports, stack, order)->0.len() as int,
        ),
    decreases exports.len() - order.len(), stack.len(),
{
    if stack.len() == 0 {
        assert(stack =~= Seq::empty());
    } else {
        let cur = stack.last();
        let rest = stack.drop_last();
        if order.contains(cur) {
            assert forall|i: int, j: int|
                #![trigger order[i], exports[order[i].index - 1].create_before_serialization@[j]]
                0 <= i < order.len() && 0 <= j < exports[order[i].index
                    - 1].create_before_serialization@.len() && exports[order[i].index
                    - 1].create_before_serialization@[j].index >= 1 implies {
                let d = exports[order[i].index - 1].create_before_serialization@[j];
                order.contains(d) || rest.contains(d)
            } by {
                let d = exports[order[i].index - 1].create_before_serialization@[j];
                if !order.contains(d) {
                    let at = choose|at: int| 0 <= at < stack.len() && stack[at] == d;
                    assert(rest[at] == d);
                }
            }
            lemma_export_walk_closed(exports, rest, order);
        } else {
            let visited = order.push(cur);
            let deps = exports[cur.index - 1].create_before_serialization@;
            let next = rest + deps.filter(pending(visited));
            lemma_walk_has_room(exports, order, cur);
            assert forall|i: int, j: int|
                #![trigger visited[i], exports[visited[i].index - 1].create_before_serialization@[j]]
                0 <= i < visited.len() && 0 <= j < exports[visited[i].index
                    - 1].create_before_serialization@.len() && exports[visited[i].index
                    - 1].create_before_serialization@[j].index >= 1 implies {
                let d = exports[visited[i].index - 1].create_before_serialization@[j];
                visited.contains(d) || next.contains(d)
            } by {
                let d = exports[visited[i].index - 1].create_before_serialization@[j];
                if i < order.len() {
                    assert(visited[i] == order[i]);
                    if order.contains(d) {
                        let at = choose|at: int| 0 <= at < order.len() && order[at] == d;
                        assert(visited[at] == d);
                    } else {
                        let at = choose|at: int| 0 <= at < stack.len() && stack[at] == d;
                        if at == stack.len() - 1 {
                            assert(visited[order.len() as int] == d);
                        } else {
                            assert(next[at] == d);
                        }
                    }
                } else {
                    assert(visited[i] == cur);
                    if !visited.contains(d) {
                        deps.lemma_filter_contains(pending(visited), j);
                        let found = deps.filter(pending(visited));
                        let at = choose|at: int| 0 <= at < found.len() && found[at] == d;
                        assert(next[rest.len() + at] == d);
                    }
                }
            }
            lemma_export_walk_closed(exports, next, visited);
        }
    }
}

/// The closure under `root` is closed: every create-before-serialization
/// dependency of one of its exports that selects an export is one of its
/// exports too.
pub proof fn lemma_export_closure_closed(exports: Seq<Export>, root: RefIndex, k: int, j: int)
    requires
        export_closure(exports, root) is Some,
        0 <= k < export_closure(exports, root)->0.len(),
        0 <= j < exports[export_closure(exports, root)->0[k].index
            - 1].create_before_serialization@.len(),
        exports[export_closure(exports, root)->0[k].index - 1].create_before_serialization@[j].index
            >= 1,
    ensures
        export_closure(exports, root)->0.contains(
            exports[export_closure(exports, root)->0[k].index - 1].create_before_serialization@[j],
        ),
{
    let order = export_closure(exports, root)->0;
    lemma_export_walk_closed(exports, seq![root], Seq::empty());
    let d = exports[order[k].index - 1].create_before_serialization@[j];
    assert(order.contains(d) || Seq::<RefIndex>::empty().contains(d));
}

/// `x` is `root`, or a create-before-serialization dependency of one of the
/// first `k` exports of `order`.
pub open spec fn reached(
    exports: Seq<Export>,
    root: RefIndex,
    order: Seq<RefIndex>,
    k: int,
    x: RefIndex,
) -> bool {
    x == root || exists|i: int|
        0 <= i < k && i < order.len() && #[trigger] exports[order[i].index
            - 1].create_before_serialization@.contains(x)
}

/// Every export on the stack, and every visited export, was reached from
/// exports that were visited before it.
pub open spec fn all_reached(
    exports: Seq<Export>,
    root: RefIndex,
    stack: Seq<RefIndex>,
    order: Seq<RefIndex>,
) -> bool {
    &&& forall|s: int|
        0 <= s < stack.len() ==> reached(exports, root, order, order.len() as int, #[trigger] stack[s])
    &&& forall|k: int| 0 <= k < order.len() ==> reached(exports, root, order, k, #[trigger] order[k])
}

proof fn lemma_export_walk_reached(
    exports: Seq<Export>,
    root: RefIndex,
    stack: Seq<RefIndex>,
    order: Seq<RefIndex>,
)
    requires
        distinct_exports(exports, order),
        all_reached(exports, root, stack, order),
        export_walk(exports, stack, order) is Some,
    ensures
        all_reached(exports, root, Seq::empty(), export_walk(exports, stack, order)->0),
    decreases exports.len() - order.len(), stack.len(),
{
    if stack.len() == 0 {
    } else {
        let cur = stack.last();
        let rest = stack.drop_last();
        if order.contains(cur) {
            assert forall|s: int| 0 <= s < rest.len() implies reached(
                exports,
                root,
                order,
                order.len() as int,
                #[trigger] rest[s],
            ) by {
                assert(rest[s] == stack[s]);
            }
            lemma_export_walk_reached(exports, root, rest, order);
        } else {
            let visited = order.push(cur);
            let deps = exports[cur.index - 1].create_before_serialization@;
            let more = deps.filter(pending(visited));
            let next = rest + more;
            lemma_walk_has_room(exports, order, cur);
            assert forall|k: int| 0 <= k < visited.len() implies reached(
                exports,
                root,
                visited,
                k,
                #[trigger] visited[k],
            ) by {
                if k < order.len() {
                    assert(reached(exports, root, order, k, order[k]));
                    if order[k] != root {
                        let i = choose|i: int|
                            0 <= i < k && i < order.len() && #[trigger] exports[order[i].index
                                - 1].create_before_serialization@.contains(order[k]);
                        assert(visited[i] == order[i]);
                    }
                } else {
                    assert(reached(exports, root, order, order.len() as int, stack[stack.len() - 1]));
                    if cur != root {
                        let i = choose|i: int|
                            0 <= i < order.len() && #[trigger] exports[order[i].index
                                - 1].create_before_serialization@.contains(cur);
                        assert(visited[i] == order[i]);
                    }
                }
            }
            assert forall|s: int| 0 <= s < next.len() implies reached(
                exports,
                root,
                visited,
                visited.len() as int,
                #[trigger] next[s],
            ) by {
                if s < rest.len() {
                    assert(next[s] == stack[s]);
                    assert(reached(exports, root, order, order.len() as int, stack[s]));
                    if stack[s] != root {
                        let i = choose|i: int|
                            0 <= i < order.len() && #[trigger] exports[order[i].index
                                - 1].create_before_serialization@.contains(stack[s]);
                        assert(visited[i] == order[i]);
                    }
                } else {
                    let x = more[s - rest.len()];
                    assert(more.contains(x));
                    deps.lemma_filter_contains_rev(pending(visited), x);
                    assert(visited[order.len() as int] == cur);
                    assert(exports[visited[order.len() as int].index
                        - 1].create_before_serialization@.contains(x));
                }
            }
            lemma_export_walk_reached(exports, root, next, visited);
        }
    }
}

/// The closure under `root` holds nothing that is not needed: every export
/// of it but `root` is a create-before-serialization dependency of an
/// export that stands before it.
pub proof fn lemma_export_closure_reached(exports: Seq<Export>, root: RefIndex, k: int)
    requires
        export_closure(exports, root) is Some,
        0 <= k < export_closure(exports, root)->0.len(),
    ensures
        reached(
            exports,
            root,
            export_closure(exports, root)->0,
            k,
            export_closure(exports, root)->0[k],
        ),
{
    let stack = seq![root];
    assert(stack[0] == root);
    lemma_export_walk_reached(exports, root, stack, Seq::empty());
}

/// The closure under `root` starts with `root`, names no export twice and
/// names existing exports only.
pub proof fn lemma_export_closure_shape(exports: Seq<Export>, root: RefIndex)
    requires
        export_closure(exports, root) is Some,
    ensures
        distinct_exports(exports, export_closure(exports, root)->0),
        export_closure(exports, root)->0.len() >= 1,
        export_closure(exports, root)->0[0] == root,
        1 <= root.index <= exports.len(),
{
    let stack = seq![root];
    let order = Seq::<RefIndex>::empty();
    assert(stack.last() == root);
    assert(!order.contains(root));
    let visited = order.push(root);
    let next = stack.drop_last() + exports[root.index - 1].create_before_serialization@.filter(
        pending(visited),
    );
    assert(distinct_exports(exports, visited));
    lemma_export_walk_distinct(exports, next, visited);
    assert(visited[0] == root);
}

/// The exports that the subgraph under `root` takes along, `root` first:
/// `None` where the walk meets a reference that selects no export.
pub fn collect_exports(graph: &AssetGraph, root: RefIndex) -> (found: Option<Vec<RefIndex>>)
    ensures
        match found {
            Some(order) => export_closure(graph.exports@, root) == Some(order@),
            None => export_closure(graph.exports@, root) is None,
        },
{
    broadcast use vstd::std_specs::hash::group_hash_axioms;

    let ghost exports = graph.exports@;
    let n = graph.exports.len();
    let mut stack: Vec<RefIndex> = Vec::new();
    stack.push(root);
    let mut order: Vec<RefIndex> = Vec::new();
    let mut visited: HashMap<i32, usize> = HashMap::new();
    assert(stack@ =~= seq![root]);
    while stack.len() > 0
        invariant
            exports == graph.exports@,
            n == exports.len(),
            export_walk(exports, stack@, order@) == export_closure(exports, root),
            distinct_exports(exports, order@),
            forall|k: i32| #[trigger]
                visited@.contains_key(k) <==> order@.contains(RefIndex { index: k }),
        decreases exports.len() - order@.len(), stack@.len(),
    {
        let ghost before = stack@;
        let cur = stack.pop().unwrap();
        assert(cur == before.last() && stack@ == before.drop_last());
        assert(cur == RefIndex { index: cur.index });
        if visited.contains_key(&cur.index) {
            assert(order@.contains(cur));
        } else {
            assert(!order@.contains(cur));
            match graph.get_export(cur) {
                None => {
                    return None;
                },
                Some(export) => {
                    let ghost seen = order@;
                    proof {
                        lemma_walk_has_room(exports, seen, cur);
                    }
                    let ghost marked = visited@;
                    order.push(cur);
                    visited.insert(cur.index, order.len());
                    proof {
                        assert forall|k: i32| #[trigger]
                            visited@.contains_key(k) <==> order@.contains(
                                RefIndex { index: k },
                            ) by {
                            let r = RefIndex { index: k };
                            if k == cur.index {
                                assert(order@[order@.len() - 1] == r);
                            } else if marked.contains_key(k) {
                                assert(seen.contains(r));
                                let i = choose|i: int| 0 <= i < seen.len() && seen[i] == r;
                                assert(order@[i] == r);
                            } else if order@.contains(r) {
                                let i = choose|i: int| 0 <= i < order@.len() && order@[i] == r;
                                assert(seen[i] == r);
                                assert(seen.contains(r));
                            }
                        }
                    }
                    let deps = &export.create_before_serialization;
                    let m = deps.len();
                    let ghost rest = stack@;
                    let mut j: usize = 0;
                    assert(deps@.take(0).filter(pending(order@)) =~= Seq::<RefIndex>::empty()) by {
                        reveal(Seq::filter);
                    }
                    assert(stack@ =~= rest + deps@.take(0).filter(pending(order@)));
                    while j < m
                        invariant
                            j <= m,
                            m == deps@.len(),
                            stack@ == rest + deps@.take(j as int).filter(pending(order@)),
                            forall|k: i32| #[trigger]
                                visited@.contains_key(k) <==> order@.contains(
                                    RefIndex { index: k },
                                ),
                        decreases m - j,
                    {
                        let d = deps[j];
                        assert(d == RefIndex { index: d.index });
                        proof {
                            reveal(Seq::filter);
                            let t = deps@.take(j + 1);
                            assert(t.drop_last() =~= deps@.take(j as int));
                            assert(t.last() == d);
                        }
                        if d.index >= 1 && !visited.contains_key(&d.index) {
                            stack.push(d);
                            assert(stack@ =~= rest + deps@.take(j + 1).filter(pending(order@)));
                        }
                        j = j + 1;
                    }
                    assert(deps@.take(m as int) =~= deps@);
                },
            }
        }
    }
    Some(order)
}

/// `r` selects one of `imports`.
pub open spec fn selects_import(imports: Seq<Import>, r: RefIndex) -> bool {
    1 <= -r.index <= imports.len()
}

/// What is collected after one more dependency was looked at.
///
/// A dependency that selects no import, or an import that is collected
/// already, changes nothing. Any other import is collected, and after it the
/// import that it lies in, unless it lies at the top or that import is
/// collected already. Only this one parent is taken, not the parent's own
/// parents. Collecting fails on a reference that selects no import.
pub open spec fn import_step(imports: Seq<Import>, acc: Option<Seq<RefIndex>>, dep: RefIndex)
    -> Option<Seq<RefIndex>> {
    match acc {
        None => None,
        Some(found) => {
            if dep.index >= 0 || found.contains(dep) {
                Some(found)
            } else if !selects_import(imports, dep) {
                None
            } else {
                let with_dep = found.push(dep);
                let outer = imports[-dep.index - 1].outer_index;
                if outer.index == 0 || with_dep.contains(outer) {
                    Some(with_dep)
                } else if !selects_import(imports, outer) {
                    None
                } else {
                    Some(with_dep.push(outer))
                }
            }
        },
    }
}

/// What is collected after every dependency of `deps` was looked at, in
/// order.
pub open spec fn import_scan(imports: Seq<Import>, deps: Seq<RefIndex>, acc: Option<Seq<RefIndex>>)
    -> Option<Seq<RefIndex>>
    decreases deps.len(),
{
    if deps.len() == 0 {
        acc
    } else {
        import_step(imports, import_scan(imports, deps.drop_last(), acc), deps.last())
    }
}

/// The imports that the first `k` exports of `order` take along: for each
/// export in turn, those that its create-before-serialization dependencies
/// name, then those that its serialization-before-create dependencies name.
pub open spec fn import_closure_upto(
    exports: Seq<Export>,
    imports: Seq<Import>,
    order: Seq<RefIndex>,
    k: int,
) -> Option<Seq<RefIndex>>
    decreases k,
{
    if k <= 0 {
        Some(Seq::empty())
    } else {
        let export = exports[order[k - 1].index - 1];
        import_scan(
            imports,
            export.serialization_before_create@,
            import_scan(
                imports,
                export.create_before_serialization@,
                import_closure_upto(exports, imports, order, k - 1),
            ),
        )
    }
}

/// The imports that the exports of `order` take along.
pub open spec fn import_closure(exports: Seq<Export>, imports: Seq<Import>, order: Seq<RefIndex>)
    -> Option<Seq<RefIndex>> {
    import_closure_upto(exports, imports, order, order.len() as int)
}

/// The imports of `found` are all different and all exist.
pub open spec fn distinct_imports(imports: Seq<Import>, found: Seq<RefIndex>) -> bool {
    &&& found.no_duplicates()
    &&& forall|k: int| 0 <= k < found.len() ==> selects_import(imports, #[trigger] found[k])
}

proof fn lemma_import_step_distinct(imports: Seq<Import>, found: Seq<RefIndex>, dep: RefIndex)
    requires
        distinct_imports(imports, found),
        import_step(imports, Some(found), dep) is Some,
    ensures
        distinct_imports(imports, import_step(imports, Some(found), dep)->0),
{
    if dep.index >= 0 || found.contains(dep) {
    } else {
        let with_dep = found.push(dep);
        assert(distinct_imports(imports, with_dep)) by {
            assert forall|i: int, j: int|
                0 <= i < with_dep.len() && 0 <= j < with_dep.len() && i != j implies with_dep[i]
                != with_dep[j] by {
                if i < found.len() && j < found.len() {
                } else if i < found.len() {
                    assert(found[i] != dep);
                } else {
                    assert(found[j] != dep);
                }
            }
        }
        let outer = imports[-dep.index - 1].outer_index;
        if outer.index == 0 || with_dep.contains(outer) {
        } else {
            let both = with_dep.push(outer);
            assert forall|i: int, j: int|
                0 <= i < both.len() && 0 <= j < both.len() && i != j implies both[i]
                != both[j] by {
                if i < with_dep.len() && j < with_dep.len() {
                } else if i < with_dep.len() {
                    assert(with_dep[i] != outer);
                } else {
                    assert(with_dep[j] != outer);
                }
            }
        }
    }
}

proof fn lemma_import_scan_distinct(
    imports: Seq<Import>,
    deps: Seq<RefIndex>,
    acc: Option<Seq<RefIndex>>,
)
    requires
        acc matches Some(found) ==> distinct_imports(imports, found),
        import_scan(imports, deps, acc) is Some,
    ensures
        distinct_imports(imports, import_scan(imports, deps, acc)->0),
    decreases deps.len(),
{
    if deps.len() > 0 {
        let before = import_scan(imports, deps.drop_last(), acc);
        lemma_import_scan_distinct(imports, deps.drop_last(), acc);
        lemma_import_step_distinct(imports, before->0, deps.last());
    }
}

/// The imports that a subgraph takes along are all different and all exist.
pub proof fn lemma_import_closure_distinct(
    exports: Seq<Export>,
    imports: Seq<Import>,
    order: Seq<RefIndex>,
    k: int,
)
    requires
        import_closure_upto(exports, imports, order, k) is Some,
    ensures
        distinct_imports(imports, import_closure_upto(exports, imports, order, k)->0),
    decreases k,
{
    if k > 0 {
        let export = exports[order[k - 1].index - 1];
        let first = import_closure_upto(exports, imports, order, k - 1);
        let second = import_scan(imports, export.create_before_serialization@, first);
        lemma_import_scan_none(imports, export.serialization_before_create@);
        lemma_import_scan_none(imports, export.create_before_serialization@);
        lemma_import_closure_distinct(exports, imports, order, k - 1);
        lemma_import_scan_distinct(imports, export.create_before_serialization@, first);
        lemma_import_scan_distinct(imports, export.serialization_before_create@, second);
    }
}

proof fn lemma_import_step_covers(imports: Seq<Import>, found: Seq<RefIndex>, dep: RefIndex)
    requires
        import_step(imports, Some(found), dep) is Some,
    ensures
        forall|x: RefIndex|
            found.contains(x) ==> #[trigger] import_step(imports, Some(found), dep)->0.contains(x),
        dep.index < 0 ==> import_step(imports, Some(found), dep)->0.contains(dep),
{
    let after = import_step(imports, Some(found), dep)->0;
    if dep.index >= 0 || found.contains(dep) {
    } else {
        let with_dep = found.push(dep);
        assert(with_dep[found.len() as int] == dep);
        assert(after[found.len() as int] == dep);
        assert forall|x: RefIndex| found.contains(x) implies #[trigger] after.contains(x) by {
            let i = choose|i: int| 0 <= i < found.len() && found[i] == x;
            assert(after[i] == x);
        }
    }
}

proof fn lemma_import_scan_covers(
    imports: Seq<Import>,
    deps: Seq<RefIndex>,
    acc: Option<Seq<RefIndex>>,
)
    requires
        import_scan(imports, deps, acc) is Some,
    ensures
        acc is Some,
        forall|x: RefIndex|
            acc->0.contains(x) ==> #[trigger] import_scan(imports, deps, acc)->0.contains(x),
        forall|j: int|
            0 <= j < deps.len() && (#[trigger] deps[j]).index < 0 ==> import_scan(
                imports,
                deps,
                acc,
            )->0.contains(deps[j]),
    decreases deps.len(),
{
    if deps.len() > 0 {
        let before = import_scan(imports, deps.drop_last(), acc);
        lemma_import_scan_covers(imports, deps.drop_last(), acc);
        lemma_import_step_covers(imports, before->0, deps.last());
        let after = import_scan(imports, deps, acc)->0;
        assert forall|j: int| 0 <= j < deps.len() && (#[trigger] deps[j]).index < 0 implies after.contains(
            deps[j],
        ) by {
            if j < deps.len() - 1 {
                assert(deps.drop_last()[j] == deps[j]);
                assert(before->0.contains(deps[j]));
            }
        }
    }
}

/// The imports that a subgraph takes along include every import that a
/// create-before-serialization or serialization-before-create dependency of
/// one of its exports selects.
pub proof fn lemma_import_closure_covers(
    exports: Seq<Export>,
    imports: Seq<Import>,
    order: Seq<RefIndex>,
    k: int,
)
    requires
        0 <= k <= order.len(),
        import_closure_upto(exports, imports, order, k) is Some,
    ensures
        forall|i: int, j: int|
            #![trigger order[i], exports[order[i].index - 1].create_before_serialization@[j]]
            0 <= i < k && 0 <= j < exports[order[i].index - 1].create_before_serialization@.len()
                && exports[order[i].index - 1].create_before_serialization@[j].index < 0
                ==> import_closure_upto(exports, imports, order, k)->0.contains(
                exports[order[i].index - 1].create_before_serialization@[j],
            ),
        forall|i: int, j: int|
            #![trigger order[i], exports[order[i].index - 1].serialization_before_create@[j]]
            0 <= i < k && 0 <= j < exports[order[i].index - 1].serialization_before_create@.len()
                && exports[order[i].index - 1].serialization_before_create@[j].index < 0
                ==> import_closure_upto(exports, imports, order, k)->0.contains(
                exports[order[i].index - 1].serialization_before_create@[j],
            ),
    decreases k,
{
    if k > 0 {
        let export = exports[order[k - 1].index - 1];
        let first = import_closure_upto(exports, imports, order, k - 1);
        let second = import_scan(imports, export.create_before_serialization@, first);
        let result = import_closure_upto(exports, imports, order, k)->0;
        lemma_import_scan_covers(imports, export.serialization_before_create@, second);
        lemma_import_scan_covers(imports, export.create_before_serialization@, first);
        lemma_import_closure_covers(exports, imports, order, k - 1);
        assert forall|i: int, j: int|
            #![trigger order[i], exports[order[i].index - 1].create_before_serialization@[j]]
            0 <= i < k && 0 <= j < exports[order[i].index - 1].create_before_serialization@.len()
                && exports[order[i].index - 1].create_before_serialization@[j].index
                < 0 implies result.contains(
            exports[order[i].index - 1].create_before_serialization@[j],
        ) by {
            let d = exports[order[i].index - 1].create_before_serialization@[j];
            if i < k - 1 {
                assert(first->0.contains(d));
                assert(second->0.contains(d));
            } else {
                assert(second->0.contains(d));
            }
        }
        assert forall|i: int, j: int|
            #![trigger order[i], exports[order[i].index - 1].serialization_before_create@[j]]
            0 <= i < k && 0 <= j < exports[order[i].index - 1].serialization_before_create@.len()
                && exports[order[i].index - 1].serialization_before_create@[j].index
                < 0 implies result.contains(
            exports[order[i].index - 1].serialization_before_create@[j],
        ) by {
            let d = exports[order[i].index - 1].serialization_before_create@[j];
            if i < k - 1 {
                assert(first->0.contains(d));
                assert(second->0.contains(d));
            }
        }
    }
}

proof fn lemma_import_scan_none(imports: Seq<Import>, deps: Seq<RefIndex>)
    ensures
        import_scan(imports, deps, None) is None,
    decreases deps.len(),
{
    if deps.len() > 0 {
        lemma_import_scan_none(imports, deps.drop_last());
    }
}

proof fn lemma_import_scan_fails(
    imports: Seq<Import>,
    deps: Seq<RefIndex>,
    acc: Option<Seq<RefIndex>>,
    k: int,
)
    requires
        0 <= k <= deps.len(),
        import_scan(imports, deps.take(k), acc) is None,
    ensures
        import_scan(imports, deps, acc) is None,
    decreases deps.len() - k,
{
    if k == deps.len() {
        assert(deps.take(k) =~= deps);
    } else {
        assert(deps.take(k + 1).drop_last() =~= deps.take(k));
        lemma_import_scan_fails(imports, deps, acc, k + 1);
    }
}

proof fn lemma_import_closure_fails(
    exports: Seq<Export>,
    imports: Seq<Import>,
    order: Seq<RefIndex>,
    k: int,
    l: int,
)
    requires
        0 <= k <= l,
        import_closure_upto(exports, imports, order, k) is None,
    ensures
        import_closure_upto(exports, imports, order, l) is None,
    decreases l - k,
{
    if k < l {
        lemma_import_closure_fails(exports, imports, order, k, l - 1);
        let export = exports[order[l - 1].index - 1];
        lemma_import_scan_none(imports, export.create_before_serialization@);
        lemma_import_scan_none(imports, export.serialization_before_create@);
    }
}

/// What `visited` marks is what `found` holds.
pub open spec fn marks(visited: Map<i32, usize>, found: Seq<RefIndex>) -> bool {
    forall|k: i32| #[trigger] visited.contains_key(k) <==> found.contains(RefIndex { index: k })
}

proof fn lemma_marks_push(
    before: Map<i32, usize>,
    seen: Seq<RefIndex>,
    r: RefIndex,
    after: Map<i32, usize>,
    position: usize,
)
    requires
        marks(before, seen),
        after == before.insert(r.index, position),
    ensures
        marks(after, seen.push(r)),
{
    let longer = seen.push(r);
    assert forall|k: i32| #[trigger] after.contains_key(k) <==> longer.contains(
        RefIndex { index: k },
    ) by {
        let x = RefIndex { index: k };
        if k == r.index {
            assert(longer[longer.len() - 1] == x);
        } else if before.contains_key(k) {
            assert(seen.contains(x));
            let i = choose|i: int| 0 <= i < seen.len() && seen[i] == x;
            assert(longer[i] == x);
        } else if longer.contains(x) {
            let i = choose|i: int| 0 <= i < longer.len() && longer[i] == x;
            assert(seen[i] == x);
            assert(seen.contains(x));
        }
    }
}

/// Looks at every dependency of `deps` in order and collects the imports
/// that they name. Returns whether every reference selected an import.
fn scan_imports(
    graph: &AssetGraph,
    deps: &Vec<RefIndex>,
    found: &mut Vec<RefIndex>,
    visited: &mut HashMap<i32, usize>,
) -> (ok: bool)
    requires
        marks(old(visited)@, old(found)@),
    ensures
        ok ==> import_scan(graph.imports@, deps@, Some(old(found)@)) == Some(final(found)@)
            && marks(final(visited)@, final(found)@),
        !ok ==> import_scan(graph.imports@, deps@, Some(old(found)@)) is None,
{
    broadcast use vstd::std_specs::hash::group_hash_axioms;

    let ghost imports = graph.imports@;
    let ghost start = Some(found@);
    let m = deps.len();
    let mut j: usize = 0;
    assert(deps@.take(0).len() == 0);
    while j < m
        invariant
            j <= m,
            m == deps@.len(),
            imports == graph.imports@,
            start == Some(old(found)@),
            import_scan(imports, deps@.take(j as int), start) == Some(found@),
            marks(visited@, found@),
        decreases m - j,
    {
        let dep = deps[j];
        proof {
            let t = deps@.take(j + 1);
            assert(t.drop_last() =~= deps@.take(j as int));
            assert(t.last() == dep);
            assert(dep == RefIndex { index: dep.index });
        }
        if dep.index < 0 && !visited.contains_key(&dep.index) {
            match graph.get_import(dep) {
                None => {
                    proof {
                        lemma_import_scan_fails(imports, deps@, start, j + 1);
                    }
                    return false;
                },
                Some(import) => {
                    let ghost marked = visited@;
                    let ghost seen = found@;
                    visited.insert(dep.index, found.len());
                    found.push(dep);
                    proof {
                        lemma_marks_push(marked, seen, dep, visited@, seen.len() as usize);
                    }
                    let outer = import.outer_index;
                    assert(outer == RefIndex { index: outer.index });
                    if outer.index != 0 && !visited.contains_key(&outer.index) {
                        match graph.get_import(outer) {
                            None => {
                                proof {
                                    lemma_import_scan_fails(imports, deps@, start, j + 1);
                                }
                                return false;
                            },
                            Some(_) => {
                                let ghost marked = visited@;
                                let ghost seen = found@;
                                visited.insert(outer.index, found.len());
                                found.push(outer);
                                proof {
                                    lemma_marks_push(
                                        marked,
                                        seen,
                                        outer,
                                        visited@,
                                        seen.len() as usize,
                                    );
                                }
                            },
                        }
                    }
                },
            }
        }
        j = j + 1;
    }
    assert(deps@.take(m as int) =~= deps@);
    true
}

/// The imports that the exports of `order` take along: `None` where a
/// dependency, or the parent of a collected import, selects no import.
pub fn collect_imports(graph: &AssetGraph, order: &Vec<RefIndex>) -> (found: Option<Vec<RefIndex>>)
    requires
        forall|k: int| 0 <= k < order@.len() ==> graph.has_export(#[trigger] order@[k]),
    ensures
        match found {
            Some(list) => import_closure(graph.exports@, graph.imports@, order@) == Some(list@),
            None => import_closure(graph.exports@, graph.imports@, order@) is None,
        },
{
    let ghost exports = graph.exports@;
    let ghost imports = graph.imports@;
    let mut found: Vec<RefIndex> = Vec::new();
    let mut visited: HashMap<i32, usize> = HashMap::new();
    let n = order.len();
    let mut k: usize = 0;
    assert(found@ =~= Seq::<RefIndex>::empty());
    assert(marks(visited@, found@)) by {
        broadcast use vstd::std_specs::hash::group_hash_axioms;

    }
    while k < n
        invariant
            k <= n,
            n == order@.len(),
            exports == graph.exports@,
            imports == graph.imports@,
            forall|i: int| 0 <= i < order@.len() ==> graph.has_export(#[trigger] order@[i]),
            import_closure_upto(exports, imports, order@, k as int) == Some(found@),
            marks(visited@, found@),
        decreases n - k,
    {
        let r = order[k];
        assert(graph.has_export(order@[k as int]));
        match graph.get_export(r) {
            None => {
                assert(false);
            },
            Some(export) => {
                if !scan_imports(
                    graph,
                    &export.create_before_serialization,
                    &mut found,
                    &mut visited,
                ) {
                    proof {
                        lemma_import_scan_none(imports, export.serialization_before_create@);
                        lemma_import_closure_fails(exports, imports, order@, k + 1, n as int);
                    }
                    return None;
                }
                if !scan_imports(
                    graph,
                    &export.serialization_before_create,
                    &mut found,
                    &mut visited,
                ) {
                    proof {
                        lemma_import_closure_fails(exports, imports, order@, k + 1, n as int);
                    }
                    return None;
                }
            },
        }
        k = k + 1;
    }
    Some(found)
}

} // verus!
