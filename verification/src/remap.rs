//! The table that turns references of one graph into references of another.

use vstd::prelude::*;
use std::collections::HashMap;
use crate::error::EditError;
use crate::reference::RefIndex;

verus! {

/// Where the records of a subgraph go: the exports and imports that are
/// taken along, in order, behind how many exports and imports they are put,
/// and which level root stands for which.
pub struct Placement {
    pub exports: Seq<RefIndex>,
    pub imports: Seq<RefIndex>,
    pub export_base: int,
    pub import_base: int,
    pub donor_level: RefIndex,
    pub target_level: RefIndex,
}

impl Placement {
    /// No record is taken twice, exports are exports and imports are
    /// imports, the level root of the one graph is not taken along, that of
    /// the other exists, and every new index fits in 32 bits.
    pub open spec fn wf(self) -> bool {
        &&& self.exports.no_duplicates()
        &&& self.imports.no_duplicates()
        &&& forall|k: int| 0 <= k < self.exports.len() ==> (#[trigger] self.exports[k]).index >= 1
        &&& forall|k: int| 0 <= k < self.imports.len() ==> (#[trigger] self.imports[k]).index <= -1
        &&& self.donor_level.index >= 1
        &&& !self.exports.contains(self.donor_level)
        &&& 1 <= self.target_level.index <= self.export_base
        &&& 0 <= self.import_base
        &&& self.fits()
    }

    /// Every new index fits in 32 bits.
    pub open spec fn fits(self) -> bool {
        &&& self.export_base + self.exports.len() <= i32::MAX
        &&& self.import_base + self.imports.len() <= i32::MAX
    }

    /// The table has an entry for `r`.
    pub open spec fn covers(self, r: RefIndex) -> bool {
        r == self.donor_level || self.exports.contains(r) || self.imports.contains(r)
    }

    /// The reference that stands for `r` in the target: level root for level
    /// root, the new place of a record that is taken along, and `r` itself
    /// for any other.
    pub open spec fn target_of(self, r: RefIndex) -> RefIndex {
        if r == self.donor_level {
            self.target_level
        } else if self.exports.contains(r) {
            RefIndex { index: (self.export_base + self.exports.index_of(r) + 1) as i32 }
        } else if self.imports.contains(r) {
            RefIndex { index: (-(self.import_base + self.imports.index_of(r) + 1)) as i32 }
        } else {
            r
        }
    }

    /// The table of old and new indices.
    pub open spec fn table(self) -> Map<i32, i32> {
        Map::new(
            |k: i32| self.covers(RefIndex { index: k }),
            |k: i32| self.target_of(RefIndex { index: k }).index,
        )
    }
}

/// The placement with the given parts.
pub open spec fn placement(
    exports: Seq<RefIndex>,
    imports: Seq<RefIndex>,
    export_base: int,
    import_base: int,
    donor_level: RefIndex,
    target_level: RefIndex,
) -> Placement {
    Placement { exports, imports, export_base, import_base, donor_level, target_level }
}

/// The new reference for `r`: what the table holds for it, or `r` itself
/// where the table has no entry.
pub open spec fn mapped_or_same(table: Map<i32, i32>, r: RefIndex) -> RefIndex {
    if table.contains_key(r.index) {
        RefIndex { index: table[r.index] }
    } else {
        r
    }
}

/// `r` is null or has an entry in the table.
pub open spec fn mappable(table: Map<i32, i32>, r: RefIndex) -> bool {
    r.index == 0 || table.contains_key(r.index)
}

/// The new reference for `r`: null for null, else what the table holds.
pub open spec fn mapped_unless_null(table: Map<i32, i32>, r: RefIndex) -> RefIndex {
    if r.index == 0 {
        r
    } else {
        RefIndex { index: table[r.index] }
    }
}

/// `dst` holds the new references for the references of `src`, one for one.
pub open spec fn references_mapped(src: Seq<RefIndex>, dst: Seq<RefIndex>, table: Map<i32, i32>)
    -> bool {
    &&& dst.len() == src.len()
    &&& forall|i: int| 0 <= i < src.len() ==> #[trigger] dst[i] == mapped_or_same(table, src[i])
}

/// In a sequence without doubles, an element is found where it stands.
pub proof fn lemma_index_of_distinct(s: Seq<RefIndex>, k: int)
    requires
        s.no_duplicates(),
        0 <= k < s.len(),
    ensures
        s.contains(s[k]),
        s.index_of(s[k]) == k,
{
    assert(s.contains(s[k]));
    let i = s.index_of(s[k]);
    assert(0 <= i < s.len() && s[i] == s[k]);
}

/// Every reference that the table yields selects a record of the target as
/// it is after the subgraph was added.
pub proof fn lemma_table_values_resolve(p: Placement, k: i32)
    requires
        p.wf(),
        p.table().contains_key(k),
    ensures
        (RefIndex { index: p.table()[k] }).resolves(
            p.export_base + p.exports.len(),
            p.import_base + p.imports.len(),
        ),
        p.table()[k] != 0,
{
    let r = RefIndex { index: k };
    if r == p.donor_level {
    } else if p.exports.contains(r) {
        let i = p.exports.index_of(r);
        assert(0 <= i < p.exports.len());
    } else {
        assert(p.imports.contains(r));
        let i = p.imports.index_of(r);
        assert(0 <= i < p.imports.len());
    }
}

/// The new reference for `r`, or `r` itself where the table has no entry.
pub fn remap_or_keep(table: &HashMap<i32, i32>, r: RefIndex) -> (out: RefIndex)
    ensures
        out == mapped_or_same(table@, r),
{
    broadcast use vstd::std_specs::hash::group_hash_axioms;

    match table.get(&r.index) {
        Some(v) => RefIndex { index: *v },
        None => r,
    }
}

/// Whether `r` is null or has an entry in the table.
pub fn is_mappable(table: &HashMap<i32, i32>, r: RefIndex) -> (b: bool)
    ensures
        b == mappable(table@, r),
{
    broadcast use vstd::std_specs::hash::group_hash_axioms;

    r.index == 0 || table.contains_key(&r.index)
}

/// The new reference for `r`: null for null, else what the table holds.
pub fn remap_unless_null(table: &HashMap<i32, i32>, r: RefIndex) -> (out: RefIndex)
    requires
        mappable(table@, r),
    ensures
        out == mapped_unless_null(table@, r),
{
    broadcast use vstd::std_specs::hash::group_hash_axioms;

    if r.index == 0 {
        r
    } else {
        match table.get(&r.index) {
            Some(v) => RefIndex { index: *v },
            None => r,
        }
    }
}

/// The new references for `src`, one for one.
pub fn remap_all(table: &HashMap<i32, i32>, src: &Vec<RefIndex>) -> (dst: Vec<RefIndex>)
    ensures
        references_mapped(src@, dst@, table@),
{
    let n = src.len();
    let mut dst: Vec<RefIndex> = Vec::new();
    let mut i: usize = 0;
    while i < n
        invariant
            i <= n,
            n == src@.len(),
            dst@.len() == i,
            forall|j: int| 0 <= j < i ==> #[trigger] dst@[j] == mapped_or_same(table@, src@[j]),
        decreases n - i,
    {
        dst.push(remap_or_keep(table, src[i]));
        i = i + 1;
    }
    dst
}

/// Builds the table of old and new indices for a subgraph.
///
/// The table is refused where it would not hold one entry for each export,
/// one for each import, and one for the level root: that is, where the level
/// root is itself among the exports.
pub fn build_table(
    exports: &Vec<RefIndex>,
    imports: &Vec<RefIndex>,
    export_base: usize,
    import_base: usize,
    donor_level: RefIndex,
    target_level: RefIndex,
) -> (built: Result<HashMap<i32, i32>, EditError>)
    requires
        exports@.no_duplicates(),
        imports@.no_duplicates(),
        forall|k: int| 0 <= k < exports@.len() ==> (#[trigger] exports@[k]).index >= 1,
        forall|k: int| 0 <= k < imports@.len() ==> (#[trigger] imports@[k]).index <= -1,
        donor_level.index >= 1,
        export_base + exports@.len() <= i32::MAX,
        import_base + imports@.len() <= i32::MAX,
    ensures
        match built {
            Ok(table) => !exports@.contains(donor_level) && table@ == placement(
                exports@,
                imports@,
                export_base as int,
                import_base as int,
                donor_level,
                target_level,
            ).table(),
            Err(e) => exports@.contains(donor_level) && e == EditError::RemapConsistencyError,
        },
{
    broadcast use vstd::std_specs::hash::group_hash_axioms;

    let ghost p = placement(
        exports@,
        imports@,
        export_base as int,
        import_base as int,
        donor_level,
        target_level,
    );

    let mut table: HashMap<i32, i32> = HashMap::new();
    let n = exports.len();
    let mut k: usize = 0;
    while k < n
        invariant
            k <= n,
            n == exports@.len(),
            exports@.no_duplicates(),
            export_base + n <= i32::MAX,
            forall|i: int| 0 <= i < exports@.len() ==> (#[trigger] exports@[i]).index >= 1,
            table@.dom().finite(),
            table@.len() == k,
            forall|key: i32| #[trigger]
                table@.contains_key(key) <==> exports@.take(k as int).contains(
                    RefIndex { index: key },
                ),
            forall|i: int|
                0 <= i < k ==> table@[(#[trigger] exports@[i]).index] == export_base + i + 1,
        decreases n - k,
    {
        let r = exports[k];
        let ghost before = table@;
        proof {
            assert(r == RefIndex { index: r.index });
            if before.contains_key(r.index) {
                let i = choose|i: int|
                    0 <= i < exports@.take(k as int).len() && exports@.take(k as int)[i] == r;
                assert(exports@[i] == exports@[k as int]);
            }
        }
        table.insert(r.index, (export_base + k + 1) as i32);
        proof {
            let shorter = exports@.take(k as int);
            let longer = exports@.take(k + 1);
            assert(longer =~= shorter.push(r));
            assert forall|key: i32| #[trigger]
                table@.contains_key(key) <==> longer.contains(RefIndex { index: key }) by {
                let x = RefIndex { index: key };
                if key == r.index {
                    assert(longer[k as int] == x);
                } else if before.contains_key(key) {
                    let i = choose|i: int| 0 <= i < shorter.len() && shorter[i] == x;
                    assert(longer[i] == x);
                } else if longer.contains(x) {
                    let i = choose|i: int| 0 <= i < longer.len() && longer[i] == x;
                    assert(shorter[i] == x);
                    assert(shorter.contains(x));
                }
            }
            assert forall|i: int| 0 <= i < k + 1 implies table@[(#[trigger] exports@[i]).index]
                == export_base + i + 1 by {
                if i < k {
                    assert(exports@[i] != exports@[k as int]);
                }
            }
        }
        k = k + 1;
    }
    assert(exports@.take(n as int) =~= exports@);
    let m = imports.len();
    let mut l: usize = 0;
    while l < m
        invariant
            l <= m,
            m == imports@.len(),
            n == exports@.len(),
            imports@.no_duplicates(),
            import_base + m <= i32::MAX,
            forall|i: int| 0 <= i < exports@.len() ==> (#[trigger] exports@[i]).index >= 1,
            forall|i: int| 0 <= i < imports@.len() ==> (#[trigger] imports@[i]).index <= -1,
            table@.dom().finite(),
            table@.len() == n + l,
            forall|key: i32| #[trigger]
                table@.contains_key(key) <==> (exports@.contains(RefIndex { index: key })
                    || imports@.take(l as int).contains(RefIndex { index: key })),
            forall|i: int|
                0 <= i < n ==> table@[(#[trigger] exports@[i]).index] == export_base + i + 1,
            forall|i: int|
                0 <= i < l ==> table@[(#[trigger] imports@[i]).index] == -(import_base + i + 1),
        decreases m - l,
    {
        let r = imports[l];
        let ghost before = table@;
        proof {
            assert(r == RefIndex { index: r.index });
            if before.contains_key(r.index) {
                if exports@.contains(r) {
                    let i = choose|i: int| 0 <= i < exports@.len() && exports@[i] == r;
                    assert(exports@[i].index >= 1);
                } else {
                    let i = choose|i: int|
                        0 <= i < imports@.take(l as int).len() && imports@.take(l as int)[i] == r;
                    assert(imports@[i] == imports@[l as int]);
                }
            }
        }
        table.insert(r.index, (-(import_base as i64) - (l as i64) - 1) as i32);
        proof {
            let shorter = imports@.take(l as int);
            let longer = imports@.take(l + 1);
            assert(longer =~= shorter.push(r));
            assert forall|key: i32| #[trigger]
                table@.contains_key(key) <==> (exports@.contains(RefIndex { index: key })
                    || longer.contains(RefIndex { index: key })) by {
                let x = RefIndex { index: key };
                if key == r.index {
                    assert(longer[l as int] == x);
                } else if before.contains_key(key) {
                    if !exports@.contains(x) {
                        let i = choose|i: int| 0 <= i < shorter.len() && shorter[i] == x;
                        assert(longer[i] == x);
                    }
                } else if longer.contains(x) {
                    let i = choose|i: int| 0 <= i < longer.len() && longer[i] == x;
                    assert(shorter[i] == x);
                    assert(shorter.contains(x));
                }
            }
            assert forall|i: int| 0 <= i < n implies table@[(#[trigger] exports@[i]).index]
                == export_base + i + 1 by {
                assert(exports@[i].index >= 1);
            }
            assert forall|i: int| 0 <= i < l + 1 implies table@[(#[trigger] imports@[i]).index]
                == -(import_base + i + 1) by {
                if i < l {
                    assert(imports@[i] != imports@[l as int]);
                }
            }
        }
        l = l + 1;
    }
    assert(imports@.take(m as int) =~= imports@);
    let expected = n + m + 1;
    let ghost before = table@;
    table.insert(donor_level.index, target_level.index);
    assert(donor_level == RefIndex { index: donor_level.index });
    if table.len() != expected {
        assert(before.contains_key(donor_level.index));
        assert(exports@.contains(donor_level)) by {
            if imports@.contains(donor_level) {
                let i = choose|i: int| 0 <= i < imports@.len() && imports@[i] == donor_level;
                assert(imports@[i].index <= -1);
            }
        }
        return Err(EditError::RemapConsistencyError);
    }
    proof {
        assert(!before.contains_key(donor_level.index));
        assert(!exports@.contains(donor_level));
        assert forall|key: i32| #[trigger] table@.contains_key(key) <==> p.table().contains_key(
            key,
        ) by {}
        assert forall|key: i32| #[trigger] table@.contains_key(key) implies table@[key]
            == p.table()[key] by {
            let x = RefIndex { index: key };
            if x == donor_level {
            } else if exports@.contains(x) {
                let i = choose|i: int| 0 <= i < exports@.len() && exports@[i] == x;
                lemma_index_of_distinct(exports@, i);
                assert(table@[exports@[i].index] == export_base + i + 1);
            } else {
                let i = choose|i: int| 0 <= i < imports@.len() && imports@[i] == x;
                lemma_index_of_distinct(imports@, i);
                assert(table@[imports@[i].index] == -(import_base + i + 1));
            }
        }
        assert(table@ =~= p.table());
    }
    Ok(table)
}

} // verus!
