//! The name map of the asset codec, read into a name table and brought in
//! line with one.
//!
//! The codec keeps the names of a package in a
//! [`NameMap`](unreal_asset::asset::name_map::NameMap). The edits work on a
//! [`NameTable`]; the two functions of this module carry the names from the
//! one to the other. What the name map does is not verified here: the three
//! functions that call it state what its source shows, and the rest is
//! proved from that.

use vstd::prelude::*;
use unreal_asset::asset::name_map::NameMap;
use crate::name_table::NameTable;
use crate::text::texts;

verus! {

/// The name map of the codec. Nothing is known of it but what the
/// functions below state.
#[verifier::external_type_specification]
#[verifier::external_body]
pub struct ExNameMap(NameMap);

/// The texts that a name map holds, in the order of their indices.
pub uninterp spec fn name_map_texts(map: NameMap) -> Seq<Seq<char>>;

/// Calls `NameMap::get_name_map_index_list`, which hands out the list of
/// names that the map holds, and copies that list.
#[verifier::external_body]
fn held_texts(map: &NameMap) -> (held: Vec<String>)
    ensures
        texts(held@) == name_map_texts(*map),
{
    map.get_name_map_index_list().to_vec()
}

/// Calls `NameMap::add_name_reference`. Told to add the name even if the
/// map holds it already, the map puts the name at the end of its list.
/// Otherwise it first looks the name up, and either finds it and changes
/// nothing or puts it at the end. No other entry changes.
#[verifier::external_body]
fn add_text(map: &mut NameMap, text: String, even_if_held: bool)
    ensures
        even_if_held ==> name_map_texts(*final(map)) == name_map_texts(*old(map)).push(text@),
        !even_if_held ==> name_map_texts(*final(map)) == name_map_texts(*old(map))
            || name_map_texts(*final(map)) == name_map_texts(*old(map)).push(text@),
{
    map.add_name_reference(text, even_if_held);
}

/// Calls `NameMap::get_name_reference_mut`, which hands out the entry at an
/// index, and overwrites that entry. The map indexes its list with the
/// index, so the index has to select an entry.
#[verifier::external_body]
fn set_text(map: &mut NameMap, i: usize, text: String)
    requires
        i < name_map_texts(*old(map)).len(),
        i <= i32::MAX,
    ensures
        name_map_texts(*final(map)) == name_map_texts(*old(map)).update(i as int, text@),
{
    *map.get_name_reference_mut(i as i32) = text;
}

/// The name table with the names of a name map, each at its index.
pub fn read_names(map: &NameMap) -> (table: NameTable)
    ensures
        table@ == name_map_texts(*map),
{
    NameTable { names: held_texts(map) }
}

/// Whether a name map can be brought in line with the table: the table
/// holds an entry for each entry of the map, and every index fits in 32
/// bits.
pub open spec fn can_hold(held: Seq<Seq<char>>, table: Seq<Seq<char>>) -> bool {
    held.len() <= table.len() <= i32::MAX
}

/// Brings a name map in line with a name table: overwrites each entry whose
/// text differs and adds the entries that the map lacks, so that the map
/// holds the texts of the table, each at its index. Returns whether that
/// could be done; if not, the map is as it was.
pub fn write_names(map: &mut NameMap, table: &NameTable) -> (done: bool)
    ensures
        done == can_hold(name_map_texts(*old(map)), table@),
        done ==> name_map_texts(*final(map)) == table@,
        !done ==> name_map_texts(*final(map)) == name_map_texts(*old(map)),
{
    let held = held_texts(map);
    let n = table.names.len();
    let before = held.len();
    if before > n || n > i32::MAX as usize {
        return false;
    }
    let mut i: usize = 0;
    while i < before
        invariant
            i <= before <= n,
            n == table@.len(),
            n <= i32::MAX,
            before == held@.len(),
            texts(held@) == name_map_texts(*old(map)),
            name_map_texts(*map).len() == before,
            forall|j: int| 0 <= j < i ==> #[trigger] name_map_texts(*map)[j] == table@[j],
            forall|j: int|
                i <= j < before ==> #[trigger] name_map_texts(*map)[j] == texts(held@)[j],
        decreases before - i,
    {
        assert(texts(held@)[i as int] == held@[i as int]@);
        if held[i] != table.names[i] {
            set_text(map, i, table.names[i].clone());
        }
        i = i + 1;
    }
    while i < n
        invariant
            before <= i <= n,
            n == table@.len(),
            name_map_texts(*map).len() == i,
            forall|j: int| 0 <= j < i ==> #[trigger] name_map_texts(*map)[j] == table@[j],
        decreases n - i,
    {
        add_text(map, table.names[i].clone(), true);
        i = i + 1;
    }
    assert(name_map_texts(*map) =~= table@);
    true
}

} // verus!
