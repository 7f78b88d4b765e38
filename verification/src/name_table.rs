//! The table of names of a graph.

use vstd::prelude::*;
use vstd::string::*;
use crate::text::{contains_text, replace_all, replace_text, text_contains, texts};

verus! {

/// A name of a graph: the position of its text in the graph's name table.
/// It has no meaning in any other graph.
#[derive(Clone, Copy, Debug, PartialEq, Eq, Structural)]
pub struct NameRef {
    pub index: usize,
}

/// `i` is the first position at which `name` stands in `names`.
pub open spec fn is_first_index(names: Seq<Seq<char>>, name: Seq<char>, i: int) -> bool {
    &&& 0 <= i < names.len()
    &&& names[i] == name
    &&& forall|j: int| 0 <= j < i ==> names[j] != name
}

/// The table after `name` was interned: unchanged where it holds the name,
/// else with the name at its end.
pub open spec fn interned(names: Seq<Seq<char>>, name: Seq<char>) -> Seq<Seq<char>> {
    if names.contains(name) {
        names
    } else {
        names.push(name)
    }
}

/// The table with `from` replaced by `to` inside every entry.
pub open spec fn renamed(names: Seq<Seq<char>>, from: Seq<char>, to: Seq<char>) -> Seq<
    Seq<char>,
> {
    Seq::new(names.len(), |i: int| replace_all(names[i], from, to))
}

/// No text stands twice in the table.
pub open spec fn all_distinct(names: Seq<Seq<char>>) -> bool {
    forall|i: int, j: int| 0 <= i < j < names.len() ==> names[i] != names[j]
}

/// An ordered pool of texts. Entries are never removed and never move.
#[derive(Debug, PartialEq, Eq)]
pub struct NameTable {
    pub names: Vec<String>,
}

impl NameTable {
    /// The texts of the table, in order.
    pub open spec fn view(&self) -> Seq<Seq<char>> {
        texts(self.names@)
    }

    pub fn new() -> (table: NameTable)
        ensures
            table@ == Seq::<Seq<char>>::empty(),
    {
        let table = NameTable { names: Vec::new() };
        assert(table@ =~= Seq::<Seq<char>>::empty());
        table
    }

    pub fn len(&self) -> (n: usize)
        ensures
            n == self@.len(),
    {
        self.names.len()
    }

    /// The text of a name, if the table holds it.
    pub fn lookup(&self, name: NameRef) -> (text: Option<&str>)
        ensures
            name.index < self@.len() ==> (text matches Some(t) && t@ == self@[name.index as int]),
            name.index >= self@.len() ==> text is None,
    {
        if name.index < self.names.len() {
            Some(self.names[name.index].as_str())
        } else {
            None
        }
    }

    /// Whether `name` is a name of this table whose text is `text`.
    pub fn resolves_to(&self, name: NameRef, text: &String) -> (b: bool)
        ensures
            b == (name.index < self@.len() && self@[name.index as int] == text@),
    {
        name.index < self.names.len() && self.names[name.index] == *text
    }

    /// The first entry whose text is `text`.
    pub fn find(&self, text: &str) -> (found: Option<NameRef>)
        ensures
            found matches Some(r) ==> is_first_index(self@, text@, r.index as int),
            found is None ==> !self@.contains(text@),
    {
        let wanted = text.to_owned();
        let n = self.names.len();
        let mut i: usize = 0;
        while i < n
            invariant
                i <= n,
                n == self.names@.len(),
                wanted@ == text@,
                forall|j: int| 0 <= j < i ==> self@[j] != text@,
            decreases n - i,
        {
            if self.names[i] == wanted {
                return Some(NameRef { index: i });
            }
            i = i + 1;
        }
        None
    }

    /// The name whose text is `text`. A text that the table does not hold
    /// yet is added at its end; no other entry changes.
    pub fn intern(&mut self, text: &str) -> (name: NameRef)
        ensures
            final(self)@ == interned(old(self)@, text@),
            is_first_index(final(self)@, text@, name.index as int),
            old(self)@.contains(text@) ==> is_first_index(old(self)@, text@, name.index as int),
            !old(self)@.contains(text@) ==> name.index == old(self)@.len(),
    {
        match self.find(text) {
            Some(r) => {
                proof {
                    assert(self@[r.index as int] == text@);
                }
                r
            },
            None => {
                let ghost before = self@;
                let index = self.names.len();
                self.names.push(text.to_owned());
                assert(self@ =~= before.push(text@));
                NameRef { index }
            },
        }
    }

    /// Replaces `from` by `to` inside every entry. Returns the positions of
    /// the entries in which `from` stood, in rising order.
    pub fn rename_matching(&mut self, from: &str, to: &str) -> (touched: Vec<usize>)
        ensures
            final(self)@ == renamed(old(self)@, from@, to@),
            forall|k: int|
                #![trigger touched@[k]]
                0 <= k < touched@.len() ==> touched@[k] < old(self)@.len() && contains_text(
                    old(self)@[touched@[k] as int],
                    from@,
                ),
            forall|i: int|
                0 <= i < old(self)@.len() && contains_text(#[trigger] old(self)@[i], from@)
                    ==> touched@.contains(i as usize),
            forall|k: int, l: int| 0 <= k < l < touched@.len() ==> touched@[k] < touched@[l],
    {
        let ghost before = self@;
        let n = self.names.len();
        let mut touched: Vec<usize> = Vec::new();
        let mut i: usize = 0;
        while i < n
            invariant
                i <= n,
                n == before.len(),
                self@.len() == n,
                forall|j: int| 0 <= j < i ==> self@[j] == replace_all(before[j], from@, to@),
                forall|j: int| i <= j < n ==> self@[j] == before[j],
                forall|k: int|
                    #![trigger touched@[k]]
                    0 <= k < touched@.len() ==> touched@[k] < i && contains_text(
                        before[touched@[k] as int],
                        from@,
                    ),
                forall|j: int|
                    0 <= j < i && contains_text(#[trigger] before[j], from@) ==> touched@.contains(
                        j as usize,
                    ),
                forall|k: int, l: int| 0 <= k < l < touched@.len() ==> touched@[k] < touched@[l],
            decreases n - i,
        {
            let ghost current = self@;
            let ghost marks = touched@;
            let hit = text_contains(self.names[i].as_str(), from);
            let replaced = replace_text(self.names[i].as_str(), from, to);
            self.names.set(i, replaced);
            if hit {
                touched.push(i);
            }
            proof {
                assert forall|j: int| 0 <= j < i + 1 implies self@[j] == replace_all(
                    before[j],
                    from@,
                    to@,
                ) by {
                    if j < i {
                        assert(self@[j] == current[j]);
                    }
                }
                assert forall|j: int| i + 1 <= j < n implies self@[j] == before[j] by {
                    assert(self@[j] == current[j]);
                }
                assert forall|j: int|
                    0 <= j < i + 1 && contains_text(
                        #[trigger] before[j],
                        from@,
                    ) implies touched@.contains(j as usize) by {
                    if j < i {
                        let k = choose|k: int| 0 <= k < marks.len() && marks[k] == j as usize;
                        assert(touched@[k] == j as usize);
                    } else {
                        assert(touched@[touched@.len() - 1] == i);
                    }
                }
            }
            i = i + 1;
        }
        assert(self@ =~= renamed(before, from@, to@));
        touched
    }
}

/// Interning keeps every entry where it was.
pub proof fn lemma_intern_keeps_entries(names: Seq<Seq<char>>, name: Seq<char>)
    ensures
        names.is_prefix_of(interned(names, name)),
        forall|i: int| 0 <= i < names.len() ==> interned(names, name)[i] == names[i],
        interned(names, name).contains(name),
{
    if !names.contains(name) {
        assert(names.push(name)[names.len() as int] == name);
    }
}

/// Interning a text a second time changes nothing and yields the same name.
pub proof fn lemma_intern_again(names: Seq<Seq<char>>, name: Seq<char>, first: int, second: int)
    requires
        is_first_index(interned(names, name), name, first),
        is_first_index(interned(interned(names, name), name), name, second),
    ensures
        interned(interned(names, name), name) == interned(names, name),
        second == first,
{
    lemma_intern_keeps_entries(names, name);
}

/// The first position of a text stays its first position when entries are
/// added behind it.
pub proof fn lemma_first_index_stable(
    names: Seq<Seq<char>>,
    longer: Seq<Seq<char>>,
    name: Seq<char>,
    i: int,
)
    requires
        names.is_prefix_of(longer),
        is_first_index(names, name, i),
    ensures
        is_first_index(longer, name, i),
{
    assert forall|j: int| 0 <= j < i implies longer[j] != name by {
        assert(longer[j] == names[j]);
    }
    assert(longer[i] == names[i]);
}

/// Interning keeps a table free of doubles.
pub proof fn lemma_intern_keeps_distinct(names: Seq<Seq<char>>, name: Seq<char>)
    requires
        all_distinct(names),
    ensures
        all_distinct(interned(names, name)),
{
}

} // verus!
