//! Signed indices that select an export, an import, or nothing.

use vstd::prelude::*;

verus! {

/// A reference to an object of a graph.
///
/// `0` refers to nothing. A positive value `i` refers to the export at
/// position `i - 1`, a negative value `i` to the import at position `-i - 1`.
/// The value only has a meaning together with the graph whose lists it
/// addresses.
#[derive(Clone, Copy, Debug, PartialEq, Eq, Structural)]
pub struct RefIndex {
    pub index: i32,
}

/// What a [`RefIndex`] selects, with the position counted from zero.
#[derive(Clone, Copy, Debug, PartialEq, Eq, Structural)]
pub enum RefKind {
    Null,
    Export(u32),
    Import(u32),
}

impl RefIndex {
    pub open spec fn is_null(self) -> bool {
        self.index == 0
    }

    pub open spec fn is_export(self) -> bool {
        self.index > 0
    }

    pub open spec fn is_import(self) -> bool {
        self.index < 0
    }

    /// The position in the export list or in the import list; `0` for the
    /// null reference.
    pub open spec fn position(self) -> int {
        if self.index > 0 {
            self.index - 1
        } else if self.index < 0 {
            -self.index - 1
        } else {
            0
        }
    }

    /// The tagged form of the reference.
    pub open spec fn spec_kind(self) -> RefKind {
        if self.index > 0 {
            RefKind::Export((self.index - 1) as u32)
        } else if self.index < 0 {
            RefKind::Import((-self.index - 1) as u32)
        } else {
            RefKind::Null
        }
    }

    /// The reference resolves in a graph with `exports` exports and
    /// `imports` imports: it is null or addresses an existing entry.
    pub open spec fn resolves(self, exports: int, imports: int) -> bool {
        -imports <= self.index <= exports
    }

    pub fn new(index: i32) -> (r: RefIndex)
        ensures
            r.index == index,
    {
        RefIndex { index }
    }

    pub fn null() -> (r: RefIndex)
        ensures
            r.index == 0,
    {
        RefIndex { index: 0 }
    }

    /// The reference to the export at `position`, if the index fits.
    pub fn from_export_position(position: usize) -> (r: Option<RefIndex>)
        ensures
            position < i32::MAX ==> r == Some(RefIndex { index: (position + 1) as i32 }),
            position >= i32::MAX ==> r is None,
    {
        if position < i32::MAX as usize {
            Some(RefIndex { index: position as i32 + 1 })
        } else {
            None
        }
    }

    /// The reference to the import at `position`, if the index fits.
    pub fn from_import_position(position: usize) -> (r: Option<RefIndex>)
        ensures
            position <= i32::MAX ==> r == Some(RefIndex { index: (-(position + 1)) as i32 }),
            position > i32::MAX ==> r is None,
    {
        if position <= i32::MAX as usize {
            Some(RefIndex { index: -(position as i32) - 1 })
        } else {
            None
        }
    }

    pub fn kind(&self) -> (k: RefKind)
        ensures
            k == self.spec_kind(),
    {
        if self.index > 0 {
            RefKind::Export((self.index - 1) as u32)
        } else if self.index < 0 {
            RefKind::Import((-(self.index as i64) - 1) as u32)
        } else {
            RefKind::Null
        }
    }

    /// The position of the export that the reference selects.
    pub fn export_position(&self) -> (p: Option<usize>)
        ensures
            self.is_export() ==> p == Some(self.position() as usize),
            !self.is_export() ==> p is None,
    {
        if self.index > 0 {
            Some((self.index - 1) as usize)
        } else {
            None
        }
    }

    /// The position of the import that the reference selects.
    pub fn import_position(&self) -> (p: Option<usize>)
        ensures
            self.is_import() ==> p == Some(self.position() as usize),
            !self.is_import() ==> p is None,
    {
        if self.index < 0 {
            Some((-(self.index as i64) - 1) as usize)
        } else {
            None
        }
    }
}

impl RefKind {
    /// The signed index of the tagged form, where it fits in 32 bits.
    pub open spec fn spec_to_index(self) -> Option<RefIndex> {
        match self {
            RefKind::Null => Some(RefIndex { index: 0 }),
            RefKind::Export(p) => if p < i32::MAX {
                Some(RefIndex { index: (p + 1) as i32 })
            } else {
                None
            },
            RefKind::Import(p) => if p <= i32::MAX {
                Some(RefIndex { index: (-(p + 1)) as i32 })
            } else {
                None
            },
        }
    }

    pub fn to_index(&self) -> (r: Option<RefIndex>)
        ensures
            r == self.spec_to_index(),
    {
        match self {
            RefKind::Null => Some(RefIndex { index: 0 }),
            RefKind::Export(p) => if *p < i32::MAX as u32 {
                Some(RefIndex { index: (*p + 1) as i32 })
            } else {
                None
            },
            RefKind::Import(p) => if *p <= i32::MAX as u32 {
                Some(RefIndex { index: (-(*p as i64) - 1) as i32 })
            } else {
                None
            },
        }
    }
}

/// Every signed index is the index of its own tagged form.
pub proof fn lemma_kind_round_trip(r: RefIndex)
    ensures
        r.spec_kind().spec_to_index() == Some(r),
{
}

/// A tagged form that has a signed index is the tagged form of that index.
pub proof fn lemma_index_round_trip(k: RefKind)
    requires
        k.spec_to_index() is Some,
    ensures
        k.spec_to_index()->0.spec_kind() == k,
{
}

} // verus!
