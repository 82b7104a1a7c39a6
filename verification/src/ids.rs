//! Catalog identifiers and typed references to catalog entities.

use vstd::prelude::*;

verus! {

/// Width, in characters, of every catalog identifier.
pub const ID_WIDTH: usize = 22;

/// True for the ASCII letters and digits that may appear in a catalog
/// identifier: `0`-`9` (48..57), `a`-`z` (97..122) and `A`-`Z` (65..90).
pub open spec fn is_id_byte(b: u8) -> bool {
    (48 <= b && b <= 57) || (97 <= b && b <= 122) || (65 <= b && b <= 90)
}

/// An opaque catalog identifier: a fixed-width run of ASCII letters and digits.
/// Two identifiers name the same entity exactly when their bytes are equal.
pub struct CatalogId {
    bytes: Vec<u8>,
}

impl View for CatalogId {
    type V = Seq<u8>;

    closed spec fn view(&self) -> Seq<u8> {
        self.bytes@
    }
}

/// A well-formed identifier holds exactly `ID_WIDTH` alphanumeric bytes.
pub open spec fn id_wf(id: Seq<u8>) -> bool {
    id.len() == ID_WIDTH && forall|i: int| 0 <= i < id.len() ==> is_id_byte(#[trigger] id[i])
}

impl CatalogId {
    /// Wraps raw identifier bytes. Callers that need a well-formed identifier
    /// must hand in `ID_WIDTH` alphanumeric bytes.
    pub fn new(bytes: Vec<u8>) -> (id: CatalogId)
        ensures
            id@ == bytes@,
    {
        CatalogId { bytes }
    }

    /// The identifier's bytes, for display or conversion by callers.
    pub fn as_bytes(&self) -> (r: &Vec<u8>)
        ensures
            r@ == self@,
    {
        &self.bytes
    }

    /// Byte-exact identity comparison, the equality the deduplicating set uses.
    pub fn same_as(&self, other: &CatalogId) -> (r: bool)
        ensures
            r == (self@ == other@),
    {
        let n = self.bytes.len();
        if n != other.bytes.len() {
            assert(self@ != other@);
            return false;
        }
        let mut i: usize = 0;
        while i < n
            invariant
                n == self@.len(),
                n == other@.len(),
                0 <= i <= n,
                forall|j: int| 0 <= j < i ==> self@[j] == other@[j],
            decreases n - i,
        {
            if self.bytes[i] != other.bytes[i] {
                assert(self@[i as int] != other@[i as int]);
                return false;
            }
            i = i + 1;
        }
        assert(self@ =~= other@);
        true
    }

    pub fn duplicate(&self) -> (r: CatalogId)
        ensures
            r@ == self@,
    {
        CatalogId { bytes: clone_bytes(&self.bytes) }
    }
}

/// Byte-for-byte copy of a buffer.
pub fn clone_bytes(v: &Vec<u8>) -> (r: Vec<u8>)
    ensures
        r@ == v@,
{
    let r = v.clone();
    proof {
        assert(r@ =~= v@);
    }
    r
}

/// The four kinds of catalog entity an input line can name.
#[derive(Clone, Copy, PartialEq, Eq, Structural, Debug)]
pub enum ResourceKind {
    Track,
    Album,
    Playlist,
    Artist,
}

/// A typed reference extracted from one input line: which kind of entity,
/// and the identifier naming it.
pub struct CatalogReference {
    pub kind: ResourceKind,
    pub id: CatalogId,
}

/// Ghost image of a `CatalogReference`.
pub struct RefView {
    pub kind: ResourceKind,
    pub id: Seq<u8>,
}

impl View for CatalogReference {
    type V = RefView;

    open spec fn view(&self) -> RefView {
        RefView { kind: self.kind, id: self.id@ }
    }
}

} // verus!
