//! Block identity: how a block or header exposes its own identifier and its
//! parent's identifier, forming an implicit tree.

use vstd::prelude::*;

verus! {

/// A block or a header that is identified: it carries a unique identifier and
/// references its parent by identifier. `None` as the parent marks a root
/// (genesis) block.
///
/// Identifiers are plain 64-bit words, so that containers keyed by them can be
/// reasoned about; a chain whose native identifiers are wider hashes keys this
/// framework by a digest-derived word.
pub trait Identified: Sized {
    /// The identifier, as seen by specifications.
    spec fn id_spec(&self) -> u64;

    /// The parent identifier, as seen by specifications.
    spec fn parent_id_spec(&self) -> Option<u64>;

    /// Get the block identifier.
    fn id(&self) -> (r: u64)
        ensures
            r == self.id_spec(),
    ;

    /// Get the parent block identifier. `None` if this block is a root.
    fn parent_id(&self) -> (r: Option<u64>)
        ensures
            r == self.parent_id_spec(),
    ;
}

/// Additional index keys for a block or a header, for example a block number.
/// Several blocks may share one key: every fork has a block at a given height.
pub trait Keyed<Key>: Sized {
    /// The key, as seen by specifications.
    spec fn key_spec(&self) -> Key;

    /// Get the block key.
    fn key(&self) -> (r: Key)
        ensures
            r == self.key_spec(),
    ;
}

/// A block from which a header can be derived. The header is a reduced view of
/// the block and shares its identifier.
pub trait Headered: Sized {
    /// Header type.
    type Header: Clone + Eq;

    /// The derived header, as seen by specifications.
    spec fn header_spec(&self) -> Self::Header;

    /// Get the block header.
    fn header(&self) -> (r: Self::Header)
        ensures
            r == self.header_spec(),
    ;
}

/// A minimal block: an identifier, an optional parent identifier and a block
/// number. It is small enough to be its own header.
#[derive(Clone, Copy, Debug, PartialEq, Eq)]
pub struct SimpleBlock {
    /// Identifier of this block.
    pub id: u64,
    /// Identifier of the parent block; `None` for a root.
    pub parent_id: Option<u64>,
    /// Block number, the secondary key.
    pub number: u64,
}

impl Identified for SimpleBlock {
    open spec fn id_spec(&self) -> u64 {
        self.id
    }

    open spec fn parent_id_spec(&self) -> Option<u64> {
        self.parent_id
    }

    fn id(&self) -> (r: u64) {
        self.id
    }

    fn parent_id(&self) -> (r: Option<u64>) {
        self.parent_id
    }
}

impl Keyed<u64> for SimpleBlock {
    open spec fn key_spec(&self) -> u64 {
        self.number
    }

    fn key(&self) -> (r: u64) {
        self.number
    }
}

impl Headered for SimpleBlock {
    type Header = SimpleBlock;

    open spec fn header_spec(&self) -> SimpleBlock {
        *self
    }

    fn header(&self) -> (r: SimpleBlock) {
        *self
    }
}

} // verus!
