//! Identifiers, statuses and errors shared by every part of the crate.

use crate::bytes::base;
use vstd::prelude::*;

verus! {

/// The class of a failure.
#[derive(Clone, Copy, Debug, PartialEq, Eq, Structural)]
pub enum Status {
    /// The request is malformed or out of range.
    Invalid,
    /// A handle names something that is not there any more.
    HandleStale,
    /// A region's ownership claim is out of date.
    OwnershipStale,
    /// Two requests cannot both be honoured.
    Conflict,
    /// The caller holds no capability for the request.
    Capability,
    /// A counter or size limit is reached.
    Limit,
    /// A schema asks for something that is not registered.
    SchemaUnsupported,
    /// The executable program is inconsistent.
    EirInvalid,
    /// An internal invariant is broken.
    Internal,
}

/// A failure: its class, a detail code, and a byte offset into the source it
/// concerns (zero when there is none).
#[derive(Clone, Copy, Debug, PartialEq, Eq, Structural)]
pub struct Error {
    pub status: Status,
    pub detail: u32,
    pub byte_offset: u64,
}

/// The id of a world.
#[derive(Clone, Copy, Debug, PartialEq, Eq, Structural)]
pub struct WorldId(pub u64);

/// A version of a world: it grows by one with every commit.
#[derive(Clone, Copy, Debug, PartialEq, Eq, Structural)]
pub struct WorldVersion(pub u64);

/// A time of the simulation, in ticks.
#[derive(Clone, Copy, Debug, PartialEq, Eq, Structural)]
pub struct SimTime(pub u64);

/// The id of an entity.
#[derive(Clone, Copy, Debug, PartialEq, Eq, Structural)]
pub struct EntityId(pub u128);

/// The id of a region.
#[derive(Clone, Copy, Debug, PartialEq, Eq, Structural)]
pub struct RegionId(pub u64);

/// The id of a transfer between regions.
#[derive(Clone, Copy, Debug, PartialEq, Eq, Structural)]
pub struct TransferId(pub u128);

/// The id of a resource.
#[derive(Clone, Copy, Debug, PartialEq, Eq, Structural)]
pub struct ResourceId(pub u128);

/// How often an entity has changed its owner.
#[derive(Clone, Copy, Debug, PartialEq, Eq, Structural)]
pub struct OwnershipEpoch(pub u64);

/// The type of a component: its sixteen bytes as one integer, the first byte highest.
#[derive(Clone, Copy, Debug, PartialEq, Eq, Structural)]
pub struct ComponentTypeId(pub u128);

/// The integer whose first `n` bytes, highest first, are given.
pub open spec fn be_value(s: Seq<u8>, n: nat) -> nat
    decreases n,
{
    if n == 0 || n > s.len() {
        0
    } else {
        256 * be_value(s, (n - 1) as nat) + s[n - 1] as nat
    }
}

proof fn lemma_be_bound(s: Seq<u8>, n: nat)
    ensures
        be_value(s, n) < base(n),
    decreases n,
{
    if n > 0 {
        lemma_be_bound(s, (n - 1) as nat);
    }
}

impl ComponentTypeId {
    /// The type with the given bytes.
    pub fn from_bytes(bytes: [u8; 16]) -> (r: ComponentTypeId)
        ensures
            r.0 == be_value(bytes@, 16),
    {
        let mut v: u128 = 0;
        let mut i: usize = 0;
        while i < 16
            invariant
                i <= 16,
                bytes@.len() == 16,
                v == be_value(bytes@, i as nat),
            decreases 16 - i,
        {
            proof {
                lemma_be_bound(bytes@, (i + 1) as nat);
                reveal_with_fuel(base, 18);
                assert(base((i + 1) as nat) <= base(16));
            }
            v = v * 256 + bytes[i] as u128;
            i = i + 1;
        }
        ComponentTypeId(v)
    }
}

/// An entity and the generation of its id.
#[derive(Clone, Copy, Debug, PartialEq, Eq, Structural)]
pub struct EntityRef {
    pub id: EntityId,
    pub generation: u32,
}

/// The region that owns an entity, and since which epoch.
#[derive(Clone, Copy, Debug, PartialEq, Eq, Structural)]
pub struct Ownership {
    pub region: RegionId,
    pub epoch: OwnershipEpoch,
}

/// What a caller may do.
#[derive(Clone, Copy, Debug, PartialEq, Eq, Structural)]
pub struct Access {
    pub read: bool,
    pub write: bool,
    pub create: bool,
    pub destroy: bool,
    pub emit: bool,
}

impl Access {
    /// Nothing.
    pub fn none() -> (r: Access)
        ensures
            r == (Access {
                read: false,
                write: false,
                create: false,
                destroy: false,
                emit: false,
            }),
    {
        Access { read: false, write: false, create: false, destroy: false, emit: false }
    }

    /// What either of two allows.
    pub fn union(self, other: Access) -> (r: Access)
        ensures
            r == (Access {
                read: self.read || other.read,
                write: self.write || other.write,
                create: self.create || other.create,
                destroy: self.destroy || other.destroy,
                emit: self.emit || other.emit,
            }),
    {
        Access {
            read: self.read || other.read,
            write: self.write || other.write,
            create: self.create || other.create,
            destroy: self.destroy || other.destroy,
            emit: self.emit || other.emit,
        }
    }
}

/// A 256-bit digest.
#[derive(Clone, Copy, Debug, PartialEq, Eq)]
pub struct Hash256(pub [u8; 32]);

impl View for Hash256 {
    type V = Seq<u8>;

    open spec fn view(&self) -> Seq<u8> {
        self.0@
    }
}

impl Hash256 {
    /// Whether two digests are the same.
    pub fn same(&self, other: &Hash256) -> (r: bool)
        ensures
            r == (self@ == other@),
    {
        let mut i: usize = 0;
        while i < 32
            invariant
                i <= 32,
                self@.len() == 32,
                other@.len() == 32,
                forall|k: int| 0 <= k < i ==> self@[k] == other@[k],
            decreases 32 - i,
        {
            if self.0[i] != other.0[i] {
                proof {
                    assert(self@[i as int] != other@[i as int]);
                }
                return false;
            }
            i = i + 1;
        }
        proof {
            assert(self@ =~= other@);
        }
        true
    }
}

/// The digest of nothing: all zero.
pub open spec fn zero_hash() -> Seq<u8> {
    Seq::new(32, |i: int| 0u8)
}

/// Builds the digest of nothing.
pub fn no_hash() -> (h: Hash256)
    ensures
        h@ == zero_hash(),
{
    let h: Hash256 = Hash256([0; 32]);
    assert(h@ =~= zero_hash());
    h
}

/// The error with the given status and detail and no source position.
pub open spec fn spec_error(status: Status, detail: u32) -> Error {
    Error { status, detail, byte_offset: 0 }
}

/// Builds an error without a source position.
pub fn error(status: Status, detail: u32) -> (e: Error)
    ensures
        e == spec_error(status, detail),
{
    Error { status, detail, byte_offset: 0 }
}

} // verus!
