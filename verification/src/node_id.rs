//! Node identifiers and the arithmetic that relates them.

use vstd::prelude::*;
use vstd::std_specs::ops::{AddSpecImpl, SubSpecImpl};

verus! {

/// Identifier of a single node: an opaque 128-bit number.
#[derive(Ord, PartialOrd, Eq, PartialEq, Structural, Copy, Clone, Hash, Debug)]
pub struct NodeId(pub u128);

/// Distance between two node ids that belong to the same chunk.
#[derive(Ord, PartialOrd, Eq, PartialEq, Structural, Copy, Clone)]
pub struct IdOffset(pub u32);

/// The number of distinct values of an `IdOffset`.
pub open spec fn offset_modulus() -> int {
    0x1_0000_0000
}

impl core::ops::Add<IdOffset> for NodeId {
    type Output = NodeId;

    fn add(self, rhs: IdOffset) -> (r: NodeId) {
        NodeId(self.0 + rhs.0 as u128)
    }
}

impl AddSpecImpl<IdOffset> for NodeId {
    open spec fn obeys_add_spec() -> bool {
        true
    }

    /// The sum has to be a node id itself.
    open spec fn add_req(self, rhs: IdOffset) -> bool {
        self.0 + rhs.0 <= u128::MAX
    }

    open spec fn add_spec(self, rhs: IdOffset) -> NodeId {
        NodeId((self.0 + rhs.0) as u128)
    }
}

impl core::ops::Sub<NodeId> for NodeId {
    type Output = IdOffset;

    fn sub(self, rhs: NodeId) -> (r: IdOffset) {
        let wide: u128 = self.0 - rhs.0;
        proof {
            low_bits_are_remainder(wide);
        }
        IdOffset((wide & 0xffff_ffff) as u32)
    }
}

impl SubSpecImpl<NodeId> for NodeId {
    open spec fn obeys_sub_spec() -> bool {
        true
    }

    /// Ids are unsigned: only an id that is not larger can be taken away.
    open spec fn sub_req(self, rhs: NodeId) -> bool {
        rhs.0 <= self.0
    }

    /// The distance, cut down to the 32 bits an offset can hold.
    open spec fn sub_spec(self, rhs: NodeId) -> IdOffset {
        IdOffset(((self.0 - rhs.0) % offset_modulus()) as u32)
    }
}

proof fn low_bits_are_remainder(wide: u128)
    ensures
        (wide & 0xffff_ffff) == wide % 0x1_0000_0000,
        (wide & 0xffff_ffff) <= u32::MAX,
{
    assert((wide & 0xffff_ffff) == wide % 0x1_0000_0000) by (bit_vector);
    assert((wide & 0xffff_ffff) <= 0xffff_ffff) by (bit_vector);
}

/// A value that knows the id of the node it stands for.
///
/// Some node representations do not implement this because their id follows
/// from context, such as the key under which they are stored.
pub trait HasId {
    /// Whether the id can be computed without leaving the id space.
    spec fn has_id(&self) -> bool;

    /// The id of the node.
    spec fn id(&self) -> NodeId;

    fn get_id(&self) -> (r: NodeId)
        requires
            self.has_id(),
        ensures
            r == self.id(),
    ;
}

} // verus!
