use vstd::prelude::*;

verus! {

/// Errors surfaced by the registry and the batch pool.
#[derive(Clone, Copy, Debug, PartialEq, Eq, Structural)]
pub enum Error {
    /// A table probe visited every slot without finding room: an invariant
    /// violation under the registry's growth policy, never an expected
    /// runtime condition.
    NoSpace,
    /// The pending queue had nothing to hand out; the caller polls again.
    WouldBlock,
}

} // verus!
