use vstd::prelude::*;

verus! {

/// A decoded protocol message. Wire decoding is a collaborator's job; this
/// core only consumes the decoded values.
#[derive(Clone, Copy, Debug, PartialEq, Eq)]
pub enum Message {
    /// A signed message carrying the sender's logical-clock counter.
    Signature { counter: u64 },
    /// A request to register the peer identified by `key`, reachable at the
    /// opaque endpoint `addr`.
    Subscribe { key: [u8; 32], addr: u64 },
    /// Any message kind this core does not act on.
    Noop,
}

impl Default for Message {
    fn default() -> (m: Message)
        ensures
            m == Message::Noop,
    {
        Message::Noop
    }
}

} // verus!
