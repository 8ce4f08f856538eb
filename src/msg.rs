use vstd::prelude::*;

use crate::hash::Hash32;

verus! {

/// A replica's index among the `n` replicas.
pub type Replica = usize;

/// One erasure-coded fragment: its position among the `n` fragments and its bytes.
pub struct Share {
    pub number: usize,
    pub data: Vec<u8>,
}

impl Share {
    /// A copy of the fragment.
    pub fn copy(&self) -> (r: Share)
        ensures
            r.number == self.number,
            r.data@ == self.data@,
    {
        Share { number: self.number, data: self.data.clone() }
    }
}

/// The origin's dissemination message: the recipient's fragment and the hashes
/// of all `n` fragments.
pub struct SendMsg {
    pub id: u64,
    pub d_j: Share,
    pub d_hashes: Vec<Hash32>,
    pub origin: Replica,
}

/// A replica's echo: its own fragment, the fragment's authentication path and
/// the commitment it belongs to.
pub struct EchoMsg {
    pub id: u64,
    pub d_i: Share,
    pub pi_i: Vec<Hash32>,
    pub c: Hash32,
    pub origin: Replica,
}

/// A replica's vote that commitment `c` is agreed upon.
pub struct ReadyMsg {
    pub id: u64,
    pub c: Hash32,
    pub pi_i: Vec<Hash32>,
    pub origin: Replica,
}

/// A protocol message together with the replica that relayed it.
pub enum ProtMsg {
    Init(SendMsg, Replica),
    Echo(EchoMsg, Replica),
    Ready(ReadyMsg, Replica),
}

} // verus!
