//! Handshake messages that change the group: Add, Update and Remove.
use vstd::prelude::*;
use crate::ratchet_tree::NodeData;

verus! {

/// A member's long-term identity and the key its handshakes are signed with.
pub struct Credential {
    pub identity: Vec<u8>,
    pub verification_key: Vec<u8>,
}

/// What a handshake changes.
pub enum HandshakeBody {
    /// Admits a new member with its initial public key.
    Add { credential: Credential, init_public_key: Vec<u8> },
    /// Refreshes the signer's leaf and its direct path, leaf to root.
    Update { leaf_node: NodeData, direct_path: Vec<NodeData> },
    /// Removes the member at a leaf.
    Remove { leaf_index: usize },
}

/// A signed handshake: the signer's leaf, the transcript hash it builds on,
/// and the change.
pub struct Handshake {
    pub signer: usize,
    pub prior_transcript_hash: Vec<u8>,
    pub body: HandshakeBody,
}

/// Whether two byte strings are equal.
pub fn bytes_equal(a: &Vec<u8>, b: &Vec<u8>) -> (r: bool)
    ensures
        r == (a@ == b@),
{
    if a.len() != b.len() {
        return false;
    }
    let mut i: usize = 0;
    while i < a.len()
        invariant
            i <= a@.len() == b@.len(),
            forall|k: int| 0 <= k < i ==> a@[k] == b@[k],
        decreases a@.len() - i,
    {
        if a[i] != b[i] {
            return false;
        }
        i = i + 1;
    }
    assert(a@ =~= b@);
    true
}

} // verus!
