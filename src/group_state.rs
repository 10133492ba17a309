//! The group state machine: roster, tree, epoch and transcript hash, advanced
//! one handshake at a time.
use vstd::prelude::*;
use crate::tree_math::{MAX_LEAVES, tree_depth};
use crate::ratchet_tree::{
    NodeData,
    RatchetTree,
    blanked,
    merged,
    on_path,
    with_unmerged,
    holds_key_for,
    recipient_resolution,
    TreeError,
};
use crate::handshake::{Credential, Handshake, HandshakeBody, bytes_equal};

verus! {

/// Why a handshake was rejected.
#[derive(Debug, PartialEq, Eq, Structural)]
pub enum GroupError {
    /// The signer is not an occupied leaf of the roster.
    UnknownSigner,
    /// The signature over the handshake does not verify.
    BadSignature,
    /// The handshake does not build on the current transcript hash.
    StaleTranscript,
    /// An Add of an identity already in the roster.
    DuplicateMember,
    /// A Remove of a leaf that is not occupied.
    UnknownLeaf,
    /// An Update whose direct path length differs from the tree's depth.
    PathLengthMismatch,
    /// An Add to a tree at its leaf bound.
    TreeFull,
    /// An Update by another member with no entry this member can decrypt.
    CannotDecrypt,
}

/// One epoch of a group.
pub struct GroupState {
    /// One entry per leaf, `None` once the member is removed.
    pub roster: Vec<Option<Credential>>,
    pub tree: RatchetTree,
    pub epoch: u64,
    /// The leaf of the member holding this state.
    pub own_leaf: usize,
    pub transcript_hash: Vec<u8>,
    pub epoch_secret: Vec<u8>,
}

impl GroupState {
    pub open spec fn wf(&self) -> bool {
        self.tree.wf() && self.roster@.len() == self.tree.num_leaves
    }

    /// Some occupied leaf holds `identity`.
    pub open spec fn has_identity(&self, identity: Seq<u8>) -> bool {
        exists|i: int|
            0 <= i < self.roster@.len() && (#[trigger] self.roster@[i]) is Some
                && self.roster@[i]->Some_0.identity@ == identity
    }

    /// This member holds a private key for a node in the resolution that an
    /// Update by `sender` is encrypted to for it.
    pub open spec fn can_decrypt(&self, sender: nat) -> bool {
        let res = recipient_resolution(self.tree.nodes@, sender, self.own_leaf as nat, self.tree.depth());
        &&& self.own_leaf < self.tree.num_leaves
        &&& exists|t: int|
            0 <= t < res.len() && holds_key_for(
                self.tree.nodes@,
                self.own_leaf as nat,
                #[trigger] recipient_resolution(
                    self.tree.nodes@,
                    sender,
                    self.own_leaf as nat,
                    self.tree.depth(),
                )[t],
            )
    }

    pub open spec fn occupied(&self, leaf: nat) -> bool {
        leaf < self.roster@.len() && self.roster@[leaf as int] is Some
    }

    /// The error `hs` is rejected with, or `None` when it is accepted.
    pub open spec fn rejection(&self, hs: Handshake, signature_valid: bool) -> Option<GroupError> {
        if !self.occupied(hs.signer as nat) {
            Some(GroupError::UnknownSigner)
        } else if !signature_valid {
            Some(GroupError::BadSignature)
        } else if hs.prior_transcript_hash@ != self.transcript_hash@ {
            Some(GroupError::StaleTranscript)
        } else {
            match hs.body {
                HandshakeBody::Add { credential, init_public_key } => {
                    if self.has_identity(credential.identity@) {
                        Some(GroupError::DuplicateMember)
                    } else if self.tree.num_leaves >= MAX_LEAVES {
                        Some(GroupError::TreeFull)
                    } else {
                        None
                    }
                },
                HandshakeBody::Update { leaf_node, direct_path } => {
                    if direct_path@.len() != self.tree.depth() {
                        Some(GroupError::PathLengthMismatch)
                    } else if hs.signer != self.own_leaf && !self.can_decrypt(hs.signer as nat) {
                        Some(GroupError::CannotDecrypt)
                    } else {
                        None
                    }
                },
                HandshakeBody::Remove { leaf_index } => {
                    if !self.occupied(leaf_index as nat) {
                        Some(GroupError::UnknownLeaf)
                    } else {
                        None
                    }
                },
            }
        }
    }

    /// What accepting `hs` does to the roster and the tree.
    pub open spec fn applied(&self, next: &GroupState, hs: Handshake) -> bool {
        match hs.body {
            HandshakeBody::Add { credential, init_public_key } => {
                let n = self.tree.num_leaves;
                &&& next.roster@ == self.roster@.push(Some(credential))
                &&& next.tree.num_leaves == n + 1
                &&& next.tree.nodes@[2 * n] is Some
                &&& next.tree.nodes@[2 * n]->Some_0.public_key == init_public_key
                &&& next.tree.nodes@[2 * n]->Some_0.private_key is None
                &&& next.tree.nodes@[2 * n]->Some_0.unmerged_leaves@.len() == 0
                &&& forall|x: nat|
                    x < next.tree.nodes@.len() && !on_path(n as nat, x, 0, next.tree.depth())
                        ==> #[trigger] next.tree.nodes@[x as int] == if x < self.tree.nodes@.len() {
                        self.tree.nodes@[x as int]
                    } else {
                        None
                    }
                &&& forall|x: nat|
                    x < next.tree.nodes@.len() && on_path(n as nat, x, 1, next.tree.depth())
                        ==> with_unmerged(
                        if x < self.tree.nodes@.len() {
                            self.tree.nodes@[x as int]
                        } else {
                            None
                        },
                        #[trigger] next.tree.nodes@[x as int],
                        n,
                    )
                &&& forall|x: nat|
                    x < self.tree.nodes@.len() && (#[trigger] self.tree.nodes@[x as int]) is Some
                        ==> next.tree.nodes@[x as int] is Some
                        && next.tree.nodes@[x as int]->Some_0.public_key
                        == self.tree.nodes@[x as int]->Some_0.public_key
                        && next.tree.nodes@[x as int]->Some_0.private_key
                        == self.tree.nodes@[x as int]->Some_0.private_key
            },
            HandshakeBody::Update { leaf_node, direct_path } => {
                &&& next.roster@ == self.roster@
                &&& next.tree.num_leaves == self.tree.num_leaves
                &&& next.tree.nodes@ == merged(
                    self.tree.nodes@,
                    hs.signer as nat,
                    leaf_node,
                    direct_path@,
                    self.tree.depth(),
                )
            },
            HandshakeBody::Remove { leaf_index } => {
                &&& next.roster@ == self.roster@.update(leaf_index as int, None)
                &&& next.tree.num_leaves == self.tree.num_leaves
                &&& next.tree.nodes@ == blanked(
                    self.tree.nodes@,
                    leaf_index as nat,
                    self.tree.depth(),
                )
            },
        }
    }

    /// A group of one: the founder at leaf 0, held here, epoch 0.
    pub fn new(
        founder: Credential,
        founder_leaf: NodeData,
        transcript_hash: Vec<u8>,
        epoch_secret: Vec<u8>,
    ) -> (r: Self)
        ensures
            r.wf(),
            r.epoch == 0,
            r.own_leaf == 0,
            r.roster@ == seq![Some(founder)],
            r.tree.nodes@ == seq![Some(founder_leaf)],
            r.transcript_hash@ == transcript_hash@,
            r.epoch_secret@ == epoch_secret@,
    {
        let mut roster: Vec<Option<Credential>> = Vec::new();
        roster.push(Some(founder));
        let tree = RatchetTree::new(founder_leaf);
        GroupState { roster, tree, epoch: 0, own_leaf: 0, transcript_hash, epoch_secret }
    }

    /// Whether some occupied leaf holds `identity`.
    pub fn contains_identity(&self, identity: &Vec<u8>) -> (r: bool)
        ensures
            r == self.has_identity(identity@),
    {
        let mut i: usize = 0;
        while i < self.roster.len()
            invariant
                i <= self.roster@.len(),
                forall|k: int|
                    0 <= k < i && (#[trigger] self.roster@[k]) is Some ==> self.roster@[k]->Some_0.identity@
                        != identity@,
            decreases self.roster@.len() - i,
        {
            match &self.roster[i] {
                Some(c) => {
                    if bytes_equal(&c.identity, identity) {
                        return true;
                    }
                },
                None => {},
            }
            i = i + 1;
        }
        false
    }

    fn is_occupied(&self, leaf: usize) -> (r: bool)
        ensures
            r == self.occupied(leaf as nat),
    {
        leaf < self.roster.len() && self.roster[leaf].is_some()
    }

    /// Applies handshake `hs`, moving to the next epoch. `signature_valid` is
    /// the outcome of checking the signer's signature over the handshake;
    /// an Update by another member is accepted only where this member can
    /// decrypt an entry of its path;
    /// `next_transcript_hash` and `next_epoch_secret` are the transcript hash
    /// extended by `hs` and the next epoch secret. On an error the state is
    /// left as it was.
    pub fn apply(
        &mut self,
        hs: Handshake,
        signature_valid: bool,
        next_transcript_hash: Vec<u8>,
        next_epoch_secret: Vec<u8>,
    ) -> (r: Result<(), GroupError>)
        requires
            old(self).wf(),
            old(self).epoch < u64::MAX,
        ensures
            final(self).wf(),
            r is Err <==> old(self).rejection(hs, signature_valid) is Some,
            r is Err ==> r->Err_0 == old(self).rejection(hs, signature_valid)->Some_0,
            r is Err ==> *final(self) == *old(self),
            r is Ok ==> final(self).epoch == old(self).epoch + 1,
            r is Ok ==> final(self).transcript_hash@ == next_transcript_hash@,
            r is Ok ==> final(self).epoch_secret@ == next_epoch_secret@,
            r is Ok ==> old(self).applied(&*final(self), hs),
    {
        if !self.is_occupied(hs.signer) {
            return Err(GroupError::UnknownSigner);
        }
        if !signature_valid {
            return Err(GroupError::BadSignature);
        }
        if !bytes_equal(&hs.prior_transcript_hash, &self.transcript_hash) {
            return Err(GroupError::StaleTranscript);
        }
        let ghost hs0 = hs;
        let signer = hs.signer;
        match hs.body {
            HandshakeBody::Add { credential, init_public_key } => {
                if self.contains_identity(&credential.identity) {
                    return Err(GroupError::DuplicateMember);
                }
                if self.tree.num_leaves >= MAX_LEAVES {
                    return Err(GroupError::TreeFull);
                }
                let leaf = NodeData {
                    public_key: init_public_key,
                    private_key: None,
                    unmerged_leaves: Vec::new(),
                };
                let added = self.tree.add_leaf(leaf);
                assert(added is Ok);
                self.roster.push(Some(credential));
            },
            HandshakeBody::Update { leaf_node, direct_path } => {
                let d = tree_depth(self.tree.num_leaves);
                if direct_path.len() != d as usize {
                    return Err(GroupError::PathLengthMismatch);
                }
                if signer != self.own_leaf {
                    match self.tree.decryption_target(signer, self.own_leaf) {
                        Ok(_) => {},
                        Err(e) => {
                            proof {
                                if self.own_leaf < self.tree.num_leaves {
                                    assert(e == TreeError::CannotDecrypt);
                                }
                            }
                            return Err(GroupError::CannotDecrypt);
                        },
                    }
                }
                match self.tree.merge_path(signer, leaf_node, direct_path) {
                    Ok(()) => {},
                    Err(_) => {
                        return Err(GroupError::PathLengthMismatch);
                    },
                }
            },
            HandshakeBody::Remove { leaf_index } => {
                if !self.is_occupied(leaf_index) {
                    return Err(GroupError::UnknownLeaf);
                }
                let blank = self.tree.blank_path(leaf_index);
                assert(blank is Ok);
                self.roster.set(leaf_index, None);
            },
        }
        self.epoch = self.epoch + 1;
        self.transcript_hash = next_transcript_hash;
        self.epoch_secret = next_epoch_secret;
        Ok(())
    }
}

/// Members whose trees and rosters agree before an Update agree on every
/// node of the tree after it.
pub proof fn lemma_update_agreement(
    a: GroupState,
    b: GroupState,
    a_next: GroupState,
    b_next: GroupState,
    hs: Handshake,
)
    requires
        a.tree.nodes@ == b.tree.nodes@,
        a.tree.num_leaves == b.tree.num_leaves,
        a.roster@ == b.roster@,
        hs.body is Update,
        a.applied(&a_next, hs),
        b.applied(&b_next, hs),
    ensures
        a_next.tree.nodes@ == b_next.tree.nodes@,
        a_next.roster@ == b_next.roster@,
{
}

/// An accepted Remove of leaf `l` tombstones its roster slot and blanks the
/// leaf and every node of its direct path, up to the root.
pub proof fn lemma_remove_tombstones(s: GroupState, next: GroupState, hs: Handshake)
    requires
        s.wf(),
        hs.body is Remove,
        s.rejection(hs, true) is None,
        s.applied(&next, hs),
    ensures
        ({
            let l = hs.body->Remove_leaf_index;
            &&& next.roster@.len() == s.roster@.len()
            &&& next.roster@[l as int] is None
            &&& forall|x: nat|
                x < next.tree.nodes@.len() && on_path(l as nat, x, 0, s.tree.depth())
                    ==> (#[trigger] next.tree.nodes@[x as int]) is None
        }),
{
}

} // verus!
