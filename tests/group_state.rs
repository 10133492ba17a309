use anonify::group_state::{GroupError, GroupState};
use anonify::handshake::{bytes_equal, Credential, Handshake, HandshakeBody};
use anonify::ratchet_tree::{NodeData, RatchetTree};

fn node(key: u8) -> NodeData {
    NodeData { public_key: vec![key], private_key: None, unmerged_leaves: vec![] }
}

fn cred(id: u8) -> Credential {
    Credential { identity: vec![id], verification_key: vec![id, id] }
}

fn founder() -> GroupState {
    GroupState::new(cred(0), node(0), vec![0xa0], vec![0xe0])
}

fn add(id: u8, prior: u8) -> Handshake {
    Handshake {
        signer: 0,
        prior_transcript_hash: vec![prior],
        body: HandshakeBody::Add { credential: cred(id), init_public_key: vec![id] },
    }
}

/// Four members at leaves 0 to 3, every node filled, epoch 0, held by
/// member 0 with the private keys of its leaf and direct path.
fn four_members() -> GroupState {
    let mut tree = RatchetTree::new(node(0));
    for j in 1..4u8 {
        tree.add_leaf(node(j)).unwrap();
    }
    for x in [1usize, 3, 5] {
        tree.nodes[x] = Some(node(100 + x as u8));
    }
    for x in [0usize, 1, 3] {
        tree.nodes[x].as_mut().unwrap().private_key = Some(vec![0xff, x as u8]);
    }
    GroupState {
        roster: (0..4u8).map(|i| Some(cred(i))).collect(),
        tree,
        epoch: 0,
        own_leaf: 0,
        transcript_hash: vec![0xa0],
        epoch_secret: vec![0xe0],
    }
}

#[test]
fn genesis_is_single_member_epoch_zero() {
    let g = founder();
    assert_eq!(g.epoch, 0);
    assert_eq!(g.roster.len(), 1);
    assert_eq!(g.tree.num_leaves, 1);
    assert!(g.contains_identity(&vec![0]));
    assert!(!g.contains_identity(&vec![1]));
}

#[test]
fn add_advances_epoch_and_roster() {
    let mut g = founder();
    assert_eq!(g.apply(add(1, 0xa0), true, vec![0xa1], vec![0xe1]), Ok(()));
    assert_eq!(g.epoch, 1);
    assert_eq!(g.roster.len(), 2);
    assert_eq!(g.tree.num_leaves, 2);
    assert_eq!(g.tree.nodes.len(), 3);
    assert_eq!(g.transcript_hash, vec![0xa1]);
    assert_eq!(g.epoch_secret, vec![0xe1]);
    assert_eq!(g.tree.nodes[2].as_ref().unwrap().public_key, vec![1]);
}

#[test]
fn update_by_member_two_reaches_epoch_one() {
    let mut g = four_members();
    let hs = Handshake {
        signer: 2,
        prior_transcript_hash: vec![0xa0],
        body: HandshakeBody::Update { leaf_node: node(42), direct_path: vec![node(45), node(43)] },
    };
    assert_eq!(g.apply(hs, true, vec![0xa1], vec![0xe1]), Ok(()));
    assert_eq!(g.epoch, 1);
    assert_eq!(g.tree.nodes[4].as_ref().unwrap().public_key, vec![42]);
    assert_eq!(g.tree.nodes[5].as_ref().unwrap().public_key, vec![45]);
    assert_eq!(g.tree.nodes[3].as_ref().unwrap().public_key, vec![43]);
    assert_eq!(g.tree.nodes[1].as_ref().unwrap().public_key, vec![101]);
    assert_eq!(g.tree.nodes[6].as_ref().unwrap().public_key, vec![3]);
}

#[test]
fn remove_tombstones_roster_and_blanks_path() {
    let mut g = four_members();
    let hs = Handshake {
        signer: 0,
        prior_transcript_hash: vec![0xa0],
        body: HandshakeBody::Remove { leaf_index: 3 },
    };
    assert_eq!(g.apply(hs, true, vec![0xa1], vec![0xe1]), Ok(()));
    assert!(g.roster[3].is_none());
    assert_eq!(g.roster.len(), 4);
    assert!(g.tree.nodes[6].is_none() && g.tree.nodes[5].is_none() && g.tree.nodes[3].is_none());
    assert!(g.tree.nodes[4].is_some() && g.tree.nodes[1].is_some());
}

#[test]
fn rejections_leave_state_unchanged() {
    let mut g = four_members();
    let bad_signer = Handshake {
        signer: 9,
        prior_transcript_hash: vec![0xa0],
        body: HandshakeBody::Remove { leaf_index: 1 },
    };
    assert_eq!(g.apply(bad_signer, true, vec![1], vec![1]), Err(GroupError::UnknownSigner));
    assert_eq!(g.apply(add(7, 0xa0), false, vec![1], vec![1]), Err(GroupError::BadSignature));
    assert_eq!(g.apply(add(7, 0x55), true, vec![1], vec![1]), Err(GroupError::StaleTranscript));
    assert_eq!(g.apply(add(2, 0xa0), true, vec![1], vec![1]), Err(GroupError::DuplicateMember));
    let short = Handshake {
        signer: 1,
        prior_transcript_hash: vec![0xa0],
        body: HandshakeBody::Update { leaf_node: node(1), direct_path: vec![node(2)] },
    };
    assert_eq!(g.apply(short, true, vec![1], vec![1]), Err(GroupError::PathLengthMismatch));
    let unknown = Handshake {
        signer: 0,
        prior_transcript_hash: vec![0xa0],
        body: HandshakeBody::Remove { leaf_index: 4 },
    };
    assert_eq!(g.apply(unknown, true, vec![1], vec![1]), Err(GroupError::UnknownLeaf));
    assert_eq!(g.epoch, 0);
    assert_eq!(g.transcript_hash, vec![0xa0]);
    assert_eq!(g.roster.len(), 4);
}

#[test]
fn removed_member_cannot_sign_and_is_not_removed_twice() {
    let mut g = four_members();
    let rm = |leaf: usize, prior: u8| Handshake {
        signer: 0,
        prior_transcript_hash: vec![prior],
        body: HandshakeBody::Remove { leaf_index: leaf },
    };
    assert_eq!(g.apply(rm(1, 0xa0), true, vec![0xa1], vec![1]), Ok(()));
    assert_eq!(g.apply(rm(1, 0xa1), true, vec![0xa2], vec![2]), Err(GroupError::UnknownLeaf));
    let by_removed = Handshake {
        signer: 1,
        prior_transcript_hash: vec![0xa1],
        body: HandshakeBody::Remove { leaf_index: 2 },
    };
    assert_eq!(g.apply(by_removed, true, vec![0xa2], vec![2]), Err(GroupError::UnknownSigner));
}

#[test]
fn fifth_member_doubles_tree() {
    let mut g = four_members();
    assert_eq!(g.apply(add(4, 0xa0), true, vec![0xa1], vec![0xe1]), Ok(()));
    assert_eq!(g.tree.nodes.len(), 15);
    assert_eq!(g.tree.nodes[3].as_ref().unwrap().public_key, vec![103]);
    assert_eq!(g.tree.nodes[8].as_ref().unwrap().public_key, vec![4]);
}

#[test]
fn byte_equality() {
    assert!(bytes_equal(&vec![1, 2], &vec![1, 2]));
    assert!(!bytes_equal(&vec![1, 2], &vec![1, 3]));
    assert!(!bytes_equal(&vec![1], &vec![1, 2]));
}

#[test]
fn update_that_cannot_be_decrypted_is_rejected() {
    let mut g = four_members();
    for x in [0usize, 1, 3] {
        g.tree.nodes[x].as_mut().unwrap().private_key = None;
    }
    let hs = |signer: usize| Handshake {
        signer,
        prior_transcript_hash: vec![0xa0],
        body: HandshakeBody::Update { leaf_node: node(42), direct_path: vec![node(45), node(43)] },
    };
    assert_eq!(g.apply(hs(2), true, vec![0xa1], vec![0xe1]), Err(GroupError::CannotDecrypt));
    assert_eq!(g.epoch, 0);
    assert_eq!(g.tree.nodes[3].as_ref().unwrap().public_key, vec![103]);
    assert_eq!(g.apply(hs(0), true, vec![0xa1], vec![0xe1]), Ok(()));
    assert_eq!(g.epoch, 1);
}
