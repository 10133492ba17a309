use anonify::types::{
    EnclaveState, EnclaveStatus, RawHandshakeTx, RawJoinGroupTx, RawPointer, RawUpdatedState,
    ResultStatus, UntrustedStatus,
};

#[test]
fn enclave_status_codes() {
    assert_eq!(EnclaveStatus::success(), EnclaveStatus(0));
    assert_eq!(EnclaveStatus::error(), EnclaveStatus(1));
    assert_eq!(EnclaveStatus::default(), EnclaveStatus(0));
    assert!(!EnclaveStatus::success().is_err());
    assert!(EnclaveStatus::error().is_err());
    assert!(EnclaveStatus(7).is_err());
}

#[test]
fn untrusted_status_codes() {
    assert_eq!(UntrustedStatus::success(), UntrustedStatus(0));
    assert_eq!(UntrustedStatus::error(), UntrustedStatus(1));
    assert_eq!(UntrustedStatus::default(), UntrustedStatus(0));
    assert!(!UntrustedStatus::success().is_err());
    assert!(UntrustedStatus(42).is_err());
}

#[test]
fn result_status_from_bool() {
    assert_eq!(ResultStatus::from(true), ResultStatus::Success);
    assert_eq!(ResultStatus::from(false), ResultStatus::Failure);
}

#[test]
fn enclave_state_bytes() {
    let s = EnclaveState(vec![1, 2, 3]);
    assert_eq!(s.as_bytes(), vec![1, 2, 3]);
    assert_eq!(s.into_vec(), vec![1, 2, 3]);
    assert!(EnclaveState::default().into_vec().is_empty());
}

#[test]
fn bridged_defaults_are_empty() {
    let j = RawJoinGroupTx::default();
    assert!(j.report.is_empty() && j.report_sig.is_empty() && j.handshake.is_empty());
    assert!(RawHandshakeTx::default().handshake.is_empty());
    let u = RawUpdatedState::default();
    assert_eq!(u.address, [0u8; 20]);
    assert_eq!(u.mem_id, 0);
    assert!(u.state.is_empty());
}

#[test]
fn raw_pointer_mutability() {
    let p = RawPointer::new(vec![9, 8]);
    assert_eq!(p.get_ptr(), &[9u8, 8][..]);
    let mut p = p;
    assert_eq!(p.get_mut_ptr().err(), Some("This DoublePointer is not mutable"));
    let mut q = RawPointer::new_mut(vec![1]);
    q.get_mut_ptr().unwrap().push(2);
    assert_eq!(q.get_ptr(), &[1u8, 2][..]);
}
