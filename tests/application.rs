use anonify::application::{AppKeyChain, KeyChainError};

#[test]
fn generations_increase_per_sender() {
    let mut c = AppKeyChain::new(vec![7; 32], 3);
    assert_eq!(c.num_senders(), 3);
    assert_eq!(c.application_secret(), &vec![7u8; 32]);
    assert_eq!(c.next(0), Ok(0));
    assert_eq!(c.next(0), Ok(1));
    assert_eq!(c.next(2), Ok(0));
    assert_eq!(c.next(0), Ok(2));
    assert_eq!(c.next(2), Ok(1));
    assert_eq!(c.next(1), Ok(0));
}

#[test]
fn unknown_sender_is_rejected() {
    let mut c = AppKeyChain::new(vec![], 2);
    assert_eq!(c.next(2), Err(KeyChainError::UnknownSender));
    assert_eq!(c.next(0), Ok(0));
}
