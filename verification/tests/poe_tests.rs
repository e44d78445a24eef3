use poe_kitties::poe::{Config, Error, Event, Pallet};

const HEIGHT: u64 = 1;

fn new_pallet() -> Pallet {
    Pallet::new(Config { max_claim_length: 4 })
}

#[test]
fn create_claim_works() {
    let mut poe = new_pallet();
    let claim = vec![0, 1];
    assert_eq!(poe.create_claim(1, claim.clone(), HEIGHT), Ok(()));
    assert_eq!(poe.proofs(&claim), Some((1, HEIGHT)));
}

#[test]
fn create_claim_failed_when_claim_already() {
    let mut poe = new_pallet();
    let claim = vec![0, 1];
    let _ = poe.create_claim(1, claim.clone(), HEIGHT);
    assert_eq!(
        poe.create_claim(1, claim.clone(), HEIGHT),
        Err(Error::ProofAlreadyExist)
    );
    assert_eq!(poe.proofs(&claim), Some((1, HEIGHT)));
}

#[test]
fn revoke_claim_works() {
    let mut poe = new_pallet();
    let claim = vec![0, 1];
    let _ = poe.create_claim(1, claim.clone(), HEIGHT);
    assert_eq!(poe.revoke_claim(1, claim.clone()), Ok(()));
    assert_eq!(poe.proofs(&claim), None);
}

#[test]
fn revoke_claim_failed_when_claim_not_exist() {
    let mut poe = new_pallet();
    let claim = vec![0, 1];
    assert_eq!(poe.revoke_claim(1, claim), Err(Error::ClaimNotExist));
}

#[test]
fn revoke_claim_failed_when_is_not_owner() {
    let mut poe = new_pallet();
    let claim = vec![0, 1];
    let _ = poe.create_claim(1, claim.clone(), HEIGHT);
    assert_eq!(poe.revoke_claim(2, claim), Err(Error::NotClaimOwner));
}

#[test]
fn transfer_claim_works() {
    let mut poe = new_pallet();
    let claim = vec![0, 1];
    let _ = poe.create_claim(1, claim.clone(), HEIGHT);
    assert_eq!(poe.transfer_claim(1, claim.clone(), 2, HEIGHT), Ok(()));
    assert_eq!(poe.proofs(&claim), Some((2, HEIGHT)));
    assert_eq!(poe.revoke_claim(1, claim), Err(Error::NotClaimOwner));
}

#[test]
fn transfer_claim_failed_when_claim_no_exist() {
    let mut poe = new_pallet();
    let claim = vec![0, 1];
    let _ = poe.create_claim(1, claim, HEIGHT);
    let claim_temp = vec![2, 3];
    assert_eq!(
        poe.transfer_claim(1, claim_temp, 2, HEIGHT),
        Err(Error::ClaimNotExist)
    );
}

#[test]
fn transfer_claim_failed_not_owner() {
    let mut poe = new_pallet();
    let claim = vec![0, 1];
    let _ = poe.create_claim(1, claim.clone(), HEIGHT);
    assert_eq!(
        poe.transfer_claim(2, claim, 3, HEIGHT),
        Err(Error::NotClaimOwner)
    );
}

#[test]
fn claim_too_long() {
    let mut poe = new_pallet();
    let claim = vec![1; 5];
    assert_eq!(poe.create_claim(1, claim, HEIGHT), Err(Error::ClaimTooLong));
}

#[test]
fn claim_too_long_independent_of_content() {
    let mut poe = new_pallet();
    assert_eq!(
        poe.create_claim(1, vec![9, 8, 7, 6, 5], HEIGHT),
        Err(Error::ClaimTooLong)
    );
    assert_eq!(
        poe.revoke_claim(1, vec![0; 5]),
        Err(Error::ClaimTooLong)
    );
    assert_eq!(
        poe.transfer_claim(1, vec![0; 6], 2, HEIGHT),
        Err(Error::ClaimTooLong)
    );
    // The bound is on the length alone: the same content one byte shorter
    // is accepted.
    assert_eq!(poe.create_claim(1, vec![9, 8, 7, 6], HEIGHT), Ok(()));
}

#[test]
fn revoke_works_after_foreign_attempt() {
    let mut poe = new_pallet();
    let claim = vec![0, 1];
    let _ = poe.create_claim(1, claim.clone(), HEIGHT);
    assert_eq!(poe.revoke_claim(2, claim.clone()), Err(Error::NotClaimOwner));
    assert_eq!(poe.revoke_claim(1, claim.clone()), Ok(()));
    // Once revoked, the fingerprint can be claimed again.
    assert_eq!(poe.create_claim(2, claim.clone(), HEIGHT + 1), Ok(()));
    assert_eq!(poe.proofs(&claim), Some((2, HEIGHT + 1)));
}

#[test]
fn transfer_claim_updates_height() {
    let mut poe = new_pallet();
    let claim = vec![0, 1];
    let _ = poe.create_claim(1, claim.clone(), 3);
    assert_eq!(poe.transfer_claim(1, claim.clone(), 2, 9), Ok(()));
    assert_eq!(poe.proofs(&claim), Some((2, 9)));
}

#[test]
fn claim_events() {
    let mut poe = new_pallet();
    let claim = vec![0, 1];
    let _ = poe.create_claim(1, claim.clone(), HEIGHT);
    let _ = poe.transfer_claim(1, claim.clone(), 2, HEIGHT);
    let _ = poe.revoke_claim(2, claim.clone());
    // The transfer path records no event.
    assert_eq!(
        poe.events().as_slice(),
        &[
            Event::ClaimCreated(1, claim.clone()),
            Event::ClaimRevoked(2, claim.clone()),
        ]
    );
}

#[test]
fn failed_operations_change_nothing() {
    let mut poe = new_pallet();
    let claim = vec![0, 1];
    let _ = poe.create_claim(1, claim.clone(), HEIGHT);
    let _ = poe.create_claim(2, claim.clone(), 9);
    let _ = poe.transfer_claim(2, claim.clone(), 3, 9);
    let _ = poe.revoke_claim(3, claim.clone());
    assert_eq!(poe.proofs(&claim), Some((1, HEIGHT)));
    assert_eq!(poe.events().len(), 1);
}
