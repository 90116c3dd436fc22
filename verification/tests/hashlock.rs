use atomicswap::erc20_async::{AtomicSwap, Contract};
use atomicswap::ledger::Ledgers;
use atomicswap::{Field, SwapError, SwapState};
use blake2::Digest;

fn digest(data: &[u8]) -> Vec<u8> {
    blake2::Blake2b256::digest(data).to_vec()
}

/// A funded ledger "L" where the sender has 200 tokens and has authorized
/// the contract for them, and a contract holding swap "h1" locked under
/// H("pw"), started at t=0 with a 600 s window.
fn h1_setup() -> (Contract, Ledgers) {
    let mut ledgers = Ledgers::new();
    ledgers.mint(&b"L".to_vec(), &b"sender".to_vec(), 200).unwrap();
    ledgers.approve(&b"L".to_vec(), &b"sender".to_vec(), &b"swapsc".to_vec(), 200);
    let mut c = Contract::new(b"swapsc".to_vec());
    let r = c.func_start_swap(
        &mut ledgers,
        &b"sender".to_vec(),
        0,
        Some(&b"h1".to_vec()),
        &digest(b"pw"),
        Some(&b"L".to_vec()),
        Some(200),
        Some(&b"R".to_vec()),
        600,
    );
    assert!(r.is_ok());
    (c, ledgers)
}

#[test]
fn hashlock_start_pulls_escrow() {
    let (_c, ledgers) = h1_setup();
    assert_eq!(ledgers.balance(&b"L".to_vec(), &b"sender".to_vec()), 0);
    assert_eq!(ledgers.balance(&b"L".to_vec(), &b"swapsc".to_vec()), 200);
    // the allowance was consumed by the pull
    assert_eq!(
        ledgers.allowance(&b"L".to_vec(), &b"sender".to_vec(), &b"swapsc".to_vec()),
        0
    );
}

#[test]
fn hashlock_happy_path() {
    let (mut c, mut ledgers) = h1_setup();
    // a wrong secret is rejected before anything moves
    let r = c.func_finalize_swap(&mut ledgers, 10, Some(&b"h1".to_vec()), &b"wrong".to_vec());
    assert_eq!(r.unwrap_err(), SwapError::WrongSecret);
    // the secret is not readable before a successful finalize
    let r = c.view_get_secret_by_swap_id(Some(&b"h1".to_vec()));
    assert_eq!(r.unwrap_err(), SwapError::SecretUnavailable);
    // the right secret inside the window releases the escrow to R
    let r = c.func_finalize_swap(&mut ledgers, 10, Some(&b"h1".to_vec()), &b"pw".to_vec());
    assert!(r.is_ok());
    assert_eq!(ledgers.balance(&b"L".to_vec(), &b"R".to_vec()), 200);
    assert_eq!(ledgers.balance(&b"L".to_vec(), &b"swapsc".to_vec()), 0);
    // the revealed secret is now readable by anyone
    let s = c.view_get_secret_by_swap_id(Some(&b"h1".to_vec())).unwrap();
    assert_eq!(s, b"pw".to_vec());
    // and settlement happened exactly once
    let r = c.func_finalize_swap(&mut ledgers, 11, Some(&b"h1".to_vec()), &b"pw".to_vec());
    assert_eq!(r.unwrap_err(), SwapError::AlreadyFinished);
}

#[test]
fn hashlock_timeout_cancel() {
    let (mut c, mut ledgers) = h1_setup();
    // inside the window the sender must wait
    let r = c.func_cancel_swap(&mut ledgers, &b"sender".to_vec(), 10, Some(&b"h1".to_vec()));
    assert_eq!(r.unwrap_err(), SwapError::StillOpen);
    // after expiry only the sender may reclaim
    let r = c.func_cancel_swap(&mut ledgers, &b"R".to_vec(), 601, Some(&b"h1".to_vec()));
    assert_eq!(r.unwrap_err(), SwapError::NotSender);
    let r = c.func_cancel_swap(&mut ledgers, &b"sender".to_vec(), 601, Some(&b"h1".to_vec()));
    assert!(r.is_ok());
    assert_eq!(ledgers.balance(&b"L".to_vec(), &b"sender".to_vec()), 200);
    assert_eq!(ledgers.balance(&b"L".to_vec(), &b"swapsc".to_vec()), 0);
    let r = c.func_cancel_swap(&mut ledgers, &b"sender".to_vec(), 602, Some(&b"h1".to_vec()));
    assert_eq!(r.unwrap_err(), SwapError::AlreadyFinished);
    // nor can a cancelled swap still be finalized with the right secret
    let r = c.func_finalize_swap(&mut ledgers, 602, Some(&b"h1".to_vec()), &b"pw".to_vec());
    assert_eq!(r.unwrap_err(), SwapError::AlreadyFinished);
}

#[test]
fn hashlock_finalize_after_expiry_rejected() {
    let (mut c, mut ledgers) = h1_setup();
    let r = c.func_finalize_swap(&mut ledgers, 601, Some(&b"h1".to_vec()), &b"pw".to_vec());
    assert_eq!(r.unwrap_err(), SwapError::NoLongerOpen);
    // exactly at the boundary the window is still live
    let r = c.func_finalize_swap(&mut ledgers, 600, Some(&b"h1".to_vec()), &b"pw".to_vec());
    assert!(r.is_ok());
}

#[test]
fn hashlock_start_requires_allowance() {
    let mut ledgers = Ledgers::new();
    ledgers.mint(&b"L".to_vec(), &b"sender".to_vec(), 200).unwrap();
    let mut c = Contract::new(b"swapsc".to_vec());
    // no approval given
    let r = c.func_start_swap(
        &mut ledgers,
        &b"sender".to_vec(),
        0,
        Some(&b"h1".to_vec()),
        &digest(b"pw"),
        Some(&b"L".to_vec()),
        Some(200),
        Some(&b"R".to_vec()),
        600,
    );
    assert_eq!(r.unwrap_err(), SwapError::InsufficientAllowance);
    // approval without balance is not enough either
    ledgers.approve(&b"L".to_vec(), &b"poor".to_vec(), &b"swapsc".to_vec(), 500);
    let r = c.func_start_swap(
        &mut ledgers,
        &b"poor".to_vec(),
        0,
        Some(&b"h2".to_vec()),
        &digest(b"pw"),
        Some(&b"L".to_vec()),
        Some(500),
        Some(&b"R".to_vec()),
        600,
    );
    assert_eq!(r.unwrap_err(), SwapError::InsufficientBalance);
}

#[test]
fn hashlock_start_validation_errors() {
    let mut ledgers = Ledgers::new();
    let mut c = Contract::new(b"swapsc".to_vec());
    let r = c.func_start_swap(
        &mut ledgers,
        &b"sender".to_vec(),
        0,
        Some(&b"h1".to_vec()),
        &digest(b"pw"),
        Some(&b"L".to_vec()),
        None,
        Some(&b"R".to_vec()),
        600,
    );
    assert_eq!(r.unwrap_err(), SwapError::Missing(Field::AmountSender));
    let r = c.func_start_swap(
        &mut ledgers,
        &b"sender".to_vec(),
        0,
        Some(&b"h1".to_vec()),
        &digest(b"pw"),
        None,
        Some(200),
        Some(&b"R".to_vec()),
        600,
    );
    assert_eq!(r.unwrap_err(), SwapError::Missing(Field::ScNameSender));
    let r = c.func_start_swap(
        &mut ledgers,
        &b"sender".to_vec(),
        0,
        Some(&b"h1".to_vec()),
        &digest(b"pw"),
        Some(&b"L".to_vec()),
        Some(200),
        None,
        600,
    );
    assert_eq!(r.unwrap_err(), SwapError::Missing(Field::AgentIdRecipient));
}

#[test]
fn hashlock_record_stores_secret_verbatim() {
    let (mut c, mut ledgers) = h1_setup();
    c.func_finalize_swap(&mut ledgers, 10, Some(&b"h1".to_vec()), &b"pw".to_vec())
        .unwrap();
    let bytes = c.view_get_swap_by_id(Some(&b"h1".to_vec())).unwrap();
    let rec = AtomicSwap::from_bytes(&bytes).unwrap();
    assert_eq!(rec.key_secret, b"pw".to_vec());
    assert_eq!(rec.key_hash, digest(b"pw"));
    assert_eq!(rec.state, SwapState::Finalized);
    assert_eq!(rec.amount_sender, 200);
}

#[test]
fn hashlock_codec_round_trip() {
    let rec = AtomicSwap {
        key_hash: digest(b"abc"),
        key_secret: vec![],
        erc20_sc_name_sender: b"ledger".to_vec(),
        amount_sender: 7,
        agent_id_sender: b"s".to_vec(),
        agent_id_recipient: b"r".to_vec(),
        duration_open: 0,
        when_started: u64::MAX,
        state: SwapState::Open,
    };
    let bytes = rec.to_bytes();
    let back = AtomicSwap::from_bytes(&bytes).unwrap();
    assert_eq!(back.key_hash, rec.key_hash);
    assert_eq!(back.key_secret, rec.key_secret);
    assert_eq!(back.erc20_sc_name_sender, rec.erc20_sc_name_sender);
    assert_eq!(back.amount_sender, rec.amount_sender);
    assert_eq!(back.agent_id_sender, rec.agent_id_sender);
    assert_eq!(back.agent_id_recipient, rec.agent_id_recipient);
    assert_eq!(back.duration_open, rec.duration_open);
    assert_eq!(back.when_started, rec.when_started);
    assert_eq!(back.state, rec.state);
}

#[test]
fn hashlock_view_errors() {
    let (c, _ledgers) = h1_setup();
    let r = c.view_get_secret_by_swap_id(None);
    assert_eq!(r.unwrap_err(), SwapError::Missing(Field::SwapId));
    let r = c.view_get_secret_by_swap_id(Some(&b"zz".to_vec()));
    assert_eq!(r.unwrap_err(), SwapError::NotFound);
    let r = c.view_get_swap_by_id(Some(&b"zz".to_vec()));
    assert_eq!(r.unwrap_err(), SwapError::NotFound);
}

#[test]
fn hashlock_digest_is_real() {
    // the commitment is a 32-byte one-way digest, not the input itself
    let d = digest(b"pw");
    assert_eq!(d.len(), 32);
    assert_ne!(d, b"pw".to_vec());
    assert_ne!(digest(b"pw"), digest(b"pW"));
}
