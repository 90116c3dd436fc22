use atomicswap::erc20_sync::{AtomicSwap, Contract};
use atomicswap::ledger::Ledgers;
use atomicswap::{SwapError, SwapState};

/// Ledger "A" holds the sender's 100 tokens (authorized for the
/// contract); ledger "B" holds the recipient's 50. The contract stores
/// swap "y1" started at t=0 with a 3600 s window, after pulling the
/// sender's 100 into custody.
fn y1_setup() -> (Contract, Ledgers) {
    let mut ledgers = Ledgers::new();
    ledgers.mint(&b"A".to_vec(), &b"alice".to_vec(), 100).unwrap();
    ledgers.mint(&b"B".to_vec(), &b"bob".to_vec(), 50).unwrap();
    ledgers.approve(&b"A".to_vec(), &b"alice".to_vec(), &b"swapsc".to_vec(), 100);
    let mut c = Contract::new(b"swapsc".to_vec());
    let r = c.func_start_swap(
        &mut ledgers,
        &b"alice".to_vec(),
        0,
        Some(&b"y1".to_vec()),
        Some(&b"A".to_vec()),
        Some(&b"B".to_vec()),
        Some(100),
        Some(50),
        Some(&b"bob".to_vec()),
        3600,
    );
    assert!(r.is_ok());
    (c, ledgers)
}

#[test]
fn bilateral_start_pulls_sender_escrow() {
    let (_c, ledgers) = y1_setup();
    assert_eq!(ledgers.balance(&b"A".to_vec(), &b"alice".to_vec()), 0);
    assert_eq!(ledgers.balance(&b"A".to_vec(), &b"swapsc".to_vec()), 100);
    assert_eq!(ledgers.balance(&b"B".to_vec(), &b"bob".to_vec()), 50);
}

#[test]
fn bilateral_settle() {
    let (mut c, mut ledgers) = y1_setup();
    // without the recipient's allowance nothing moves at all
    let r = c.func_finalize_swap(&mut ledgers, 10, Some(&b"y1".to_vec()));
    assert_eq!(r.unwrap_err(), SwapError::InsufficientAllowance);
    assert_eq!(ledgers.balance(&b"B".to_vec(), &b"bob".to_vec()), 50);
    assert_eq!(ledgers.balance(&b"A".to_vec(), &b"swapsc".to_vec()), 100);
    // with it, one invocation settles all legs
    ledgers.approve(&b"B".to_vec(), &b"bob".to_vec(), &b"swapsc".to_vec(), 50);
    let r = c.func_finalize_swap(&mut ledgers, 10, Some(&b"y1".to_vec()));
    assert!(r.is_ok());
    assert_eq!(ledgers.balance(&b"A".to_vec(), &b"bob".to_vec()), 100);
    assert_eq!(ledgers.balance(&b"B".to_vec(), &b"alice".to_vec()), 50);
    assert_eq!(ledgers.balance(&b"A".to_vec(), &b"swapsc".to_vec()), 0);
    assert_eq!(ledgers.balance(&b"B".to_vec(), &b"swapsc".to_vec()), 0);
    assert_eq!(ledgers.balance(&b"B".to_vec(), &b"bob".to_vec()), 0);
    // settlement happens exactly once
    let r = c.func_finalize_swap(&mut ledgers, 11, Some(&b"y1".to_vec()));
    assert_eq!(r.unwrap_err(), SwapError::AlreadyFinished);
}

#[test]
fn bilateral_finalize_window() {
    let (mut c, mut ledgers) = y1_setup();
    ledgers.approve(&b"B".to_vec(), &b"bob".to_vec(), &b"swapsc".to_vec(), 50);
    let r = c.func_finalize_swap(&mut ledgers, 3601, Some(&b"y1".to_vec()));
    assert_eq!(r.unwrap_err(), SwapError::NoLongerOpen);
    let r = c.func_finalize_swap(&mut ledgers, 3600, Some(&b"y1".to_vec()));
    assert!(r.is_ok());
}

#[test]
fn bilateral_cancel_any_time() {
    let (mut c, mut ledgers) = y1_setup();
    // no window restriction in this variant, but only the sender may cancel
    let r = c.func_cancel_swap(&mut ledgers, &b"bob".to_vec(), Some(&b"y1".to_vec()));
    assert_eq!(r.unwrap_err(), SwapError::NotSender);
    let r = c.func_cancel_swap(&mut ledgers, &b"alice".to_vec(), Some(&b"y1".to_vec()));
    assert!(r.is_ok());
    assert_eq!(ledgers.balance(&b"A".to_vec(), &b"alice".to_vec()), 100);
    assert_eq!(ledgers.balance(&b"A".to_vec(), &b"swapsc".to_vec()), 0);
    let r = c.func_cancel_swap(&mut ledgers, &b"alice".to_vec(), Some(&b"y1".to_vec()));
    assert_eq!(r.unwrap_err(), SwapError::AlreadyFinished);
}

#[test]
fn bilateral_same_ledger_both_sides() {
    // both parties keep their tokens on one and the same ledger
    let mut ledgers = Ledgers::new();
    ledgers.mint(&b"L".to_vec(), &b"alice".to_vec(), 100).unwrap();
    ledgers.mint(&b"L".to_vec(), &b"bob".to_vec(), 50).unwrap();
    ledgers.approve(&b"L".to_vec(), &b"alice".to_vec(), &b"swapsc".to_vec(), 100);
    ledgers.approve(&b"L".to_vec(), &b"bob".to_vec(), &b"swapsc".to_vec(), 50);
    let mut c = Contract::new(b"swapsc".to_vec());
    c.func_start_swap(
        &mut ledgers,
        &b"alice".to_vec(),
        0,
        Some(&b"y2".to_vec()),
        Some(&b"L".to_vec()),
        Some(&b"L".to_vec()),
        Some(100),
        Some(50),
        Some(&b"bob".to_vec()),
        3600,
    )
    .unwrap();
    c.func_finalize_swap(&mut ledgers, 1, Some(&b"y2".to_vec())).unwrap();
    assert_eq!(ledgers.balance(&b"L".to_vec(), &b"alice".to_vec()), 50);
    assert_eq!(ledgers.balance(&b"L".to_vec(), &b"bob".to_vec()), 100);
    assert_eq!(ledgers.balance(&b"L".to_vec(), &b"swapsc".to_vec()), 0);
}

#[test]
fn bilateral_view_and_codec() {
    let (c, _ledgers) = y1_setup();
    let bytes = c.view_get_swap_by_id(Some(&b"y1".to_vec())).unwrap();
    let rec = AtomicSwap::from_bytes(&bytes).unwrap();
    assert_eq!(rec.erc20_sc_name_sender, b"A".to_vec());
    assert_eq!(rec.erc20_sc_name_recipient, b"B".to_vec());
    assert_eq!(rec.amount_sender, 100);
    assert_eq!(rec.amount_recipient, 50);
    assert_eq!(rec.agent_id_sender, b"alice".to_vec());
    assert_eq!(rec.agent_id_recipient, b"bob".to_vec());
    assert_eq!(rec.state, SwapState::Open);
    let again = AtomicSwap::from_bytes(&rec.to_bytes()).unwrap();
    assert_eq!(again.agent_id_sender, rec.agent_id_sender);
    assert_eq!(again.to_bytes(), bytes);
}

#[test]
fn bilateral_duplicate_id_rejected() {
    let (mut c, mut ledgers) = y1_setup();
    ledgers.mint(&b"A".to_vec(), &b"carol".to_vec(), 10).unwrap();
    ledgers.approve(&b"A".to_vec(), &b"carol".to_vec(), &b"swapsc".to_vec(), 10);
    let r = c.func_start_swap(
        &mut ledgers,
        &b"carol".to_vec(),
        5,
        Some(&b"y1".to_vec()),
        Some(&b"A".to_vec()),
        Some(&b"B".to_vec()),
        Some(10),
        Some(5),
        Some(&b"bob".to_vec()),
        60,
    );
    assert_eq!(r.unwrap_err(), SwapError::AlreadyExists);
    // no funds moved for the loser
    assert_eq!(ledgers.balance(&b"A".to_vec(), &b"carol".to_vec()), 10);
}

#[test]
fn ledger_overflow_rejected() {
    let mut ledgers = Ledgers::new();
    ledgers.mint(&b"L".to_vec(), &b"rich".to_vec(), u64::MAX).unwrap();
    // minting past the largest representable balance is rejected
    let r = ledgers.mint(&b"L".to_vec(), &b"rich".to_vec(), 1);
    assert_eq!(r.unwrap_err(), SwapError::Overflow);
    // so is a transfer that would push the recipient past it
    ledgers.mint(&b"L".to_vec(), &b"donor".to_vec(), 5).unwrap();
    let r = ledgers.transfer(&b"L".to_vec(), &b"donor".to_vec(), &b"rich".to_vec(), 1);
    assert_eq!(r.unwrap_err(), SwapError::Overflow);
    assert_eq!(ledgers.balance(&b"L".to_vec(), &b"donor".to_vec()), 5);
}

#[test]
fn ledger_conservation_under_transfers() {
    let mut ledgers = Ledgers::new();
    ledgers.mint(&b"L".to_vec(), &b"a".to_vec(), 60).unwrap();
    ledgers.mint(&b"L".to_vec(), &b"b".to_vec(), 40).unwrap();
    ledgers.transfer(&b"L".to_vec(), &b"a".to_vec(), &b"b".to_vec(), 25).unwrap();
    assert_eq!(ledgers.balance(&b"L".to_vec(), &b"a".to_vec()), 35);
    assert_eq!(ledgers.balance(&b"L".to_vec(), &b"b".to_vec()), 65);
    // a transfer that would overdraw is rejected with no effect
    let r = ledgers.transfer(&b"L".to_vec(), &b"a".to_vec(), &b"b".to_vec(), 36);
    assert_eq!(r.unwrap_err(), SwapError::InsufficientBalance);
    assert_eq!(ledgers.balance(&b"L".to_vec(), &b"a".to_vec()), 35);
    assert_eq!(ledgers.balance(&b"L".to_vec(), &b"b".to_vec()), 65);
}
