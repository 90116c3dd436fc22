use atomicswap::colored_tokens::{AtomicSwap, Contract};
use atomicswap::{Field, SwapError, SwapState};

fn start_s1(c: &mut Contract) {
    let incoming = vec![(b"colorA".to_vec(), 100u64)];
    let r = c.func_start_swap(
        &b"addrA".to_vec(),
        0,
        &incoming,
        Some(&b"s1".to_vec()),
        Some(&b"colorA".to_vec()),
        Some(100),
        Some(&b"colorB".to_vec()),
        Some(50),
        Some(&b"addrB".to_vec()),
        3600,
    );
    assert!(r.is_ok());
}

#[test]
fn direct_settle() {
    let mut c = Contract::new();
    start_s1(&mut c);
    let incoming_b = vec![(b"colorB".to_vec(), 50u64)];
    let r = c.func_finalize_swap(&b"addrB".to_vec(), 1000, &incoming_b, Some(&b"s1".to_vec()));
    let (to_recipient, to_sender) = r.unwrap();
    assert_eq!(to_recipient.address, b"addrB".to_vec());
    assert_eq!(to_recipient.color, b"colorA".to_vec());
    assert_eq!(to_recipient.amount, 100);
    assert_eq!(to_sender.address, b"addrA".to_vec());
    assert_eq!(to_sender.color, b"colorB".to_vec());
    assert_eq!(to_sender.amount, 50);
    let again = c.func_finalize_swap(&b"addrB".to_vec(), 1000, &incoming_b, Some(&b"s1".to_vec()));
    assert_eq!(again.unwrap_err(), SwapError::AlreadyFinished);
}

#[test]
fn direct_cancel_any_time() {
    let mut c = Contract::new();
    start_s1(&mut c);
    // far beyond the window: cancel is time-unrestricted in this variant
    let r = c.func_cancel_swap(&b"addrA".to_vec(), Some(&b"s1".to_vec()));
    let payout = r.unwrap();
    assert_eq!(payout.address, b"addrA".to_vec());
    assert_eq!(payout.color, b"colorA".to_vec());
    assert_eq!(payout.amount, 100);
    let again = c.func_cancel_swap(&b"addrA".to_vec(), Some(&b"s1".to_vec()));
    assert_eq!(again.unwrap_err(), SwapError::AlreadyFinished);
}

#[test]
fn direct_start_duplicate_id_rejected() {
    let mut c = Contract::new();
    start_s1(&mut c);
    let incoming = vec![(b"colorA".to_vec(), 100u64)];
    let r = c.func_start_swap(
        &b"addrC".to_vec(),
        5,
        &incoming,
        Some(&b"s1".to_vec()),
        Some(&b"colorA".to_vec()),
        Some(100),
        Some(&b"colorB".to_vec()),
        Some(50),
        Some(&b"addrB".to_vec()),
        3600,
    );
    assert_eq!(r.unwrap_err(), SwapError::AlreadyExists);
}

#[test]
fn direct_start_validation_errors() {
    let mut c = Contract::new();
    let incoming = vec![(b"colorA".to_vec(), 100u64)];
    let r = c.func_start_swap(
        &b"addrA".to_vec(),
        0,
        &incoming,
        Some(&b"s9".to_vec()),
        None,
        Some(100),
        Some(&b"colorB".to_vec()),
        Some(50),
        Some(&b"addrB".to_vec()),
        3600,
    );
    assert_eq!(r.unwrap_err(), SwapError::Missing(Field::ColorSender));
    let r = c.func_start_swap(
        &b"addrA".to_vec(),
        0,
        &incoming,
        None,
        Some(&b"colorA".to_vec()),
        Some(100),
        Some(&b"colorB".to_vec()),
        Some(50),
        Some(&b"addrB".to_vec()),
        3600,
    );
    assert_eq!(r.unwrap_err(), SwapError::Missing(Field::SwapId));
    // attached value does not match the declared amount
    let r = c.func_start_swap(
        &b"addrA".to_vec(),
        0,
        &incoming,
        Some(&b"s9".to_vec()),
        Some(&b"colorA".to_vec()),
        Some(99),
        Some(&b"colorB".to_vec()),
        Some(50),
        Some(&b"addrB".to_vec()),
        3600,
    );
    assert_eq!(r.unwrap_err(), SwapError::WrongAmount);
    // more than one color attached
    let two = vec![(b"colorA".to_vec(), 100u64), (b"colorC".to_vec(), 1u64)];
    let r = c.func_start_swap(
        &b"addrA".to_vec(),
        0,
        &two,
        Some(&b"s9".to_vec()),
        Some(&b"colorA".to_vec()),
        Some(100),
        Some(&b"colorB".to_vec()),
        Some(50),
        Some(&b"addrB".to_vec()),
        3600,
    );
    assert_eq!(r.unwrap_err(), SwapError::TooManyColors);
}

#[test]
fn direct_finalize_gates() {
    let mut c = Contract::new();
    start_s1(&mut c);
    let incoming_b = vec![(b"colorB".to_vec(), 50u64)];
    // wrong caller
    let r = c.func_finalize_swap(&b"addrA".to_vec(), 10, &incoming_b, Some(&b"s1".to_vec()));
    assert_eq!(r.unwrap_err(), SwapError::NotRecipient);
    // window expired: 3601 > 0 + 3600
    let r = c.func_finalize_swap(&b"addrB".to_vec(), 3601, &incoming_b, Some(&b"s1".to_vec()));
    assert_eq!(r.unwrap_err(), SwapError::NoLongerOpen);
    // wrong attached amount
    let wrong = vec![(b"colorB".to_vec(), 49u64)];
    let r = c.func_finalize_swap(&b"addrB".to_vec(), 10, &wrong, Some(&b"s1".to_vec()));
    assert_eq!(r.unwrap_err(), SwapError::WrongAmount);
    // exactly at the window end is still open
    let r = c.func_finalize_swap(&b"addrB".to_vec(), 3600, &incoming_b, Some(&b"s1".to_vec()));
    assert!(r.is_ok());
}

#[test]
fn direct_cancel_authorization() {
    let mut c = Contract::new();
    start_s1(&mut c);
    let r = c.func_cancel_swap(&b"addrB".to_vec(), Some(&b"s1".to_vec()));
    assert_eq!(r.unwrap_err(), SwapError::NotSender);
    let r = c.func_cancel_swap(&b"addrA".to_vec(), None);
    assert_eq!(r.unwrap_err(), SwapError::Missing(Field::SwapId));
    let r = c.func_cancel_swap(&b"addrA".to_vec(), Some(&b"nope".to_vec()));
    assert_eq!(r.unwrap_err(), SwapError::NotFound);
}

#[test]
fn direct_view_returns_stored_record() {
    let mut c = Contract::new();
    start_s1(&mut c);
    let bytes = c.view_get_swap_by_id(Some(&b"s1".to_vec())).unwrap();
    let rec = AtomicSwap::from_bytes(&bytes).unwrap();
    assert_eq!(rec.color_sender, b"colorA".to_vec());
    assert_eq!(rec.color_recipient, b"colorB".to_vec());
    assert_eq!(rec.amount_sender, 100);
    assert_eq!(rec.amount_recipient, 50);
    assert_eq!(rec.address_sender, b"addrA".to_vec());
    assert_eq!(rec.address_recipient, b"addrB".to_vec());
    assert_eq!(rec.duration_open, 3600);
    assert_eq!(rec.when_started, 0);
    assert_eq!(rec.state, SwapState::Open);
    let missing = c.view_get_swap_by_id(Some(&b"zz".to_vec()));
    assert_eq!(missing.unwrap_err(), SwapError::NotFound);
}

#[test]
fn direct_codec_round_trip() {
    let rec = AtomicSwap {
        color_sender: b"c1".to_vec(),
        color_recipient: vec![],
        amount_sender: u64::MAX,
        amount_recipient: 0,
        address_sender: b"someone".to_vec(),
        address_recipient: b"else".to_vec(),
        duration_open: 12345678901234567890,
        when_started: 1,
        state: SwapState::Cancelled,
    };
    let bytes = rec.to_bytes();
    let back = AtomicSwap::from_bytes(&bytes).unwrap();
    assert_eq!(back.color_sender, rec.color_sender);
    assert_eq!(back.color_recipient, rec.color_recipient);
    assert_eq!(back.amount_sender, rec.amount_sender);
    assert_eq!(back.amount_recipient, rec.amount_recipient);
    assert_eq!(back.address_sender, rec.address_sender);
    assert_eq!(back.address_recipient, rec.address_recipient);
    assert_eq!(back.duration_open, rec.duration_open);
    assert_eq!(back.when_started, rec.when_started);
    assert_eq!(back.state, rec.state);
    // decoding rejects trailing garbage and truncation
    let mut longer = rec.to_bytes();
    longer.push(0);
    assert!(AtomicSwap::from_bytes(&longer).is_none());
    let mut shorter = rec.to_bytes();
    shorter.pop();
    assert!(AtomicSwap::from_bytes(&shorter).is_none());
}

#[test]
fn direct_two_swaps_share_a_color() {
    // two independent escrows of the same color; each release returns
    // exactly its own recorded amount
    let mut c = Contract::new();
    start_s1(&mut c);
    let more = vec![(b"colorA".to_vec(), 60u64)];
    c.func_start_swap(
        &b"addrC".to_vec(),
        0,
        &more,
        Some(&b"s2".to_vec()),
        Some(&b"colorA".to_vec()),
        Some(60),
        Some(&b"colorB".to_vec()),
        Some(5),
        Some(&b"addrD".to_vec()),
        60,
    )
    .unwrap();
    let p1 = c.func_cancel_swap(&b"addrA".to_vec(), Some(&b"s1".to_vec())).unwrap();
    assert_eq!(p1.amount, 100);
    let p2 = c.func_cancel_swap(&b"addrC".to_vec(), Some(&b"s2".to_vec())).unwrap();
    assert_eq!(p2.amount, 60);
    assert_eq!(p2.address, b"addrC".to_vec());
    assert_eq!(p2.color, b"colorA".to_vec());
}

#[test]
fn direct_custody_overflow_rejected() {
    let mut c = Contract::new();
    let huge = vec![(b"colorA".to_vec(), u64::MAX)];
    c.func_start_swap(
        &b"addrA".to_vec(),
        0,
        &huge,
        Some(&b"s1".to_vec()),
        Some(&b"colorA".to_vec()),
        Some(u64::MAX),
        Some(&b"colorB".to_vec()),
        Some(1),
        Some(&b"addrB".to_vec()),
        60,
    )
    .unwrap();
    // custody of this color can take no further deposit
    let one = vec![(b"colorA".to_vec(), 1u64)];
    let r = c.func_start_swap(
        &b"addrC".to_vec(),
        0,
        &one,
        Some(&b"s2".to_vec()),
        Some(&b"colorA".to_vec()),
        Some(1),
        Some(&b"colorB".to_vec()),
        Some(1),
        Some(&b"addrB".to_vec()),
        60,
    );
    assert_eq!(r.unwrap_err(), SwapError::Overflow);
}

#[test]
fn direct_error_messages() {
    assert_eq!(SwapError::AlreadyExists.message(), "swap id already exists");
    assert_eq!(SwapError::NotFound.message(), "swap id does not exist");
    assert_eq!(SwapError::AlreadyFinished.message(), "swap is already finished");
    assert_eq!(SwapError::StillOpen.message(), "swap is open yet");
    assert_eq!(SwapError::NoLongerOpen.message(), "swap is not open anymore");
    assert_eq!(SwapError::WrongSecret.message(), "wrong secret");
    assert_eq!(
        SwapError::Missing(Field::SwapId).message(),
        "missing mandatory swap id"
    );
}
