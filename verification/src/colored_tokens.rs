//! Direct-deposit swap engine.
//!
//! Both parties deposit token value directly into the contract's custody:
//! the sender's value is attached to `start`, the recipient's to
//! `finalize`, which settles both legs in one invocation. The sender may
//! cancel at any time before settlement and reclaim the escrow; finalize
//! is only accepted inside the validity window fixed at start.

use vstd::prelude::*;

use crate::bytes::{bytes_eq, clone_bytes, opt_view};
use crate::codec::{
    blob, lemma_read_bytes_at, lemma_read_state_at, lemma_read_u64_at, put_bytes, put_state,
    put_u64, read_bytes, read_state, read_u64, spec_read_bytes, spec_read_state, spec_read_u64,
    state_byte, u64_le,
};
use crate::custody::{amount_in, held_of, ColorBank};
use crate::error::{Field, SwapError};
use crate::registry::Registry;
use crate::state::{window_open, within_window, SwapState};

verus! {

/// One direct-deposit swap record.
pub struct AtomicSwap {
    pub color_sender: Vec<u8>,
    pub color_recipient: Vec<u8>,
    pub amount_sender: u64,
    pub amount_recipient: u64,
    pub address_sender: Vec<u8>,
    pub address_recipient: Vec<u8>,
    pub duration_open: u64,
    pub when_started: u64,
    pub state: SwapState,
}

/// The mathematical value of a direct-deposit swap record.
pub ghost struct SwapView {
    pub color_sender: Seq<u8>,
    pub color_recipient: Seq<u8>,
    pub amount_sender: u64,
    pub amount_recipient: u64,
    pub address_sender: Seq<u8>,
    pub address_recipient: Seq<u8>,
    pub duration_open: u64,
    pub when_started: u64,
    pub state: SwapState,
}

impl View for AtomicSwap {
    type V = SwapView;

    open spec fn view(&self) -> SwapView {
        SwapView {
            color_sender: self.color_sender@,
            color_recipient: self.color_recipient@,
            amount_sender: self.amount_sender,
            amount_recipient: self.amount_recipient,
            address_sender: self.address_sender@,
            address_recipient: self.address_recipient@,
            duration_open: self.duration_open,
            when_started: self.when_started,
            state: self.state,
        }
    }
}

impl SwapView {
    /// The record with its lifecycle state replaced.
    pub open spec fn with_state(self, st: SwapState) -> SwapView {
        SwapView { state: st, ..self }
    }

    /// Field lengths small enough to carry a length prefix on the wire.
    pub open spec fn encodable(self) -> bool {
        &&& self.color_sender.len() <= u64::MAX
        &&& self.color_recipient.len() <= u64::MAX
        &&& self.address_sender.len() <= u64::MAX
        &&& self.address_recipient.len() <= u64::MAX
    }
}

/// The wire format of a record: each field in fixed order.
pub open spec fn spec_enc(v: SwapView) -> Seq<u8> {
    blob(v.color_sender) + (blob(v.color_recipient) + (u64_le(v.amount_sender) + (u64_le(
        v.amount_recipient,
    ) + (blob(v.address_sender) + (blob(v.address_recipient) + (u64_le(v.duration_open) + (u64_le(
        v.when_started,
    ) + seq![state_byte(v.state)])))))))
}

/// The record a byte string denotes, if it is exactly one encoded record.
pub open spec fn spec_dec(data: Seq<u8>) -> Option<SwapView> {
    match spec_read_bytes(data, 0) {
        None => None,
        Some((color_sender, p1)) => match spec_read_bytes(data, p1) {
            None => None,
            Some((color_recipient, p2)) => match spec_read_u64(data, p2) {
                None => None,
                Some((amount_sender, p3)) => match spec_read_u64(data, p3) {
                    None => None,
                    Some((amount_recipient, p4)) => match spec_read_bytes(data, p4) {
                        None => None,
                        Some((address_sender, p5)) => match spec_read_bytes(data, p5) {
                            None => None,
                            Some((address_recipient, p6)) => match spec_read_u64(data, p6) {
                                None => None,
                                Some((duration_open, p7)) => match spec_read_u64(data, p7) {
                                    None => None,
                                    Some((when_started, p8)) => match spec_read_state(data, p8) {
                                        None => None,
                                        Some((state, p9)) => if p9 == data.len() {
                                            Some(
                                                SwapView {
                                                    color_sender,
                                                    color_recipient,
                                                    amount_sender,
                                                    amount_recipient,
                                                    address_sender,
                                                    address_recipient,
                                                    duration_open,
                                                    when_started,
                                                    state,
                                                },
                                            )
                                        } else {
                                            None
                                        },
                                    },
                                },
                            },
                        },
                    },
                },
            },
        },
    }
}

/// With every field read established, decoding yields the record.
#[verifier::spinoff_prover]
proof fn lemma_dec_steps(
    data: Seq<u8>,
    v: SwapView,
    p1: int,
    p2: int,
    p3: int,
    p4: int,
    p5: int,
    p6: int,
    p7: int,
    p8: int,
    p9: int,
)
    requires
        spec_read_bytes(data, 0) == Some((v.color_sender, p1)),
        spec_read_bytes(data, p1) == Some((v.color_recipient, p2)),
        spec_read_u64(data, p2) == Some((v.amount_sender, p3)),
        spec_read_u64(data, p3) == Some((v.amount_recipient, p4)),
        spec_read_bytes(data, p4) == Some((v.address_sender, p5)),
        spec_read_bytes(data, p5) == Some((v.address_recipient, p6)),
        spec_read_u64(data, p6) == Some((v.duration_open, p7)),
        spec_read_u64(data, p7) == Some((v.when_started, p8)),
        spec_read_state(data, p8) == Some((v.state, p9)),
        p9 == data.len(),
    ensures
        spec_dec(data) == Some(v),
{
}

/// Decoding an encoded record yields the record: the wire format is a
/// faithful, stable representation.
#[verifier::rlimit(100)]
pub proof fn lemma_codec_round_trip(v: SwapView)
    requires
        v.encodable(),
    ensures
        spec_dec(spec_enc(v)) == Some(v),
{
    let data = spec_enc(v);
    let c1 = blob(v.color_sender);
    let c2 = blob(v.color_recipient);
    let c3 = u64_le(v.amount_sender);
    let c4 = u64_le(v.amount_recipient);
    let c5 = blob(v.address_sender);
    let c6 = blob(v.address_recipient);
    let c7 = u64_le(v.duration_open);
    let c8 = u64_le(v.when_started);
    let c9 = seq![state_byte(v.state)];
    let n = data.len() as int;
    let t8 = c9;
    let t7 = c8 + t8;
    let t6 = c7 + t7;
    let t5 = c6 + t6;
    let t4 = c5 + t5;
    let t3 = c4 + t4;
    let t2 = c3 + t3;
    let t1 = c2 + t2;
    assert(data == c1 + t1);
    let p0 = 0int;
    let p1 = p0 + 8 + v.color_sender.len();
    let p2 = p1 + 8 + v.color_recipient.len();
    let p3 = p2 + 8;
    let p4 = p3 + 8;
    let p5 = p4 + 8 + v.address_sender.len();
    let p6 = p5 + 8 + v.address_recipient.len();
    let p7 = p6 + 8;
    let p8 = p7 + 8;
    let p9 = p8 + 1;
    assert(data.subrange(p0, n) =~= data);
    lemma_read_bytes_at(data, p0, v.color_sender, t1);
    lemma_read_bytes_at(data, p1, v.color_recipient, t2);
    lemma_read_u64_at(data, p2, v.amount_sender, t3);
    lemma_read_u64_at(data, p3, v.amount_recipient, t4);
    lemma_read_bytes_at(data, p4, v.address_sender, t5);
    lemma_read_bytes_at(data, p5, v.address_recipient, t6);
    lemma_read_u64_at(data, p6, v.duration_open, t7);
    lemma_read_u64_at(data, p7, v.when_started, t8);
    assert(c9 =~= seq![state_byte(v.state)] + Seq::<u8>::empty());
    lemma_read_state_at(data, p8, v.state, Seq::<u8>::empty());
    assert(p9 == n);
    lemma_dec_steps(data, v, p1, p2, p3, p4, p5, p6, p7, p8, p9);
}

impl AtomicSwap {
    /// Serialize the record in the fixed wire order.
    pub fn to_bytes(&self) -> (r: Vec<u8>)
        ensures
            r@ == spec_enc(self@),
    {
        let mut out: Vec<u8> = Vec::new();
        put_bytes(&mut out, &self.color_sender);
        put_bytes(&mut out, &self.color_recipient);
        put_u64(&mut out, self.amount_sender);
        put_u64(&mut out, self.amount_recipient);
        put_bytes(&mut out, &self.address_sender);
        put_bytes(&mut out, &self.address_recipient);
        put_u64(&mut out, self.duration_open);
        put_u64(&mut out, self.when_started);
        put_state(&mut out, self.state);
        proof {
            assert(out@ =~= spec_enc(self@));
        }
        out
    }

    /// Parse a record from its wire form; rejects anything that is not
    /// exactly one encoded record.
    pub fn from_bytes(bytes: &Vec<u8>) -> (r: Option<AtomicSwap>)
        ensures
            match r {
                Some(rec) => spec_dec(bytes@) == Some(rec@),
                None => spec_dec(bytes@) is None,
            },
    {
        let (color_sender, p1) = match read_bytes(bytes, 0) {
            Some(x) => x,
            None => {
                return None;
            },
        };
        let (color_recipient, p2) = match read_bytes(bytes, p1) {
            Some(x) => x,
            None => {
                return None;
            },
        };
        let (amount_sender, p3) = match read_u64(bytes, p2) {
            Some(x) => x,
            None => {
                return None;
            },
        };
        let (amount_recipient, p4) = match read_u64(bytes, p3) {
            Some(x) => x,
            None => {
                return None;
            },
        };
        let (address_sender, p5) = match read_bytes(bytes, p4) {
            Some(x) => x,
            None => {
                return None;
            },
        };
        let (address_recipient, p6) = match read_bytes(bytes, p5) {
            Some(x) => x,
            None => {
                return None;
            },
        };
        let (duration_open, p7) = match read_u64(bytes, p6) {
            Some(x) => x,
            None => {
                return None;
            },
        };
        let (when_started, p8) = match read_u64(bytes, p7) {
            Some(x) => x,
            None => {
                return None;
            },
        };
        let (state, p9) = match read_state(bytes, p8) {
            Some(x) => x,
            None => {
                return None;
            },
        };
        if p9 != bytes.len() {
            return None;
        }
        Some(
            AtomicSwap {
                color_sender,
                color_recipient,
                amount_sender,
                amount_recipient,
                address_sender,
                address_recipient,
                duration_open,
                when_started,
                state,
            },
        )
    }
}

/// The open escrow one stored record contributes to color `c`: the
/// recorded sender amount of a decodable `Open` record of that color.
pub open spec fn escrow_contrib(e: (Seq<u8>, Seq<u8>), c: Seq<u8>) -> int {
    match spec_dec(e.1) {
        Some(r) => if r.state == SwapState::Open && r.color_sender == c {
            r.amount_sender as int
        } else {
            0
        },
        None => 0,
    }
}

/// The value of color `c` still escrowed by the open records among the
/// stored (id, record) pairs.
pub open spec fn open_escrow(s: Seq<(Seq<u8>, Seq<u8>)>, c: Seq<u8>) -> int
    decreases s.len(),
{
    if s.len() == 0 {
        0
    } else {
        escrow_contrib(s[0], c) + open_escrow(s.drop_first(), c)
    }
}

proof fn lemma_open_escrow_nonneg(s: Seq<(Seq<u8>, Seq<u8>)>, c: Seq<u8>)
    ensures
        open_escrow(s, c) >= 0,
    decreases s.len(),
{
    if s.len() > 0 {
        lemma_open_escrow_nonneg(s.drop_first(), c);
    }
}

proof fn lemma_open_escrow_push(s: Seq<(Seq<u8>, Seq<u8>)>, e: (Seq<u8>, Seq<u8>), c: Seq<u8>)
    ensures
        open_escrow(s.push(e), c) == open_escrow(s, c) + escrow_contrib(e, c),
    decreases s.len(),
{
    let t = s.push(e);
    if s.len() == 0 {
        assert(t[0] == e);
        assert(t.drop_first() =~= Seq::<(Seq<u8>, Seq<u8>)>::empty());
        assert(open_escrow(t, c) == escrow_contrib(t[0], c) + open_escrow(t.drop_first(), c));
    } else {
        assert(t[0] == s[0]);
        assert(t.drop_first() =~= s.drop_first().push(e));
        lemma_open_escrow_push(s.drop_first(), e, c);
        assert(open_escrow(t, c) == escrow_contrib(t[0], c) + open_escrow(t.drop_first(), c));
        assert(open_escrow(s, c) == escrow_contrib(s[0], c) + open_escrow(s.drop_first(), c));
    }
}

proof fn lemma_open_escrow_update(
    s: Seq<(Seq<u8>, Seq<u8>)>,
    i: int,
    e: (Seq<u8>, Seq<u8>),
    c: Seq<u8>,
)
    requires
        0 <= i < s.len(),
    ensures
        open_escrow(s.update(i, e), c) == open_escrow(s, c) - escrow_contrib(s[i], c)
            + escrow_contrib(e, c),
    decreases s.len(),
{
    let t = s.update(i, e);
    if i == 0 {
        assert(t[0] == e);
        assert(t.drop_first() =~= s.drop_first());
    } else {
        assert(t[0] == s[0]);
        assert(t.drop_first() =~= s.drop_first().update(i - 1, e));
        assert(s.drop_first()[i - 1] == s[i]);
        lemma_open_escrow_update(s.drop_first(), i - 1, e, c);
    }
}

proof fn lemma_open_escrow_lower(s: Seq<(Seq<u8>, Seq<u8>)>, i: int, c: Seq<u8>)
    requires
        0 <= i < s.len(),
    ensures
        open_escrow(s, c) >= escrow_contrib(s[i], c),
    decreases s.len(),
{
    if i == 0 {
        lemma_open_escrow_nonneg(s.drop_first(), c);
    } else {
        assert(s.drop_first()[i - 1] == s[i]);
        lemma_open_escrow_lower(s.drop_first(), i - 1, c);
        assert(escrow_contrib(s[0], c) >= 0);
    }
}

/// An open stored record's escrow is counted in the open escrow of its
/// color, so custody that covers the open escrow covers this record.
proof fn lemma_open_record_covered(reg: Registry, id: Seq<u8>, bytes: Seq<u8>, rec: SwapView)
    requires
        reg.wf(),
        reg@.contains_key(id),
        reg@[id] == bytes,
        spec_dec(bytes) == Some(rec),
        rec.state == SwapState::Open,
    ensures
        open_escrow(reg.pairs(), rec.color_sender) >= rec.amount_sender,
{
    reg.lemma_pairs_correspondence();
    let i = choose|i: int| 0 <= i < reg.pairs().len() && reg.pairs()[i].0 == id;
    assert(reg@.contains_key(reg.pairs()[i].0));
    assert(reg.pairs()[i].1 == bytes);
    assert(escrow_contrib(reg.pairs()[i], rec.color_sender) == rec.amount_sender as int);
    lemma_open_escrow_lower(reg.pairs(), i, rec.color_sender);
}

/// Settling one open record lowers the open escrow of its color by
/// exactly the recorded amount and leaves every other color's escrow
/// unchanged.
proof fn lemma_escrow_preserved_on_update(
    old_pairs: Seq<(Seq<u8>, Seq<u8>)>,
    new_pairs: Seq<(Seq<u8>, Seq<u8>)>,
    id: Seq<u8>,
    rec: SwapView,
    new_bytes: Seq<u8>,
    old_bytes: Seq<u8>,
)
    requires
        exists|i: int|
            0 <= i < old_pairs.len() && old_pairs[i].0 == id && new_pairs == old_pairs.update(
                i,
                (id, new_bytes),
            ),
        forall|j: int|
            0 <= j < old_pairs.len() && old_pairs[j].0 == id ==> old_pairs[j].1 == old_bytes,
        spec_dec(old_bytes) == Some(rec),
        rec.state == SwapState::Open,
        spec_dec(new_bytes) is Some,
        spec_dec(new_bytes).unwrap().state != SwapState::Open,
    ensures
        forall|c: Seq<u8>|
            #[trigger] open_escrow(new_pairs, c) == open_escrow(old_pairs, c) - (if c
                == rec.color_sender {
                rec.amount_sender as int
            } else {
                0
            }),
{
    let i = choose|i: int|
        0 <= i < old_pairs.len() && old_pairs[i].0 == id && new_pairs == old_pairs.update(
            i,
            (id, new_bytes),
        );
    assert(old_pairs[i].1 == old_bytes);
    assert forall|c: Seq<u8>|
        #[trigger] open_escrow(new_pairs, c) == open_escrow(old_pairs, c) - (if c
            == rec.color_sender {
            rec.amount_sender as int
        } else {
            0
        }) by {
        lemma_open_escrow_update(old_pairs, i, (id, new_bytes), c);
        assert(escrow_contrib((id, new_bytes), c) == 0);
    }
}

/// An outbound token transfer the host performs for the contract.
#[derive(Debug)]
pub struct Payout {
    pub address: Vec<u8>,
    pub color: Vec<u8>,
    pub amount: u64,
}

/// The record a successful `start` stores.
pub open spec fn started_record(
    caller_address: Seq<u8>,
    now: u64,
    color_sender: Seq<u8>,
    amount_sender: u64,
    color_recipient: Seq<u8>,
    amount_recipient: u64,
    address_recipient: Seq<u8>,
    duration: u64,
) -> SwapView {
    SwapView {
        color_sender,
        color_recipient,
        amount_sender,
        amount_recipient,
        address_sender: caller_address,
        address_recipient,
        duration_open: duration,
        when_started: now,
        state: SwapState::Open,
    }
}

/// The direct-deposit swap contract: its swap registry and its custody.
pub struct Contract {
    registry: Registry,
    custody: ColorBank,
}

impl Contract {
    /// The stored mapping from swap id to serialized record.
    pub closed spec fn swaps(self) -> Map<Seq<u8>, Seq<u8>> {
        self.registry@
    }

    /// The value held in custody of color `c`.
    pub closed spec fn held(self, c: Seq<u8>) -> u64 {
        self.custody.held(c)
    }

    /// The decoded record stored under `id`, if any.
    pub open spec fn record_of(self, id: Seq<u8>) -> Option<SwapView> {
        if self.swaps().contains_key(id) {
            spec_dec(self.swaps()[id])
        } else {
            None
        }
    }

    /// Well-formedness: the registry keeps ids unique, every stored
    /// record decodes, and custody covers the open escrows -- for each
    /// color, the contract holds at least the value its open records
    /// still owe. Established by `new`, preserved by every operation, so
    /// a release never finds custody short.
    pub closed spec fn wf(self) -> bool {
        &&& self.registry.wf()
        &&& forall|k: Seq<u8>|
            #[trigger] self.swaps().contains_key(k) ==> spec_dec(self.swaps()[k]) is Some
        &&& forall|c: Seq<u8>| #[trigger] open_escrow(self.registry.pairs(), c) <= self.held(c)
    }

    /// A contract with no swaps and empty custody.
    pub fn new() -> (r: Contract)
        ensures
            r.wf(),
            r.swaps() == Map::<Seq<u8>, Seq<u8>>::empty(),
            forall|c: Seq<u8>| r.held(c) == 0,
    {
        let r = Contract { registry: Registry::new(), custody: ColorBank::new() };
        proof {
            assert forall|c: Seq<u8>| #[trigger] open_escrow(r.registry.pairs(), c) <= r.held(
                c,
            ) by {
                assert(open_escrow(r.registry.pairs(), c) == 0);
            }
        }
        r
    }

    /// The first reason `start` would reject, if any: a missing
    /// parameter, an attached value that does not equal the declared
    /// amount, more than one attached color, an id already in use, or a
    /// custody balance that cannot take the deposit.
    pub open spec fn start_err(
        self,
        incoming: Seq<(Vec<u8>, u64)>,
        swap_id: Option<Seq<u8>>,
        color_sender: Option<Seq<u8>>,
        amount_sender: Option<u64>,
        color_recipient: Option<Seq<u8>>,
        amount_recipient: Option<u64>,
        address_recipient: Option<Seq<u8>>,
    ) -> Option<SwapError> {
        if color_sender is None {
            Some(SwapError::Missing(Field::ColorSender))
        } else if amount_sender is None {
            Some(SwapError::Missing(Field::AmountSender))
        } else if color_recipient is None {
            Some(SwapError::Missing(Field::ColorRecipient))
        } else if amount_recipient is None {
            Some(SwapError::Missing(Field::AmountRecipient))
        } else if address_recipient is None {
            Some(SwapError::Missing(Field::AddressRecipient))
        } else if swap_id is None {
            Some(SwapError::Missing(Field::SwapId))
        } else if held_of(incoming, color_sender.unwrap()) != amount_sender.unwrap() {
            Some(SwapError::WrongAmount)
        } else if incoming.len() > 1 {
            Some(SwapError::TooManyColors)
        } else if self.swaps().contains_key(swap_id.unwrap()) {
            Some(SwapError::AlreadyExists)
        } else if self.held(color_sender.unwrap()) + amount_sender.unwrap() > u64::MAX {
            Some(SwapError::Overflow)
        } else {
            None
        }
    }

    /// Open a swap: retain the attached sender value in custody and store
    /// a fresh `Open` record under the caller-chosen id.
    pub fn func_start_swap(
        &mut self,
        caller_address: &Vec<u8>,
        now: u64,
        incoming: &Vec<(Vec<u8>, u64)>,
        swap_id: Option<&Vec<u8>>,
        color_sender: Option<&Vec<u8>>,
        amount_sender: Option<u64>,
        color_recipient: Option<&Vec<u8>>,
        amount_recipient: Option<u64>,
        address_recipient: Option<&Vec<u8>>,
        duration: u64,
    ) -> (r: Result<(), SwapError>)
        requires
            old(self).wf(),
        ensures
            final(self).wf(),
            r is Err <==> old(self).start_err(
                incoming@,
                opt_view(swap_id),
                opt_view(color_sender),
                amount_sender,
                opt_view(color_recipient),
                amount_recipient,
                opt_view(address_recipient),
            ) is Some,
            match r {
                Ok(()) => ({
                    let id = opt_view(swap_id).unwrap();
                    let rec = started_record(
                        caller_address@,
                        now,
                        opt_view(color_sender).unwrap(),
                        amount_sender.unwrap(),
                        opt_view(color_recipient).unwrap(),
                        amount_recipient.unwrap(),
                        opt_view(address_recipient).unwrap(),
                        duration,
                    );
                    &&& !old(self).swaps().contains_key(id)
                    &&& final(self).swaps() == old(self).swaps().insert(id, spec_enc(rec))
                    &&& final(self).held(rec.color_sender) == old(self).held(rec.color_sender)
                        + rec.amount_sender
                    &&& forall|c: Seq<u8>|
                        c != rec.color_sender ==> final(self).held(c) == old(self).held(c)
                }),
                Err(e) => Some(e) == old(self).start_err(
                    incoming@,
                    opt_view(swap_id),
                    opt_view(color_sender),
                    amount_sender,
                    opt_view(color_recipient),
                    amount_recipient,
                    opt_view(address_recipient),
                ) && *final(self) == *old(self),
            },
    {
        let cs = match color_sender {
            Some(v) => v,
            None => {
                return Err(SwapError::Missing(Field::ColorSender));
            },
        };
        let amt = match amount_sender {
            Some(v) => v,
            None => {
                return Err(SwapError::Missing(Field::AmountSender));
            },
        };
        let cr = match color_recipient {
            Some(v) => v,
            None => {
                return Err(SwapError::Missing(Field::ColorRecipient));
            },
        };
        let amt_r = match amount_recipient {
            Some(v) => v,
            None => {
                return Err(SwapError::Missing(Field::AmountRecipient));
            },
        };
        let ar = match address_recipient {
            Some(v) => v,
            None => {
                return Err(SwapError::Missing(Field::AddressRecipient));
            },
        };
        let id = match swap_id {
            Some(v) => v,
            None => {
                return Err(SwapError::Missing(Field::SwapId));
            },
        };
        if amount_in(incoming, cs) != amt {
            return Err(SwapError::WrongAmount);
        }
        if incoming.len() > 1 {
            return Err(SwapError::TooManyColors);
        }
        if self.registry.exists_swap(id) {
            return Err(SwapError::AlreadyExists);
        }
        let held = self.custody.amount(cs);
        if amt > u64::MAX - held {
            return Err(SwapError::Overflow);
        }
        let rec = AtomicSwap {
            color_sender: clone_bytes(cs),
            color_recipient: clone_bytes(cr),
            amount_sender: amt,
            amount_recipient: amt_r,
            address_sender: clone_bytes(caller_address),
            address_recipient: clone_bytes(ar),
            duration_open: duration,
            when_started: now,
            state: SwapState::Open,
        };
        let bytes = rec.to_bytes();
        proof {
            vstd::std_specs::vec::axiom_spec_len(&rec.color_sender);
            vstd::std_specs::vec::axiom_spec_len(&rec.color_recipient);
            vstd::std_specs::vec::axiom_spec_len(&rec.address_sender);
            vstd::std_specs::vec::axiom_spec_len(&rec.address_recipient);
            lemma_codec_round_trip(rec@);
        }
        match self.registry.create(id, bytes) {
            Ok(()) => {},
            Err(_) => {
                proof {
                    assert(false);
                }
                return Err(SwapError::AlreadyExists);
            },
        }
        self.custody.deposit(cs, amt);
        proof {
            assert forall|k: Seq<u8>| #[trigger] self.swaps().contains_key(k) implies spec_dec(
                self.swaps()[k],
            ) is Some by {
                if k != id@ {
                    assert(old(self).swaps().contains_key(k));
                }
            }
            let e = (id@, spec_enc(rec@));
            assert forall|c: Seq<u8>| #[trigger] open_escrow(self.registry.pairs(), c)
                <= self.held(c) by {
                lemma_open_escrow_push(old(self).registry.pairs(), e, c);
                assert(open_escrow(old(self).registry.pairs(), c) <= old(self).held(c));
            }
        }
        Ok(())
    }

    /// The first reason `cancel` would reject, if any. No time bound
    /// appears here: the sender may reclaim escrow at any time.
    pub open spec fn cancel_err(self, caller_address: Seq<u8>, swap_id: Option<Seq<u8>>) -> Option<
        SwapError,
    > {
        match swap_id {
            None => Some(SwapError::Missing(Field::SwapId)),
            Some(id) => match self.record_of(id) {
                None => Some(SwapError::NotFound),
                Some(rec) => if rec.state.spec_finished() {
                    Some(SwapError::AlreadyFinished)
                } else if caller_address != rec.address_sender {
                    Some(SwapError::NotSender)
                } else {
                    None
                },
            },
        }
    }

    /// Cancel an open swap: only the recorded sender may do so, at any
    /// time; the escrowed value is released back to the sender and the
    /// record becomes terminally `Cancelled`.
    pub fn func_cancel_swap(&mut self, caller_address: &Vec<u8>, swap_id: Option<&Vec<u8>>) -> (r:
        Result<Payout, SwapError>)
        requires
            old(self).wf(),
        ensures
            final(self).wf(),
            r is Err <==> old(self).cancel_err(caller_address@, opt_view(swap_id)) is Some,
            match r {
                Ok(p) => ({
                    let id = opt_view(swap_id).unwrap();
                    let rec = old(self).record_of(id).unwrap();
                    &&& p.address@ == rec.address_sender
                    &&& p.color@ == rec.color_sender
                    &&& p.amount == rec.amount_sender
                    &&& final(self).swaps() == old(self).swaps().insert(
                        id,
                        spec_enc(rec.with_state(SwapState::Cancelled)),
                    )
                    &&& final(self).held(rec.color_sender) == old(self).held(rec.color_sender)
                        - rec.amount_sender
                    &&& forall|c: Seq<u8>|
                        c != rec.color_sender ==> final(self).held(c) == old(self).held(c)
                }),
                Err(e) => Some(e) == old(self).cancel_err(caller_address@, opt_view(swap_id))
                    && *final(self) == *old(self),
            },
    {
        let id = match swap_id {
            Some(v) => v,
            None => {
                return Err(SwapError::Missing(Field::SwapId));
            },
        };
        let bytes = match self.registry.get_swap(id) {
            Some(b) => b,
            None => {
                return Err(SwapError::NotFound);
            },
        };
        let rec = match AtomicSwap::from_bytes(&bytes) {
            Some(x) => x,
            None => {
                proof {
                    assert(false);
                }
                return Err(SwapError::NotFound);
            },
        };
        if rec.state.finished() {
            return Err(SwapError::AlreadyFinished);
        }
        if !bytes_eq(caller_address, &rec.address_sender) {
            return Err(SwapError::NotSender);
        }
        proof {
            lemma_open_record_covered(self.registry, id@, bytes@, rec@);
        }
        let payout_address = clone_bytes(&rec.address_sender);
        let payout_color = clone_bytes(&rec.color_sender);
        let amt = rec.amount_sender;
        let upd = AtomicSwap { state: SwapState::Cancelled, ..rec };
        let new_bytes = upd.to_bytes();
        proof {
            lemma_codec_round_trip(upd@);
        }
        self.registry.update(id, new_bytes);
        self.custody.withdraw(&payout_color, amt);
        proof {
            assert forall|k: Seq<u8>| #[trigger] self.swaps().contains_key(k) implies spec_dec(
                self.swaps()[k],
            ) is Some by {
                if k != id@ {
                    assert(old(self).swaps().contains_key(k));
                }
            }
            old(self).registry.lemma_pairs_correspondence();
            assert forall|j: int|
                0 <= j < old(self).registry.pairs().len() && old(self).registry.pairs()[j].0
                    == id@ implies old(self).registry.pairs()[j].1 == bytes@ by {
                assert(old(self).registry@.contains_key(old(self).registry.pairs()[j].0));
            }
            lemma_escrow_preserved_on_update(
                old(self).registry.pairs(),
                self.registry.pairs(),
                id@,
                rec@,
                spec_enc(rec@.with_state(SwapState::Cancelled)),
                bytes@,
            );
            assert forall|c: Seq<u8>| #[trigger] open_escrow(self.registry.pairs(), c)
                <= self.held(c) by {
                assert(open_escrow(old(self).registry.pairs(), c) <= old(self).held(c));
            }
        }
        Ok(Payout { address: payout_address, color: payout_color, amount: amt })
    }

    /// The first reason `finalize` would reject, if any: only the
    /// recorded recipient, only inside the validity window, and only with
    /// exactly the recorded recipient value attached.
    pub open spec fn finalize_err(
        self,
        caller_address: Seq<u8>,
        now: u64,
        incoming: Seq<(Vec<u8>, u64)>,
        swap_id: Option<Seq<u8>>,
    ) -> Option<SwapError> {
        match swap_id {
            None => Some(SwapError::Missing(Field::SwapId)),
            Some(id) => match self.record_of(id) {
                None => Some(SwapError::NotFound),
                Some(rec) => if rec.state.spec_finished() {
                    Some(SwapError::AlreadyFinished)
                } else if caller_address != rec.address_recipient {
                    Some(SwapError::NotRecipient)
                } else if !within_window(now, rec.when_started, rec.duration_open) {
                    Some(SwapError::NoLongerOpen)
                } else if held_of(incoming, rec.color_recipient) != rec.amount_recipient {
                    Some(SwapError::WrongAmount)
                } else if incoming.len() > 1 {
                    Some(SwapError::TooManyColors)
                } else {
                    None
                },
            },
        }
    }

    /// Settle an open swap inside its window: the attached recipient
    /// value goes to the sender, the escrowed sender value goes to the
    /// recipient, and the record becomes terminally `Finalized`.
    #[verifier::rlimit(100)]
    #[verifier::spinoff_prover]
    pub fn func_finalize_swap(
        &mut self,
        caller_address: &Vec<u8>,
        now: u64,
        incoming: &Vec<(Vec<u8>, u64)>,
        swap_id: Option<&Vec<u8>>,
    ) -> (r: Result<(Payout, Payout), SwapError>)
        requires
            old(self).wf(),
        ensures
            final(self).wf(),
            r is Err <==> old(self).finalize_err(caller_address@, now, incoming@, opt_view(swap_id))
                is Some,
            match r {
                Ok(p) => ({
                    let id = opt_view(swap_id).unwrap();
                    let rec = old(self).record_of(id).unwrap();
                    &&& p.0.address@ == rec.address_recipient
                    &&& p.0.color@ == rec.color_sender
                    &&& p.0.amount == rec.amount_sender
                    &&& p.1.address@ == rec.address_sender
                    &&& p.1.color@ == rec.color_recipient
                    &&& p.1.amount == rec.amount_recipient
                    &&& final(self).swaps() == old(self).swaps().insert(
                        id,
                        spec_enc(rec.with_state(SwapState::Finalized)),
                    )
                    &&& final(self).held(rec.color_sender) == old(self).held(rec.color_sender)
                        - rec.amount_sender
                    &&& forall|c: Seq<u8>|
                        c != rec.color_sender ==> final(self).held(c) == old(self).held(c)
                }),
                Err(e) => Some(e) == old(self).finalize_err(
                    caller_address@,
                    now,
                    incoming@,
                    opt_view(swap_id),
                ) && *final(self) == *old(self),
            },
    {
        let id = match swap_id {
            Some(v) => v,
            None => {
                return Err(SwapError::Missing(Field::SwapId));
            },
        };
        let bytes = match self.registry.get_swap(id) {
            Some(b) => b,
            None => {
                return Err(SwapError::NotFound);
            },
        };
        let rec = match AtomicSwap::from_bytes(&bytes) {
            Some(x) => x,
            None => {
                proof {
                    assert(false);
                }
                return Err(SwapError::NotFound);
            },
        };
        if rec.state.finished() {
            return Err(SwapError::AlreadyFinished);
        }
        if !bytes_eq(caller_address, &rec.address_recipient) {
            return Err(SwapError::NotRecipient);
        }
        if !window_open(now, rec.when_started, rec.duration_open) {
            return Err(SwapError::NoLongerOpen);
        }
        if amount_in(incoming, &rec.color_recipient) != rec.amount_recipient {
            return Err(SwapError::WrongAmount);
        }
        if incoming.len() > 1 {
            return Err(SwapError::TooManyColors);
        }
        proof {
            lemma_open_record_covered(self.registry, id@, bytes@, rec@);
        }
        let to_recipient = Payout {
            address: clone_bytes(&rec.address_recipient),
            color: clone_bytes(&rec.color_sender),
            amount: rec.amount_sender,
        };
        let to_sender = Payout {
            address: clone_bytes(&rec.address_sender),
            color: clone_bytes(&rec.color_recipient),
            amount: rec.amount_recipient,
        };
        let amt = rec.amount_sender;
        let release_color = clone_bytes(&rec.color_sender);
        let upd = AtomicSwap { state: SwapState::Finalized, ..rec };
        let new_bytes = upd.to_bytes();
        proof {
            lemma_codec_round_trip(upd@);
        }
        self.registry.update(id, new_bytes);
        self.custody.withdraw(&release_color, amt);
        proof {
            assert forall|k: Seq<u8>| #[trigger] self.swaps().contains_key(k) implies spec_dec(
                self.swaps()[k],
            ) is Some by {
                if k != id@ {
                    assert(old(self).swaps().contains_key(k));
                }
            }
            old(self).registry.lemma_pairs_correspondence();
            assert forall|j: int|
                0 <= j < old(self).registry.pairs().len() && old(self).registry.pairs()[j].0
                    == id@ implies old(self).registry.pairs()[j].1 == bytes@ by {
                assert(old(self).registry@.contains_key(old(self).registry.pairs()[j].0));
            }
            lemma_escrow_preserved_on_update(
                old(self).registry.pairs(),
                self.registry.pairs(),
                id@,
                rec@,
                spec_enc(rec@.with_state(SwapState::Finalized)),
                bytes@,
            );
            assert forall|c: Seq<u8>| #[trigger] open_escrow(self.registry.pairs(), c)
                <= self.held(c) by {
                assert(open_escrow(old(self).registry.pairs(), c) <= old(self).held(c));
            }
        }
        Ok((to_recipient, to_sender))
    }

    /// The raw stored record under `id`, exactly as kept by the registry.
    pub fn view_get_swap_by_id(&self, swap_id: Option<&Vec<u8>>) -> (r: Result<Vec<u8>, SwapError>)
        requires
            self.wf(),
        ensures
            match r {
                Ok(b) => opt_view(swap_id) is Some && self.swaps().contains_key(
                    opt_view(swap_id).unwrap(),
                ) && b@ == self.swaps()[opt_view(swap_id).unwrap()],
                Err(e) => (e == SwapError::Missing(Field::SwapId) && swap_id is None) || (e
                    == SwapError::NotFound && opt_view(swap_id) is Some && !self.swaps().contains_key(
                    opt_view(swap_id).unwrap(),
                )),
            },
    {
        let id = match swap_id {
            Some(v) => v,
            None => {
                return Err(SwapError::Missing(Field::SwapId));
            },
        };
        match self.registry.get_swap(id) {
            Some(b) => Ok(b),
            None => Err(SwapError::NotFound),
        }
    }
}

/// Uniqueness: once a swap id is present in the registry, no `start` on
/// that id can succeed, whatever the other arguments are; together with
/// `func_start_swap`'s postcondition (a success inserts the id, and no
/// operation ever removes one), at most one `start` per id ever succeeds.
pub proof fn lemma_start_fails_on_existing_id(
    c: Contract,
    incoming: Seq<(Vec<u8>, u64)>,
    swap_id: Seq<u8>,
    color_sender: Option<Seq<u8>>,
    amount_sender: Option<u64>,
    color_recipient: Option<Seq<u8>>,
    amount_recipient: Option<u64>,
    address_recipient: Option<Seq<u8>>,
)
    requires
        c.swaps().contains_key(swap_id),
    ensures
        c.start_err(
            incoming,
            Some(swap_id),
            color_sender,
            amount_sender,
            color_recipient,
            amount_recipient,
            address_recipient,
        ) is Some,
{
}

/// Exactly-once settlement: a record whose terminal flag is set rejects
/// every further cancel and finalize with "already finished."
pub proof fn lemma_finished_is_terminal(
    c: Contract,
    caller_address: Seq<u8>,
    now: u64,
    incoming: Seq<(Vec<u8>, u64)>,
    id: Seq<u8>,
)
    requires
        c.record_of(id) is Some,
        c.record_of(id).unwrap().state.spec_finished(),
    ensures
        c.cancel_err(caller_address, Some(id)) == Some(SwapError::AlreadyFinished),
        c.finalize_err(caller_address, now, incoming, Some(id)) == Some(
            SwapError::AlreadyFinished,
        ),
{
}

/// Authorization: cancel can only succeed for the recorded sender, and
/// finalize only for the recorded recipient.
pub proof fn lemma_settlement_authorization(
    c: Contract,
    caller_address: Seq<u8>,
    now: u64,
    incoming: Seq<(Vec<u8>, u64)>,
    id: Seq<u8>,
)
    requires
        c.record_of(id) is Some,
    ensures
        c.cancel_err(caller_address, Some(id)) is None ==> caller_address == c.record_of(
            id,
        ).unwrap().address_sender,
        c.finalize_err(caller_address, now, incoming, Some(id)) is None ==> caller_address
            == c.record_of(id).unwrap().address_recipient,
{
}

/// Window semantics: finalize is rejected outside the validity window,
/// while cancel takes no clock at all and so is time-unrestricted.
pub proof fn lemma_finalize_window(
    c: Contract,
    caller_address: Seq<u8>,
    now: u64,
    incoming: Seq<(Vec<u8>, u64)>,
    id: Seq<u8>,
)
    requires
        c.record_of(id) is Some,
    ensures
        c.finalize_err(caller_address, now, incoming, Some(id)) is None ==> within_window(
            now,
            c.record_of(id).unwrap().when_started,
            c.record_of(id).unwrap().duration_open,
        ),
{
}

} // verus!
