//! Synchronous bilateral swap engine.
//!
//! Each party's tokens live in its own external ledger. `start` pulls the
//! sender's contribution into contract custody; `finalize` then pulls the
//! recipient's contribution and forwards both contributions to the other
//! party in one all-or-nothing sequence, so no partial settlement is ever
//! observable. As in the direct variant, the sender may cancel at any
//! time before settlement.

use vstd::prelude::*;

use crate::bytes::{bytes_eq, clone_bytes, opt_view};
use crate::codec::{
    blob, lemma_read_bytes_at, lemma_read_state_at, lemma_read_u64_at, put_bytes, put_state,
    put_u64, read_bytes, read_state, read_u64, spec_read_bytes, spec_read_state, spec_read_u64,
    state_byte, u64_le,
};
use crate::error::{Field, SwapError};
use crate::ledger::Ledgers;
use crate::registry::Registry;
use crate::state::{window_open, within_window, SwapState};

verus! {

/// One synchronous bilateral swap record.
pub struct AtomicSwap {
    pub erc20_sc_name_sender: Vec<u8>,
    pub erc20_sc_name_recipient: Vec<u8>,
    pub amount_sender: u64,
    pub amount_recipient: u64,
    pub agent_id_sender: Vec<u8>,
    pub agent_id_recipient: Vec<u8>,
    pub duration_open: u64,
    pub when_started: u64,
    pub state: SwapState,
}

/// The mathematical value of a synchronous bilateral swap record.
pub ghost struct SwapView {
    pub erc20_sc_name_sender: Seq<u8>,
    pub erc20_sc_name_recipient: Seq<u8>,
    pub amount_sender: u64,
    pub amount_recipient: u64,
    pub agent_id_sender: Seq<u8>,
    pub agent_id_recipient: Seq<u8>,
    pub duration_open: u64,
    pub when_started: u64,
    pub state: SwapState,
}

impl View for AtomicSwap {
    type V = SwapView;

    open spec fn view(&self) -> SwapView {
        SwapView {
            erc20_sc_name_sender: self.erc20_sc_name_sender@,
            erc20_sc_name_recipient: self.erc20_sc_name_recipient@,
            amount_sender: self.amount_sender,
            amount_recipient: self.amount_recipient,
            agent_id_sender: self.agent_id_sender@,
            agent_id_recipient: self.agent_id_recipient@,
            duration_open: self.duration_open,
            when_started: self.when_started,
            state: self.state,
        }
    }
}

impl SwapView {
    /// The record with its lifecycle state replaced.
    pub open spec fn with_state(self, st: SwapState) -> SwapView {
        SwapView { state: st, ..self }
    }

    /// Field lengths small enough to carry a length prefix on the wire.
    pub open spec fn encodable(self) -> bool {
        &&& self.erc20_sc_name_sender.len() <= u64::MAX
        &&& self.erc20_sc_name_recipient.len() <= u64::MAX
        &&& self.agent_id_sender.len() <= u64::MAX
        &&& self.agent_id_recipient.len() <= u64::MAX
    }
}

/// The wire format of a record: each field in fixed order.
pub open spec fn spec_enc(v: SwapView) -> Seq<u8> {
    blob(v.erc20_sc_name_sender) + (blob(v.erc20_sc_name_recipient) + (u64_le(v.amount_sender) + (
    u64_le(v.amount_recipient) + (blob(v.agent_id_sender) + (blob(v.agent_id_recipient) + (u64_le(
        v.duration_open,
    ) + (u64_le(v.when_started) + seq![state_byte(v.state)])))))))
}

/// The record a byte string denotes, if it is exactly one encoded record.
pub open spec fn spec_dec(data: Seq<u8>) -> Option<SwapView> {
    match spec_read_bytes(data, 0) {
        None => None,
        Some((erc20_sc_name_sender, p1)) => match spec_read_bytes(data, p1) {
            None => None,
            Some((erc20_sc_name_recipient, p2)) => match spec_read_u64(data, p2) {
                None => None,
                Some((amount_sender, p3)) => match spec_read_u64(data, p3) {
                    None => None,
                    Some((amount_recipient, p4)) => match spec_read_bytes(data, p4) {
                        None => None,
                        Some((agent_id_sender, p5)) => match spec_read_bytes(data, p5) {
                            None => None,
                            Some((agent_id_recipient, p6)) => match spec_read_u64(data, p6) {
                                None => None,
                                Some((duration_open, p7)) => match spec_read_u64(data, p7) {
                                    None => None,
                                    Some((when_started, p8)) => match spec_read_state(data, p8) {
                                        None => None,
                                        Some((state, p9)) => if p9 == data.len() {
                                            Some(
                                                SwapView {
                                                    erc20_sc_name_sender,
                                                    erc20_sc_name_recipient,
                                                    amount_sender,
                                                    amount_recipient,
                                                    agent_id_sender,
                                                    agent_id_recipient,
                                                    duration_open,
                                                    when_started,
                                                    state,
                                                },
                                            )
                                        } else {
                                            None
                                        },
                                    },
                                },
                            },
                        },
                    },
                },
            },
        },
    }
}

/// With every field read established, decoding yields the record.
#[verifier::spinoff_prover]
proof fn lemma_dec_steps(
    data: Seq<u8>,
    v: SwapView,
    p1: int,
    p2: int,
    p3: int,
    p4: int,
    p5: int,
    p6: int,
    p7: int,
    p8: int,
    p9: int,
)
    requires
        spec_read_bytes(data, 0) == Some((v.erc20_sc_name_sender, p1)),
        spec_read_bytes(data, p1) == Some((v.erc20_sc_name_recipient, p2)),
        spec_read_u64(data, p2) == Some((v.amount_sender, p3)),
        spec_read_u64(data, p3) == Some((v.amount_recipient, p4)),
        spec_read_bytes(data, p4) == Some((v.agent_id_sender, p5)),
        spec_read_bytes(data, p5) == Some((v.agent_id_recipient, p6)),
        spec_read_u64(data, p6) == Some((v.duration_open, p7)),
        spec_read_u64(data, p7) == Some((v.when_started, p8)),
        spec_read_state(data, p8) == Some((v.state, p9)),
        p9 == data.len(),
    ensures
        spec_dec(data) == Some(v),
{
}

/// Decoding an encoded record yields the record: the wire format is a
/// faithful, stable representation.
#[verifier::rlimit(100)]
pub proof fn lemma_codec_round_trip(v: SwapView)
    requires
        v.encodable(),
    ensures
        spec_dec(spec_enc(v)) == Some(v),
{
    let data = spec_enc(v);
    let c1 = blob(v.erc20_sc_name_sender);
    let c2 = blob(v.erc20_sc_name_recipient);
    let c3 = u64_le(v.amount_sender);
    let c4 = u64_le(v.amount_recipient);
    let c5 = blob(v.agent_id_sender);
    let c6 = blob(v.agent_id_recipient);
    let c7 = u64_le(v.duration_open);
    let c8 = u64_le(v.when_started);
    let c9 = seq![state_byte(v.state)];
    let n = data.len() as int;
    let t8 = c9;
    let t7 = c8 + t8;
    let t6 = c7 + t7;
    let t5 = c6 + t6;
    let t4 = c5 + t5;
    let t3 = c4 + t4;
    let t2 = c3 + t3;
    let t1 = c2 + t2;
    assert(data == c1 + t1);
    let p0 = 0int;
    let p1 = p0 + 8 + v.erc20_sc_name_sender.len();
    let p2 = p1 + 8 + v.erc20_sc_name_recipient.len();
    let p3 = p2 + 8;
    let p4 = p3 + 8;
    let p5 = p4 + 8 + v.agent_id_sender.len();
    let p6 = p5 + 8 + v.agent_id_recipient.len();
    let p7 = p6 + 8;
    let p8 = p7 + 8;
    let p9 = p8 + 1;
    assert(data.subrange(p0, n) =~= data);
    lemma_read_bytes_at(data, p0, v.erc20_sc_name_sender, t1);
    lemma_read_bytes_at(data, p1, v.erc20_sc_name_recipient, t2);
    lemma_read_u64_at(data, p2, v.amount_sender, t3);
    lemma_read_u64_at(data, p3, v.amount_recipient, t4);
    lemma_read_bytes_at(data, p4, v.agent_id_sender, t5);
    lemma_read_bytes_at(data, p5, v.agent_id_recipient, t6);
    lemma_read_u64_at(data, p6, v.duration_open, t7);
    lemma_read_u64_at(data, p7, v.when_started, t8);
    assert(c9 =~= seq![state_byte(v.state)] + Seq::<u8>::empty());
    lemma_read_state_at(data, p8, v.state, Seq::<u8>::empty());
    assert(p9 == n);
    lemma_dec_steps(data, v, p1, p2, p3, p4, p5, p6, p7, p8, p9);
}

impl AtomicSwap {
    /// Serialize the record in the fixed wire order.
    pub fn to_bytes(&self) -> (r: Vec<u8>)
        ensures
            r@ == spec_enc(self@),
    {
        let mut out: Vec<u8> = Vec::new();
        put_bytes(&mut out, &self.erc20_sc_name_sender);
        put_bytes(&mut out, &self.erc20_sc_name_recipient);
        put_u64(&mut out, self.amount_sender);
        put_u64(&mut out, self.amount_recipient);
        put_bytes(&mut out, &self.agent_id_sender);
        put_bytes(&mut out, &self.agent_id_recipient);
        put_u64(&mut out, self.duration_open);
        put_u64(&mut out, self.when_started);
        put_state(&mut out, self.state);
        proof {
            assert(out@ =~= spec_enc(self@));
        }
        out
    }

    /// Parse a record from its wire form; rejects anything that is not
    /// exactly one encoded record.
    pub fn from_bytes(bytes: &Vec<u8>) -> (r: Option<AtomicSwap>)
        ensures
            match r {
                Some(rec) => spec_dec(bytes@) == Some(rec@),
                None => spec_dec(bytes@) is None,
            },
    {
        let (erc20_sc_name_sender, p1) = match read_bytes(bytes, 0) {
            Some(x) => x,
            None => {
                return None;
            },
        };
        let (erc20_sc_name_recipient, p2) = match read_bytes(bytes, p1) {
            Some(x) => x,
            None => {
                return None;
            },
        };
        let (amount_sender, p3) = match read_u64(bytes, p2) {
            Some(x) => x,
            None => {
                return None;
            },
        };
        let (amount_recipient, p4) = match read_u64(bytes, p3) {
            Some(x) => x,
            None => {
                return None;
            },
        };
        let (agent_id_sender, p5) = match read_bytes(bytes, p4) {
            Some(x) => x,
            None => {
                return None;
            },
        };
        let (agent_id_recipient, p6) = match read_bytes(bytes, p5) {
            Some(x) => x,
            None => {
                return None;
            },
        };
        let (duration_open, p7) = match read_u64(bytes, p6) {
            Some(x) => x,
            None => {
                return None;
            },
        };
        let (when_started, p8) = match read_u64(bytes, p7) {
            Some(x) => x,
            None => {
                return None;
            },
        };
        let (state, p9) = match read_state(bytes, p8) {
            Some(x) => x,
            None => {
                return None;
            },
        };
        if p9 != bytes.len() {
            return None;
        }
        Some(
            AtomicSwap {
                erc20_sc_name_sender,
                erc20_sc_name_recipient,
                amount_sender,
                amount_recipient,
                agent_id_sender,
                agent_id_recipient,
                duration_open,
                when_started,
                state,
            },
        )
    }
}

/// The record a successful `start` stores.
pub open spec fn started_record(
    caller_agent: Seq<u8>,
    now: u64,
    sc_name_sender: Seq<u8>,
    sc_name_recipient: Seq<u8>,
    amount_sender: u64,
    amount_recipient: u64,
    agent_id_recipient: Seq<u8>,
    duration: u64,
) -> SwapView {
    SwapView {
        erc20_sc_name_sender: sc_name_sender,
        erc20_sc_name_recipient: sc_name_recipient,
        amount_sender,
        amount_recipient,
        agent_id_sender: caller_agent,
        agent_id_recipient,
        duration_open: duration,
        when_started: now,
        state: SwapState::Open,
    }
}

/// The synchronous bilateral swap contract: its registry and its own
/// agent id, under which it holds ledger custody.
pub struct Contract {
    registry: Registry,
    contract_agent: Vec<u8>,
}

impl Contract {
    /// The stored mapping from swap id to serialized record.
    pub closed spec fn swaps(self) -> Map<Seq<u8>, Seq<u8>> {
        self.registry@
    }

    /// The agent id under which the contract holds escrowed value.
    pub closed spec fn agent(self) -> Seq<u8> {
        self.contract_agent@
    }

    /// The decoded record stored under `id`, if any.
    pub open spec fn record_of(self, id: Seq<u8>) -> Option<SwapView> {
        if self.swaps().contains_key(id) {
            spec_dec(self.swaps()[id])
        } else {
            None
        }
    }

    /// Well-formedness: the registry keeps ids unique and every stored
    /// record decodes. Established by `new`, preserved by every operation.
    pub closed spec fn wf(self) -> bool {
        &&& self.registry.wf()
        &&& forall|k: Seq<u8>|
            #[trigger] self.swaps().contains_key(k) ==> spec_dec(self.swaps()[k]) is Some
    }

    /// A contract with no swaps, acting under its own agent id.
    pub fn new(contract_agent: Vec<u8>) -> (r: Contract)
        ensures
            r.wf(),
            r.swaps() == Map::<Seq<u8>, Seq<u8>>::empty(),
            r.agent() == contract_agent@,
    {
        Contract { registry: Registry::new(), contract_agent }
    }

    /// The first reason `start` would reject, if any.
    pub open spec fn start_err(
        self,
        ledgers: Ledgers,
        caller_agent: Seq<u8>,
        swap_id: Option<Seq<u8>>,
        sc_name_sender: Option<Seq<u8>>,
        sc_name_recipient: Option<Seq<u8>>,
        amount_sender: Option<u64>,
        amount_recipient: Option<u64>,
        agent_id_recipient: Option<Seq<u8>>,
    ) -> Option<SwapError> {
        if amount_sender is None {
            Some(SwapError::Missing(Field::AmountSender))
        } else if amount_recipient is None {
            Some(SwapError::Missing(Field::AmountRecipient))
        } else if swap_id is None {
            Some(SwapError::Missing(Field::SwapId))
        } else if sc_name_sender is None {
            Some(SwapError::Missing(Field::ScNameSender))
        } else if sc_name_recipient is None {
            Some(SwapError::Missing(Field::ScNameRecipient))
        } else if agent_id_recipient is None {
            Some(SwapError::Missing(Field::AgentIdRecipient))
        } else {
            match ledgers.transfer_from_err(
                sc_name_sender.unwrap(),
                caller_agent,
                self.agent(),
                self.agent(),
                amount_sender.unwrap(),
            ) {
                Some(e) => Some(e),
                None => if self.swaps().contains_key(swap_id.unwrap()) {
                    Some(SwapError::AlreadyExists)
                } else {
                    None
                },
            }
        }
    }

    /// Open a bilateral swap: pull the sender contribution from its
    /// ledger into contract custody and store a fresh `Open` record.
    #[verifier::rlimit(100)]
    #[verifier::spinoff_prover]
    pub fn func_start_swap(
        &mut self,
        ledgers: &mut Ledgers,
        caller_agent: &Vec<u8>,
        now: u64,
        swap_id: Option<&Vec<u8>>,
        sc_name_sender: Option<&Vec<u8>>,
        sc_name_recipient: Option<&Vec<u8>>,
        amount_sender: Option<u64>,
        amount_recipient: Option<u64>,
        agent_id_recipient: Option<&Vec<u8>>,
        duration: u64,
    ) -> (r: Result<(), SwapError>)
        requires
            old(self).wf(),
        ensures
            final(self).wf(),
            final(self).agent() == old(self).agent(),
            r is Err <==> old(self).start_err(
                *old(ledgers),
                caller_agent@,
                opt_view(swap_id),
                opt_view(sc_name_sender),
                opt_view(sc_name_recipient),
                amount_sender,
                amount_recipient,
                opt_view(agent_id_recipient),
            ) is Some,
            match r {
                Ok(()) => ({
                    let id = opt_view(swap_id).unwrap();
                    let sc = opt_view(sc_name_sender).unwrap();
                    let amt = amount_sender.unwrap();
                    let k = old(self).agent();
                    let rec = started_record(
                        caller_agent@,
                        now,
                        sc,
                        opt_view(sc_name_recipient).unwrap(),
                        amt,
                        amount_recipient.unwrap(),
                        opt_view(agent_id_recipient).unwrap(),
                        duration,
                    );
                    &&& !old(self).swaps().contains_key(id)
                    &&& final(self).swaps() == old(self).swaps().insert(id, spec_enc(rec))
                    &&& final(ledgers).allow(sc, caller_agent@, k) == old(ledgers).allow(
                        sc,
                        caller_agent@,
                        k,
                    ) - amt
                    &&& forall|n2: Seq<u8>, o2: Seq<u8>, d2: Seq<u8>|
                        !(n2 == sc && o2 == caller_agent@ && d2 == k) ==> final(ledgers).allow(
                            n2,
                            o2,
                            d2,
                        ) == old(ledgers).allow(n2, o2, d2)
                    &&& caller_agent@ != k ==> final(ledgers).bal(sc, caller_agent@) == old(
                        ledgers,
                    ).bal(sc, caller_agent@) - amt && final(ledgers).bal(sc, k) == old(ledgers).bal(
                        sc,
                        k,
                    ) + amt
                    &&& caller_agent@ == k ==> final(ledgers).bal(sc, caller_agent@) == old(
                        ledgers,
                    ).bal(sc, caller_agent@)
                    &&& forall|n2: Seq<u8>, a2: Seq<u8>|
                        !(n2 == sc && (a2 == caller_agent@ || a2 == k)) ==> final(ledgers).bal(
                            n2,
                            a2,
                        ) == old(ledgers).bal(n2, a2)
                    &&& forall|n2: Seq<u8>| final(ledgers).total(n2) == old(ledgers).total(n2)
                }),
                Err(e) => Some(e) == old(self).start_err(
                    *old(ledgers),
                    caller_agent@,
                    opt_view(swap_id),
                    opt_view(sc_name_sender),
                    opt_view(sc_name_recipient),
                    amount_sender,
                    amount_recipient,
                    opt_view(agent_id_recipient),
                ) && *final(self) == *old(self) && *final(ledgers) == *old(ledgers),
            },
    {
        let amt = match amount_sender {
            Some(v) => v,
            None => {
                return Err(SwapError::Missing(Field::AmountSender));
            },
        };
        let amt_r = match amount_recipient {
            Some(v) => v,
            None => {
                return Err(SwapError::Missing(Field::AmountRecipient));
            },
        };
        let id = match swap_id {
            Some(v) => v,
            None => {
                return Err(SwapError::Missing(Field::SwapId));
            },
        };
        let sc_s = match sc_name_sender {
            Some(v) => v,
            None => {
                return Err(SwapError::Missing(Field::ScNameSender));
            },
        };
        let sc_r = match sc_name_recipient {
            Some(v) => v,
            None => {
                return Err(SwapError::Missing(Field::ScNameRecipient));
            },
        };
        let rcp = match agent_id_recipient {
            Some(v) => v,
            None => {
                return Err(SwapError::Missing(Field::AgentIdRecipient));
            },
        };
        match ledgers.check_transfer_from(
            sc_s,
            caller_agent,
            &self.contract_agent,
            &self.contract_agent,
            amt,
        ) {
            Some(e) => {
                return Err(e);
            },
            None => {},
        }
        if self.registry.exists_swap(id) {
            return Err(SwapError::AlreadyExists);
        }
        match ledgers.transfer_from(sc_s, caller_agent, &self.contract_agent, &self.contract_agent, amt) {
            Ok(()) => {},
            Err(_) => {
                proof {
                    assert(false);
                }
                return Err(SwapError::InsufficientBalance);
            },
        }
        let rec = AtomicSwap {
            erc20_sc_name_sender: clone_bytes(sc_s),
            erc20_sc_name_recipient: clone_bytes(sc_r),
            amount_sender: amt,
            amount_recipient: amt_r,
            agent_id_sender: clone_bytes(caller_agent),
            agent_id_recipient: clone_bytes(rcp),
            duration_open: duration,
            when_started: now,
            state: SwapState::Open,
        };
        let bytes = rec.to_bytes();
        proof {
            vstd::std_specs::vec::axiom_spec_len(&rec.erc20_sc_name_sender);
            vstd::std_specs::vec::axiom_spec_len(&rec.erc20_sc_name_recipient);
            vstd::std_specs::vec::axiom_spec_len(&rec.agent_id_sender);
            vstd::std_specs::vec::axiom_spec_len(&rec.agent_id_recipient);
            lemma_codec_round_trip(rec@);
        }
        match self.registry.create(id, bytes) {
            Ok(()) => {},
            Err(_) => {
                proof {
                    assert(false);
                }
                return Err(SwapError::AlreadyExists);
            },
        }
        proof {
            assert forall|k: Seq<u8>| #[trigger] self.swaps().contains_key(k) implies spec_dec(
                self.swaps()[k],
            ) is Some by {
                if k != id@ {
                    assert(old(self).swaps().contains_key(k));
                }
            }
        }
        Ok(())
    }

    /// The first reason `cancel` would reject, if any. As in the direct
    /// variant there is no time bound: the sender may reclaim at any
    /// time before settlement.
    pub open spec fn cancel_err(
        self,
        ledgers: Ledgers,
        caller_agent: Seq<u8>,
        swap_id: Option<Seq<u8>>,
    ) -> Option<SwapError> {
        match swap_id {
            None => Some(SwapError::Missing(Field::SwapId)),
            Some(id) => match self.record_of(id) {
                None => Some(SwapError::NotFound),
                Some(rec) => if rec.state.spec_finished() {
                    Some(SwapError::AlreadyFinished)
                } else if caller_agent != rec.agent_id_sender {
                    Some(SwapError::NotSender)
                } else {
                    ledgers.transfer_err(
                        rec.erc20_sc_name_sender,
                        self.agent(),
                        rec.agent_id_sender,
                        rec.amount_sender,
                    )
                },
            },
        }
    }

    /// Cancel an open swap: only the recorded sender, at any time; the
    /// escrow returns to the sender via its ledger and the record becomes
    /// terminally `Cancelled`.
    #[verifier::rlimit(100)]
    #[verifier::spinoff_prover]
    pub fn func_cancel_swap(
        &mut self,
        ledgers: &mut Ledgers,
        caller_agent: &Vec<u8>,
        swap_id: Option<&Vec<u8>>,
    ) -> (r: Result<(), SwapError>)
        requires
            old(self).wf(),
        ensures
            final(self).wf(),
            final(self).agent() == old(self).agent(),
            r is Err <==> old(self).cancel_err(*old(ledgers), caller_agent@, opt_view(swap_id))
                is Some,
            match r {
                Ok(()) => ({
                    let id = opt_view(swap_id).unwrap();
                    let rec = old(self).record_of(id).unwrap();
                    let sc = rec.erc20_sc_name_sender;
                    let k = old(self).agent();
                    let s = rec.agent_id_sender;
                    let amt = rec.amount_sender;
                    &&& final(self).swaps() == old(self).swaps().insert(
                        id,
                        spec_enc(rec.with_state(SwapState::Cancelled)),
                    )
                    &&& k != s ==> final(ledgers).bal(sc, k) == old(ledgers).bal(sc, k) - amt
                        && final(ledgers).bal(sc, s) == old(ledgers).bal(sc, s) + amt
                    &&& k == s ==> final(ledgers).bal(sc, k) == old(ledgers).bal(sc, k)
                    &&& forall|n2: Seq<u8>, a2: Seq<u8>|
                        !(n2 == sc && (a2 == k || a2 == s)) ==> final(ledgers).bal(n2, a2) == old(
                            ledgers,
                        ).bal(n2, a2)
                    &&& forall|n2: Seq<u8>, o2: Seq<u8>, d2: Seq<u8>|
                        final(ledgers).allow(n2, o2, d2) == old(ledgers).allow(n2, o2, d2)
                    &&& forall|n2: Seq<u8>| final(ledgers).total(n2) == old(ledgers).total(n2)
                }),
                Err(e) => Some(e) == old(self).cancel_err(
                    *old(ledgers),
                    caller_agent@,
                    opt_view(swap_id),
                ) && *final(self) == *old(self) && *final(ledgers) == *old(ledgers),
            },
    {
        let id = match swap_id {
            Some(v) => v,
            None => {
                return Err(SwapError::Missing(Field::SwapId));
            },
        };
        let bytes = match self.registry.get_swap(id) {
            Some(b) => b,
            None => {
                return Err(SwapError::NotFound);
            },
        };
        let rec = match AtomicSwap::from_bytes(&bytes) {
            Some(x) => x,
            None => {
                proof {
                    assert(false);
                }
                return Err(SwapError::NotFound);
            },
        };
        if rec.state.finished() {
            return Err(SwapError::AlreadyFinished);
        }
        if !bytes_eq(caller_agent, &rec.agent_id_sender) {
            return Err(SwapError::NotSender);
        }
        match ledgers.transfer(
            &rec.erc20_sc_name_sender,
            &self.contract_agent,
            &rec.agent_id_sender,
            rec.amount_sender,
        ) {
            Ok(()) => {},
            Err(e) => {
                return Err(e);
            },
        }
        let upd = AtomicSwap { state: SwapState::Cancelled, ..rec };
        let new_bytes = upd.to_bytes();
        proof {
            lemma_codec_round_trip(upd@);
        }
        self.registry.update(id, new_bytes);
        proof {
            assert forall|k: Seq<u8>| #[trigger] self.swaps().contains_key(k) implies spec_dec(
                self.swaps()[k],
            ) is Some by {
                if k != id@ {
                    assert(old(self).swaps().contains_key(k));
                }
            }
        }
        Ok(())
    }

    /// The raw stored record under `id`, exactly as kept by the registry.
    pub fn view_get_swap_by_id(&self, swap_id: Option<&Vec<u8>>) -> (r: Result<Vec<u8>, SwapError>)
        requires
            self.wf(),
        ensures
            match r {
                Ok(b) => opt_view(swap_id) is Some && self.swaps().contains_key(
                    opt_view(swap_id).unwrap(),
                ) && b@ == self.swaps()[opt_view(swap_id).unwrap()],
                Err(e) => (e == SwapError::Missing(Field::SwapId) && swap_id is None) || (e
                    == SwapError::NotFound && opt_view(swap_id) is Some
                    && !self.swaps().contains_key(opt_view(swap_id).unwrap())),
            },
    {
        let id = match swap_id {
            Some(v) => v,
            None => {
                return Err(SwapError::Missing(Field::SwapId));
            },
        };
        match self.registry.get_swap(id) {
            Some(b) => Ok(b),
            None => Err(SwapError::NotFound),
        }
    }
}

/// The change that pulling the recipient contribution into custody (the
/// first settlement leg) makes to the balance of `a2` on ledger `n2`.
pub open spec fn pull_delta(b: Seq<u8>, r: Seq<u8>, k: Seq<u8>, m: u64, n2: Seq<u8>, a2: Seq<u8>) -> int {
    if n2 == b && r != k {
        (if a2 == k {
            m as int
        } else {
            0
        }) - (if a2 == r {
            m as int
        } else {
            0
        })
    } else {
        0
    }
}

/// The change that forwarding the recipient contribution to the sender
/// (the second settlement leg) makes to the balance of `a2` on `n2`.
pub open spec fn fwd_delta(b: Seq<u8>, s: Seq<u8>, k: Seq<u8>, m: u64, n2: Seq<u8>, a2: Seq<u8>) -> int {
    if n2 == b && k != s {
        (if a2 == s {
            m as int
        } else {
            0
        }) - (if a2 == k {
            m as int
        } else {
            0
        })
    } else {
        0
    }
}

/// The change that forwarding the escrowed sender contribution to the
/// recipient (the third settlement leg) makes to the balance of `a2` on
/// `n2`.
pub open spec fn send_delta(a: Seq<u8>, r: Seq<u8>, k: Seq<u8>, n_amt: u64, n2: Seq<u8>, a2: Seq<u8>) -> int {
    if n2 == a && k != r {
        (if a2 == r {
            n_amt as int
        } else {
            0
        }) - (if a2 == k {
            n_amt as int
        } else {
            0
        })
    } else {
        0
    }
}

impl Contract {
    /// The reasons `finalize` would reject a stored record, judged
    /// against the ledgers' current state: the settlement is a three-leg
    /// all-or-nothing sequence, so each leg's feasibility is judged
    /// against the state the earlier legs would leave behind.
    pub open spec fn finalize_rec_err(self, ledgers: Ledgers, now: u64, rec: SwapView) -> Option<
        SwapError,
    > {
        let b = rec.erc20_sc_name_recipient;
        let a = rec.erc20_sc_name_sender;
        let r = rec.agent_id_recipient;
        let s = rec.agent_id_sender;
        let k = self.agent();
        let m = rec.amount_recipient;
        let n_amt = rec.amount_sender;
        if rec.state.spec_finished() {
            Some(SwapError::AlreadyFinished)
        } else if ledgers.allow(b, r, k) < m {
            Some(SwapError::InsufficientAllowance)
        } else if !within_window(now, rec.when_started, rec.duration_open) {
            Some(SwapError::NoLongerOpen)
        } else if ledgers.bal(b, r) < m {
            Some(SwapError::InsufficientBalance)
        } else if r != k && ledgers.bal(b, k) + m > u64::MAX {
            Some(SwapError::Overflow)
        } else if k != s && ledgers.bal(b, s) + pull_delta(b, r, k, m, b, s) + m > u64::MAX {
            Some(SwapError::Overflow)
        } else if ledgers.bal(a, k) + pull_delta(b, r, k, m, a, k) + fwd_delta(b, s, k, m, a, k)
            < n_amt {
            Some(SwapError::InsufficientBalance)
        } else if k != r && ledgers.bal(a, r) + pull_delta(b, r, k, m, a, r) + fwd_delta(
            b,
            s,
            k,
            m,
            a,
            r,
        ) + n_amt > u64::MAX {
            Some(SwapError::Overflow)
        } else {
            None
        }
    }

    /// The first reason `finalize` would reject, if any.
    pub open spec fn finalize_err(
        self,
        ledgers: Ledgers,
        now: u64,
        swap_id: Option<Seq<u8>>,
    ) -> Option<SwapError> {
        match swap_id {
            None => Some(SwapError::Missing(Field::SwapId)),
            Some(id) => match self.record_of(id) {
                None => Some(SwapError::NotFound),
                Some(rec) => self.finalize_rec_err(ledgers, now, rec),
            },
        }
    }

    /// Evaluate, without any effect, whether the three settlement legs
    /// of `rec` would be rejected, and why.
    #[verifier::rlimit(100)]
    #[verifier::spinoff_prover]
    fn finalize_checks(&self, ledgers: &Ledgers, now: u64, rec: &AtomicSwap) -> (r: Option<
        SwapError,
    >)
        ensures
            r == self.finalize_rec_err(*ledgers, now, rec@),
    {
        if rec.state.finished() {
            return Some(SwapError::AlreadyFinished);
        }
        let m = rec.amount_recipient;
        let n_amt = rec.amount_sender;
        let allow_r = ledgers.allowance(
            &rec.erc20_sc_name_recipient,
            &rec.agent_id_recipient,
            &self.contract_agent,
        );
        if allow_r < m {
            return Some(SwapError::InsufficientAllowance);
        }
        if !window_open(now, rec.when_started, rec.duration_open) {
            return Some(SwapError::NoLongerOpen);
        }
        let bal_br = ledgers.balance(&rec.erc20_sc_name_recipient, &rec.agent_id_recipient);
        if bal_br < m {
            return Some(SwapError::InsufficientBalance);
        }
        let r_is_k = bytes_eq(&rec.agent_id_recipient, &self.contract_agent);
        let k_is_s = bytes_eq(&self.contract_agent, &rec.agent_id_sender);
        let s_is_r = bytes_eq(&rec.agent_id_sender, &rec.agent_id_recipient);
        let a_is_b = bytes_eq(&rec.erc20_sc_name_sender, &rec.erc20_sc_name_recipient);
        let bal_bk = ledgers.balance(&rec.erc20_sc_name_recipient, &self.contract_agent);
        if !r_is_k && m > u64::MAX - bal_bk {
            return Some(SwapError::Overflow);
        }
        let bal_bs = ledgers.balance(&rec.erc20_sc_name_recipient, &rec.agent_id_sender);
        let bal_bs_after = if s_is_r && !r_is_k {
            bal_bs - m
        } else {
            bal_bs
        };
        if !k_is_s && m > u64::MAX - bal_bs_after {
            return Some(SwapError::Overflow);
        }
        let bal_ak0 = ledgers.balance(&rec.erc20_sc_name_sender, &self.contract_agent);
        let bal_ak = if a_is_b {
            let t1 = if !r_is_k {
                bal_ak0 + m
            } else {
                bal_ak0
            };
            if !k_is_s {
                t1 - m
            } else {
                t1
            }
        } else {
            bal_ak0
        };
        if bal_ak < n_amt {
            return Some(SwapError::InsufficientBalance);
        }
        let bal_ar0 = ledgers.balance(&rec.erc20_sc_name_sender, &rec.agent_id_recipient);
        let bal_ar = if a_is_b && !r_is_k {
            let t1 = bal_ar0 - m;
            if !k_is_s && s_is_r {
                t1 + m
            } else {
                t1
            }
        } else {
            bal_ar0
        };
        if !r_is_k && n_amt > u64::MAX - bal_ar {
            return Some(SwapError::Overflow);
        }
        None
    }

    /// Settle an open swap inside its window: pull the recipient
    /// contribution on the strength of its allowance, forward it to the
    /// sender, and forward the escrowed sender contribution to the
    /// recipient -- all three legs or none. The record becomes terminally
    /// `Finalized` only after all legs succeed.
    #[verifier::rlimit(100)]
    #[verifier::spinoff_prover]
    pub fn func_finalize_swap(
        &mut self,
        ledgers: &mut Ledgers,
        now: u64,
        swap_id: Option<&Vec<u8>>,
    ) -> (r: Result<(), SwapError>)
        requires
            old(self).wf(),
        ensures
            final(self).wf(),
            final(self).agent() == old(self).agent(),
            r is Err <==> old(self).finalize_err(*old(ledgers), now, opt_view(swap_id)) is Some,
            match r {
                Ok(()) => ({
                    let id = opt_view(swap_id).unwrap();
                    let rec = old(self).record_of(id).unwrap();
                    let b = rec.erc20_sc_name_recipient;
                    let a = rec.erc20_sc_name_sender;
                    let rr = rec.agent_id_recipient;
                    let s = rec.agent_id_sender;
                    let k = old(self).agent();
                    let m = rec.amount_recipient;
                    let n_amt = rec.amount_sender;
                    &&& final(self).swaps() == old(self).swaps().insert(
                        id,
                        spec_enc(rec.with_state(SwapState::Finalized)),
                    )
                    &&& forall|n2: Seq<u8>, a2: Seq<u8>|
                        final(ledgers).bal(n2, a2) as int == old(ledgers).bal(n2, a2) + pull_delta(
                            b,
                            rr,
                            k,
                            m,
                            n2,
                            a2,
                        ) + fwd_delta(b, s, k, m, n2, a2) + send_delta(a, rr, k, n_amt, n2, a2)
                    &&& final(ledgers).allow(b, rr, k) == old(ledgers).allow(b, rr, k) - m
                    &&& forall|n2: Seq<u8>, o2: Seq<u8>, d2: Seq<u8>|
                        !(n2 == b && o2 == rr && d2 == k) ==> final(ledgers).allow(n2, o2, d2)
                            == old(ledgers).allow(n2, o2, d2)
                    &&& forall|n2: Seq<u8>| final(ledgers).total(n2) == old(ledgers).total(n2)
                }),
                Err(e) => Some(e) == old(self).finalize_err(*old(ledgers), now, opt_view(swap_id))
                    && *final(self) == *old(self) && *final(ledgers) == *old(ledgers),
            },
    {
        let id = match swap_id {
            Some(v) => v,
            None => {
                return Err(SwapError::Missing(Field::SwapId));
            },
        };
        let bytes = match self.registry.get_swap(id) {
            Some(b) => b,
            None => {
                return Err(SwapError::NotFound);
            },
        };
        let rec = match AtomicSwap::from_bytes(&bytes) {
            Some(x) => x,
            None => {
                proof {
                    assert(false);
                }
                return Err(SwapError::NotFound);
            },
        };
        match self.finalize_checks(ledgers, now, &rec) {
            Some(e) => {
                return Err(e);
            },
            None => {},
        }
        let m = rec.amount_recipient;
        let n_amt = rec.amount_sender;
        match ledgers.transfer_from(
            &rec.erc20_sc_name_recipient,
            &rec.agent_id_recipient,
            &self.contract_agent,
            &self.contract_agent,
            m,
        ) {
            Ok(()) => {},
            Err(_) => {
                proof {
                    assert(false);
                }
                return Err(SwapError::InsufficientBalance);
            },
        }
        match ledgers.transfer(
            &rec.erc20_sc_name_recipient,
            &self.contract_agent,
            &rec.agent_id_sender,
            m,
        ) {
            Ok(()) => {},
            Err(_) => {
                proof {
                    assert(false);
                }
                return Err(SwapError::InsufficientBalance);
            },
        }
        proof {
            let b = rec.erc20_sc_name_recipient@;
            let a = rec.erc20_sc_name_sender@;
            let rr = rec.agent_id_recipient@;
            let s = rec.agent_id_sender@;
            let k = self.contract_agent@;
            assert(ledgers.bal(a, k) as int == old(ledgers).bal(a, k) + pull_delta(b, rr, k, m, a, k)
                + fwd_delta(b, s, k, m, a, k));
            if rr != k {
                assert(ledgers.bal(a, rr) as int == old(ledgers).bal(a, rr) + pull_delta(
                    b,
                    rr,
                    k,
                    m,
                    a,
                    rr,
                ) + fwd_delta(b, s, k, m, a, rr));
            }
        }
        match ledgers.transfer(
            &rec.erc20_sc_name_sender,
            &self.contract_agent,
            &rec.agent_id_recipient,
            n_amt,
        ) {
            Ok(()) => {},
            Err(_) => {
                proof {
                    assert(false);
                }
                return Err(SwapError::InsufficientBalance);
            },
        }
        let upd = AtomicSwap { state: SwapState::Finalized, ..rec };
        let new_bytes = upd.to_bytes();
        proof {
            lemma_codec_round_trip(upd@);
        }
        self.registry.update(id, new_bytes);
        proof {
            assert forall|k: Seq<u8>| #[trigger] self.swaps().contains_key(k) implies spec_dec(
                self.swaps()[k],
            ) is Some by {
                if k != id@ {
                    assert(old(self).swaps().contains_key(k));
                }
            }
        }
        Ok(())
    }
}

/// Uniqueness: once a swap id is present, no `start` on it can succeed,
/// whatever the caller, ledgers or other arguments are.
pub proof fn lemma_start_fails_on_existing_id(
    c: Contract,
    ledgers: Ledgers,
    caller_agent: Seq<u8>,
    swap_id: Seq<u8>,
    sc_name_sender: Option<Seq<u8>>,
    sc_name_recipient: Option<Seq<u8>>,
    amount_sender: Option<u64>,
    amount_recipient: Option<u64>,
    agent_id_recipient: Option<Seq<u8>>,
)
    requires
        c.swaps().contains_key(swap_id),
    ensures
        c.start_err(
            ledgers,
            caller_agent,
            Some(swap_id),
            sc_name_sender,
            sc_name_recipient,
            amount_sender,
            amount_recipient,
            agent_id_recipient,
        ) is Some,
{
}

/// Exactly-once settlement: a record whose terminal flag is set rejects
/// every further cancel and finalize with "already finished."
pub proof fn lemma_finished_is_terminal(
    c: Contract,
    ledgers: Ledgers,
    caller_agent: Seq<u8>,
    now: u64,
    id: Seq<u8>,
)
    requires
        c.record_of(id) is Some,
        c.record_of(id).unwrap().state.spec_finished(),
    ensures
        c.cancel_err(ledgers, caller_agent, Some(id)) == Some(SwapError::AlreadyFinished),
        c.finalize_err(ledgers, now, Some(id)) == Some(SwapError::AlreadyFinished),
{
}

/// Authorization: cancel can only succeed for the recorded sender;
/// finalize checks no caller identity, but can only succeed when the
/// recorded recipient has authorized this contract for its contribution.
pub proof fn lemma_settlement_authorization(
    c: Contract,
    ledgers: Ledgers,
    caller_agent: Seq<u8>,
    now: u64,
    id: Seq<u8>,
)
    requires
        c.record_of(id) is Some,
    ensures
        c.cancel_err(ledgers, caller_agent, Some(id)) is None ==> caller_agent == c.record_of(
            id,
        ).unwrap().agent_id_sender,
        c.finalize_err(ledgers, now, Some(id)) is None ==> ledgers.allow(
            c.record_of(id).unwrap().erc20_sc_name_recipient,
            c.record_of(id).unwrap().agent_id_recipient,
            c.agent(),
        ) >= c.record_of(id).unwrap().amount_recipient,
{
}

/// Window semantics: finalize is rejected outside the validity window,
/// while cancel takes no clock at all and so is time-unrestricted.
pub proof fn lemma_finalize_window(c: Contract, ledgers: Ledgers, now: u64, id: Seq<u8>)
    requires
        c.record_of(id) is Some,
    ensures
        c.finalize_err(ledgers, now, Some(id)) is None ==> within_window(
            now,
            c.record_of(id).unwrap().when_started,
            c.record_of(id).unwrap().duration_open,
        ),
{
}

} // verus!
