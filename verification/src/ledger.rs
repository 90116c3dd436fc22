//! In-memory model of the external ledger contracts.
//!
//! The ledger-backed swap variants settle through external contracts that
//! expose `allowance`, `transfer` and `transferFrom`. This module models a
//! family of such ledgers, keyed by contract name: every account balance
//! and every (owner, delegate) allowance is tracked, a transfer moves
//! value between accounts of one ledger or rejects without any effect,
//! and the total value on each ledger is preserved by every operation
//! except `mint`, which funds an account for a new ledger.

use vstd::prelude::*;

use crate::bytes::{bytes_eq, clone_bytes};
use crate::error::SwapError;

verus! {

/// Every external ledger: balances keyed by (contract name, account),
/// allowances keyed by (contract name, owner, delegate).
pub struct Ledgers {
    balances: Vec<((Vec<u8>, Vec<u8>), u64)>,
    allowances: Vec<((Vec<u8>, Vec<u8>, Vec<u8>), u64)>,
}

/// The balance of `a` on ledger `n`: the first matching entry, or zero.
pub open spec fn bal_of(s: Seq<((Vec<u8>, Vec<u8>), u64)>, n: Seq<u8>, a: Seq<u8>) -> u64
    decreases s.len(),
{
    if s.len() == 0 {
        0
    } else if s[0].0.0@ == n && s[0].0.1@ == a {
        s[0].1
    } else {
        bal_of(s.drop_first(), n, a)
    }
}

/// The allowance of `d` on `o`'s account of ledger `n`.
pub open spec fn allow_of(
    s: Seq<((Vec<u8>, Vec<u8>, Vec<u8>), u64)>,
    n: Seq<u8>,
    o: Seq<u8>,
    d: Seq<u8>,
) -> u64
    decreases s.len(),
{
    if s.len() == 0 {
        0
    } else if s[0].0.0@ == n && s[0].0.1@ == o && s[0].0.2@ == d {
        s[0].1
    } else {
        allow_of(s.drop_first(), n, o, d)
    }
}

/// The total value held on ledger `n`, over all balance entries.
pub open spec fn total_of(s: Seq<((Vec<u8>, Vec<u8>), u64)>, n: Seq<u8>) -> int
    decreases s.len(),
{
    if s.len() == 0 {
        0
    } else {
        (if s[0].0.0@ == n {
            s[0].1 as int
        } else {
            0
        }) + total_of(s.drop_first(), n)
    }
}

proof fn lemma_bal_of_update(
    s: Seq<((Vec<u8>, Vec<u8>), u64)>,
    i: int,
    v: u64,
    n: Seq<u8>,
    a: Seq<u8>,
)
    requires
        0 <= i < s.len(),
        forall|j: int|
            0 <= j < i ==> !(s[j].0.0@ == s[i].0.0@ && s[j].0.1@ == s[i].0.1@),
    ensures
        bal_of(s.update(i, (s[i].0, v)), n, a) == if n == s[i].0.0@ && a == s[i].0.1@ {
            v
        } else {
            bal_of(s, n, a)
        },
    decreases s.len(),
{
    let t = s.update(i, (s[i].0, v));
    if i == 0 {
        assert(t.drop_first() =~= s.drop_first());
    } else {
        assert(t[0] == s[0]);
        assert(t.drop_first() =~= s.drop_first().update(i - 1, (s[i].0, v)));
        assert(s.drop_first()[i - 1] == s[i]);
        lemma_bal_of_update(s.drop_first(), i - 1, v, n, a);
    }
}

proof fn lemma_total_of_update(s: Seq<((Vec<u8>, Vec<u8>), u64)>, i: int, v: u64, n: Seq<u8>)
    requires
        0 <= i < s.len(),
    ensures
        total_of(s.update(i, (s[i].0, v)), n) == total_of(s, n) + (if s[i].0.0@ == n {
            v as int - s[i].1 as int
        } else {
            0
        }),
    decreases s.len(),
{
    let t = s.update(i, (s[i].0, v));
    if i == 0 {
        assert(t.drop_first() =~= s.drop_first());
    } else {
        assert(t[0] == s[0]);
        assert(t.drop_first() =~= s.drop_first().update(i - 1, (s[i].0, v)));
        assert(s.drop_first()[i - 1] == s[i]);
        lemma_total_of_update(s.drop_first(), i - 1, v, n);
    }
}

proof fn lemma_bal_of_push(
    s: Seq<((Vec<u8>, Vec<u8>), u64)>,
    e: ((Vec<u8>, Vec<u8>), u64),
    n: Seq<u8>,
    a: Seq<u8>,
)
    requires
        forall|j: int|
            0 <= j < s.len() ==> !(s[j].0.0@ == e.0.0@ && s[j].0.1@ == e.0.1@),
    ensures
        bal_of(s.push(e), n, a) == if n == e.0.0@ && a == e.0.1@ {
            e.1
        } else {
            bal_of(s, n, a)
        },
    decreases s.len(),
{
    let t = s.push(e);
    if s.len() == 0 {
        assert(t[0] == e);
        assert(t.drop_first() =~= Seq::<((Vec<u8>, Vec<u8>), u64)>::empty());
        assert(bal_of(t, n, a) == if t[0].0.0@ == n && t[0].0.1@ == a {
            t[0].1
        } else {
            bal_of(t.drop_first(), n, a)
        });
        assert(bal_of(s, n, a) == 0);
    } else {
        assert(t[0] == s[0]);
        assert(t.drop_first() =~= s.drop_first().push(e));
        lemma_bal_of_push(s.drop_first(), e, n, a);
        assert(bal_of(t, n, a) == if t[0].0.0@ == n && t[0].0.1@ == a {
            t[0].1
        } else {
            bal_of(t.drop_first(), n, a)
        });
        assert(bal_of(s, n, a) == if s[0].0.0@ == n && s[0].0.1@ == a {
            s[0].1
        } else {
            bal_of(s.drop_first(), n, a)
        });
    }
}

proof fn lemma_total_of_push(s: Seq<((Vec<u8>, Vec<u8>), u64)>, e: ((Vec<u8>, Vec<u8>), u64), n: Seq<u8>)
    ensures
        total_of(s.push(e), n) == total_of(s, n) + (if e.0.0@ == n {
            e.1 as int
        } else {
            0
        }),
    decreases s.len(),
{
    if s.len() == 0 {
        assert(s.push(e)[0] == e);
        assert(s.push(e).drop_first() =~= Seq::<((Vec<u8>, Vec<u8>), u64)>::empty());
        assert(total_of(s.push(e).drop_first(), n) == 0);
        assert(total_of(s, n) == 0);
        assert(total_of(s.push(e), n) == (if s.push(e)[0].0.0@ == n {
            s.push(e)[0].1 as int
        } else {
            0
        }) + total_of(s.push(e).drop_first(), n));
    } else {
        assert(s.push(e)[0] == s[0]);
        assert(s.push(e).drop_first() =~= s.drop_first().push(e));
        lemma_total_of_push(s.drop_first(), e, n);
        assert(total_of(s.push(e).drop_first(), n) == total_of(s.drop_first(), n) + (if e.0.0@
            == n {
            e.1 as int
        } else {
            0
        }));
        assert(total_of(s.push(e), n) == (if s.push(e)[0].0.0@ == n {
            s.push(e)[0].1 as int
        } else {
            0
        }) + total_of(s.push(e).drop_first(), n));
        assert(total_of(s, n) == (if s[0].0.0@ == n {
            s[0].1 as int
        } else {
            0
        }) + total_of(s.drop_first(), n));
    }
}

proof fn lemma_allow_of_update(
    s: Seq<((Vec<u8>, Vec<u8>, Vec<u8>), u64)>,
    i: int,
    v: u64,
    n: Seq<u8>,
    o: Seq<u8>,
    d: Seq<u8>,
)
    requires
        0 <= i < s.len(),
        forall|j: int|
            0 <= j < i ==> !(s[j].0.0@ == s[i].0.0@ && s[j].0.1@ == s[i].0.1@ && s[j].0.2@
                == s[i].0.2@),
    ensures
        allow_of(s.update(i, (s[i].0, v)), n, o, d) == if n == s[i].0.0@ && o == s[i].0.1@ && d
            == s[i].0.2@ {
            v
        } else {
            allow_of(s, n, o, d)
        },
    decreases s.len(),
{
    let t = s.update(i, (s[i].0, v));
    if i == 0 {
        assert(t.drop_first() =~= s.drop_first());
    } else {
        assert(t[0] == s[0]);
        assert(t.drop_first() =~= s.drop_first().update(i - 1, (s[i].0, v)));
        assert(s.drop_first()[i - 1] == s[i]);
        lemma_allow_of_update(s.drop_first(), i - 1, v, n, o, d);
    }
}

proof fn lemma_allow_of_push(
    s: Seq<((Vec<u8>, Vec<u8>, Vec<u8>), u64)>,
    e: ((Vec<u8>, Vec<u8>, Vec<u8>), u64),
    n: Seq<u8>,
    o: Seq<u8>,
    d: Seq<u8>,
)
    requires
        forall|j: int|
            0 <= j < s.len() ==> !(s[j].0.0@ == e.0.0@ && s[j].0.1@ == e.0.1@ && s[j].0.2@
                == e.0.2@),
    ensures
        allow_of(s.push(e), n, o, d) == if n == e.0.0@ && o == e.0.1@ && d == e.0.2@ {
            e.1
        } else {
            allow_of(s, n, o, d)
        },
    decreases s.len(),
{
    let t = s.push(e);
    if s.len() == 0 {
        assert(t[0] == e);
        assert(t.drop_first() =~= Seq::<((Vec<u8>, Vec<u8>, Vec<u8>), u64)>::empty());
        assert(allow_of(t, n, o, d) == if t[0].0.0@ == n && t[0].0.1@ == o && t[0].0.2@ == d {
            t[0].1
        } else {
            allow_of(t.drop_first(), n, o, d)
        });
        assert(allow_of(s, n, o, d) == 0);
    } else {
        assert(t[0] == s[0]);
        assert(t.drop_first() =~= s.drop_first().push(e));
        lemma_allow_of_push(s.drop_first(), e, n, o, d);
        assert(allow_of(t, n, o, d) == if t[0].0.0@ == n && t[0].0.1@ == o && t[0].0.2@ == d {
            t[0].1
        } else {
            allow_of(t.drop_first(), n, o, d)
        });
        assert(allow_of(s, n, o, d) == if s[0].0.0@ == n && s[0].0.1@ == o && s[0].0.2@ == d {
            s[0].1
        } else {
            allow_of(s.drop_first(), n, o, d)
        });
    }
}

impl Ledgers {
    /// The balance of account `a` on the ledger named `n`.
    pub closed spec fn bal(self, n: Seq<u8>, a: Seq<u8>) -> u64 {
        bal_of(self.balances@, n, a)
    }

    /// The allowance granted by `o` to `d` on the ledger named `n`.
    pub closed spec fn allow(self, n: Seq<u8>, o: Seq<u8>, d: Seq<u8>) -> u64 {
        allow_of(self.allowances@, n, o, d)
    }

    /// The total value held on the ledger named `n`.
    pub closed spec fn total(self, n: Seq<u8>) -> int {
        total_of(self.balances@, n)
    }

    /// A family of ledgers with no balances and no allowances.
    pub fn new() -> (r: Ledgers)
        ensures
            forall|n: Seq<u8>, a: Seq<u8>| r.bal(n, a) == 0,
            forall|n: Seq<u8>, o: Seq<u8>, d: Seq<u8>| r.allow(n, o, d) == 0,
            forall|n: Seq<u8>| r.total(n) == 0,
    {
        Ledgers { balances: Vec::new(), allowances: Vec::new() }
    }

    /// The index of the first balance entry for (`sc`, `agent`), if any.
    fn find_bal(&self, sc: &Vec<u8>, agent: &Vec<u8>) -> (r: Option<usize>)
        ensures
            match r {
                Some(i) => i < self.balances@.len() && self.balances@[i as int].0.0@ == sc@
                    && self.balances@[i as int].0.1@ == agent@ && (forall|j: int|
                    0 <= j < i ==> !(self.balances@[j].0.0@ == sc@ && self.balances@[j].0.1@
                        == agent@)) && self.bal(sc@, agent@) == self.balances@[i as int].1,
                None => forall|j: int|
                    0 <= j < self.balances@.len() ==> !(self.balances@[j].0.0@ == sc@
                        && self.balances@[j].0.1@ == agent@),
            },
    {
        let mut i: usize = 0;
        while i < self.balances.len()
            invariant
                i <= self.balances@.len(),
                forall|j: int|
                    0 <= j < i ==> !(self.balances@[j].0.0@ == sc@ && self.balances@[j].0.1@
                        == agent@),
            decreases self.balances@.len() - i,
        {
            if bytes_eq(&self.balances[i].0.0, sc) && bytes_eq(&self.balances[i].0.1, agent) {
                proof {
                    lemma_bal_of_first_match(self.balances@, i as int);
                }
                return Some(i);
            }
            i += 1;
        }
        None
    }

    /// The index of the first allowance entry for the triple, if any.
    fn find_allow(&self, sc: &Vec<u8>, owner: &Vec<u8>, delegate: &Vec<u8>) -> (r: Option<usize>)
        ensures
            match r {
                Some(i) => i < self.allowances@.len() && self.allowances@[i as int].0.0@ == sc@
                    && self.allowances@[i as int].0.1@ == owner@ && self.allowances@[i as int].0.2@
                    == delegate@ && (forall|j: int|
                    0 <= j < i ==> !(self.allowances@[j].0.0@ == sc@ && self.allowances@[j].0.1@
                        == owner@ && self.allowances@[j].0.2@ == delegate@)) && self.allow(
                    sc@,
                    owner@,
                    delegate@,
                ) == self.allowances@[i as int].1,
                None => forall|j: int|
                    0 <= j < self.allowances@.len() ==> !(self.allowances@[j].0.0@ == sc@
                        && self.allowances@[j].0.1@ == owner@ && self.allowances@[j].0.2@
                        == delegate@),
            },
    {
        let mut i: usize = 0;
        while i < self.allowances.len()
            invariant
                i <= self.allowances@.len(),
                forall|j: int|
                    0 <= j < i ==> !(self.allowances@[j].0.0@ == sc@ && self.allowances@[j].0.1@
                        == owner@ && self.allowances@[j].0.2@ == delegate@),
            decreases self.allowances@.len() - i,
        {
            if bytes_eq(&self.allowances[i].0.0, sc) && bytes_eq(&self.allowances[i].0.1, owner)
                && bytes_eq(&self.allowances[i].0.2, delegate) {
                proof {
                    lemma_allow_of_first_match(self.allowances@, i as int);
                }
                return Some(i);
            }
            i += 1;
        }
        None
    }

    /// The balance of `agent` on ledger `sc`; zero for unknown accounts.
    pub fn balance(&self, sc: &Vec<u8>, agent: &Vec<u8>) -> (r: u64)
        ensures
            r == self.bal(sc@, agent@),
    {
        match self.find_bal(sc, agent) {
            Some(i) => self.balances[i].1,
            None => {
                proof {
                    lemma_bal_of_no_match(self.balances@, sc@, agent@);
                }
                0
            },
        }
    }

    /// The allowance `owner` has granted `delegate` on ledger `sc`.
    pub fn allowance(&self, sc: &Vec<u8>, owner: &Vec<u8>, delegate: &Vec<u8>) -> (r: u64)
        ensures
            r == self.allow(sc@, owner@, delegate@),
    {
        match self.find_allow(sc, owner, delegate) {
            Some(i) => self.allowances[i].1,
            None => {
                proof {
                    lemma_allow_of_no_match(self.allowances@, sc@, owner@, delegate@);
                }
                0
            },
        }
    }

    /// Overwrite one balance entry, keeping every other balance, every
    /// allowance, and every other ledger total as it was.
    fn set_bal(&mut self, sc: &Vec<u8>, agent: &Vec<u8>, v: u64)
        ensures
            final(self).bal(sc@, agent@) == v,
            forall|n: Seq<u8>, a: Seq<u8>|
                !(n == sc@ && a == agent@) ==> final(self).bal(n, a) == old(self).bal(n, a),
            forall|n: Seq<u8>, o: Seq<u8>, d: Seq<u8>|
                final(self).allow(n, o, d) == old(self).allow(n, o, d),
            forall|n: Seq<u8>|
                final(self).total(n) == old(self).total(n) + (if n == sc@ {
                    v as int - old(self).bal(sc@, agent@) as int
                } else {
                    0
                }),
    {
        match self.find_bal(sc, agent) {
            Some(i) => {
                proof {
                    let s = self.balances@;
                    assert forall|n: Seq<u8>, a: Seq<u8>|
                        bal_of(s.update(i as int, (s[i as int].0, v)), n, a) == (if n == sc@ && a
                            == agent@ {
                            v
                        } else {
                            bal_of(s, n, a)
                        }) by {
                        lemma_bal_of_update(s, i as int, v, n, a);
                    }
                    assert forall|n: Seq<u8>|
                        total_of(s.update(i as int, (s[i as int].0, v)), n) == total_of(s, n) + (
                        if n == sc@ {
                            v as int - bal_of(s, sc@, agent@) as int
                        } else {
                            0
                        }) by {
                        lemma_total_of_update(s, i as int, v, n);
                    }
                }
                self.balances[i].1 = v;
            },
            None => {
                let key = (clone_bytes(sc), clone_bytes(agent));
                proof {
                    let s = self.balances@;
                    let e = (key, v);
                    lemma_bal_of_no_match(s, sc@, agent@);
                    assert forall|n: Seq<u8>, a: Seq<u8>|
                        bal_of(s.push(e), n, a) == (if n == sc@ && a == agent@ {
                            v
                        } else {
                            bal_of(s, n, a)
                        }) by {
                        lemma_bal_of_push(s, e, n, a);
                    }
                    assert forall|n: Seq<u8>|
                        total_of(s.push(e), n) == total_of(s, n) + (if n == sc@ {
                            v as int - bal_of(s, sc@, agent@) as int
                        } else {
                            0
                        }) by {
                        lemma_total_of_push(s, e, n);
                    }
                }
                self.balances.push((key, v));
            },
        }
    }

    /// Overwrite one allowance entry, keeping everything else as it was.
    fn set_allow(&mut self, sc: &Vec<u8>, owner: &Vec<u8>, delegate: &Vec<u8>, v: u64)
        ensures
            final(self).allow(sc@, owner@, delegate@) == v,
            forall|n: Seq<u8>, o: Seq<u8>, d: Seq<u8>|
                !(n == sc@ && o == owner@ && d == delegate@) ==> final(self).allow(n, o, d) == old(
                    self,
                ).allow(n, o, d),
            forall|n: Seq<u8>, a: Seq<u8>| final(self).bal(n, a) == old(self).bal(n, a),
            forall|n: Seq<u8>| final(self).total(n) == old(self).total(n),
    {
        match self.find_allow(sc, owner, delegate) {
            Some(i) => {
                proof {
                    let s = self.allowances@;
                    assert forall|n: Seq<u8>, o: Seq<u8>, d: Seq<u8>|
                        allow_of(s.update(i as int, (s[i as int].0, v)), n, o, d) == (if n == sc@
                            && o == owner@ && d == delegate@ {
                            v
                        } else {
                            allow_of(s, n, o, d)
                        }) by {
                        lemma_allow_of_update(s, i as int, v, n, o, d);
                    }
                }
                self.allowances[i].1 = v;
            },
            None => {
                let key = (clone_bytes(sc), clone_bytes(owner), clone_bytes(delegate));
                proof {
                    let s = self.allowances@;
                    let e = (key, v);
                    lemma_allow_of_no_match(s, sc@, owner@, delegate@);
                    assert forall|n: Seq<u8>, o: Seq<u8>, d: Seq<u8>|
                        allow_of(s.push(e), n, o, d) == (if n == sc@ && o == owner@ && d
                            == delegate@ {
                            v
                        } else {
                            allow_of(s, n, o, d)
                        }) by {
                        lemma_allow_of_push(s, e, n, o, d);
                    }
                }
                self.allowances.push((key, v));
            },
        }
    }

    /// Fund `account` on ledger `sc` with freshly issued value; the only
    /// operation that changes a ledger's total.
    pub fn mint(&mut self, sc: &Vec<u8>, account: &Vec<u8>, amount: u64) -> (r: Result<
        (),
        SwapError,
    >)
        ensures
            match r {
                Ok(()) => old(self).bal(sc@, account@) + amount <= u64::MAX && final(self).bal(
                    sc@,
                    account@,
                ) == old(self).bal(sc@, account@) + amount && (forall|n: Seq<u8>, a: Seq<u8>|
                    !(n == sc@ && a == account@) ==> final(self).bal(n, a) == old(self).bal(n, a))
                    && (forall|n: Seq<u8>, o: Seq<u8>, d: Seq<u8>|
                    final(self).allow(n, o, d) == old(self).allow(n, o, d)) && (forall|n: Seq<u8>|
                    final(self).total(n) == old(self).total(n) + (if n == sc@ {
                        amount as int
                    } else {
                        0
                    })),
                Err(e) => e == SwapError::Overflow && old(self).bal(sc@, account@) + amount
                    > u64::MAX && *final(self) == *old(self),
            },
    {
        let b = self.balance(sc, account);
        if amount > u64::MAX - b {
            return Err(SwapError::Overflow);
        }
        self.set_bal(sc, account, b + amount);
        Ok(())
    }

    /// Record `owner`'s authorization for `delegate` to move up to
    /// `amount` of its balance on ledger `sc`.
    pub fn approve(&mut self, sc: &Vec<u8>, owner: &Vec<u8>, delegate: &Vec<u8>, amount: u64)
        ensures
            final(self).allow(sc@, owner@, delegate@) == amount,
            forall|n: Seq<u8>, o: Seq<u8>, d: Seq<u8>|
                !(n == sc@ && o == owner@ && d == delegate@) ==> final(self).allow(n, o, d) == old(
                    self,
                ).allow(n, o, d),
            forall|n: Seq<u8>, a: Seq<u8>| final(self).bal(n, a) == old(self).bal(n, a),
            forall|n: Seq<u8>| final(self).total(n) == old(self).total(n),
    {
        self.set_allow(sc, owner, delegate, amount);
    }

    /// The first reason a transfer of `amount` from `from` to `to` on
    /// ledger `n` would be rejected, if any.
    pub open spec fn transfer_err(self, n: Seq<u8>, from: Seq<u8>, to: Seq<u8>, amount: u64) -> Option<
        SwapError,
    > {
        if self.bal(n, from) < amount {
            Some(SwapError::InsufficientBalance)
        } else if from != to && self.bal(n, to) + amount > u64::MAX {
            Some(SwapError::Overflow)
        } else {
            None
        }
    }

    /// Move `amount` from `from` to `to` on ledger `sc`, or reject with
    /// no effect; the ledger's total is preserved either way.
    pub fn transfer(&mut self, sc: &Vec<u8>, from: &Vec<u8>, to: &Vec<u8>, amount: u64) -> (r:
        Result<(), SwapError>)
        ensures
            r is Err <==> old(self).transfer_err(sc@, from@, to@, amount) is Some,
            match r {
                Ok(()) => {
                    &&& from@ != to@ ==> final(self).bal(sc@, from@) == old(self).bal(sc@, from@)
                        - amount && final(self).bal(sc@, to@) == old(self).bal(sc@, to@) + amount
                    &&& from@ == to@ ==> final(self).bal(sc@, from@) == old(self).bal(sc@, from@)
                    &&& forall|n: Seq<u8>, a: Seq<u8>|
                        !(n == sc@ && (a == from@ || a == to@)) ==> final(self).bal(n, a) == old(
                            self,
                        ).bal(n, a)
                    &&& forall|n: Seq<u8>, o: Seq<u8>, d: Seq<u8>|
                        final(self).allow(n, o, d) == old(self).allow(n, o, d)
                    &&& forall|n: Seq<u8>| final(self).total(n) == old(self).total(n)
                },
                Err(e) => Some(e) == old(self).transfer_err(sc@, from@, to@, amount)
                    && *final(self) == *old(self),
            },
    {
        let bal_from = self.balance(sc, from);
        if bal_from < amount {
            return Err(SwapError::InsufficientBalance);
        }
        if bytes_eq(from, to) {
            return Ok(());
        }
        let bal_to = self.balance(sc, to);
        if amount > u64::MAX - bal_to {
            return Err(SwapError::Overflow);
        }
        self.set_bal(sc, from, bal_from - amount);
        self.set_bal(sc, to, bal_to + amount);
        Ok(())
    }

    /// The first reason a delegated transfer would be rejected, if any.
    pub open spec fn transfer_from_err(
        self,
        n: Seq<u8>,
        owner: Seq<u8>,
        delegate: Seq<u8>,
        to: Seq<u8>,
        amount: u64,
    ) -> Option<SwapError> {
        if self.allow(n, owner, delegate) < amount {
            Some(SwapError::InsufficientAllowance)
        } else {
            self.transfer_err(n, owner, to, amount)
        }
    }

    /// Evaluate, without any effect, whether a delegated transfer would
    /// be rejected, and why.
    pub fn check_transfer_from(
        &self,
        sc: &Vec<u8>,
        owner: &Vec<u8>,
        delegate: &Vec<u8>,
        to: &Vec<u8>,
        amount: u64,
    ) -> (r: Option<SwapError>)
        ensures
            r == self.transfer_from_err(sc@, owner@, delegate@, to@, amount),
    {
        let allow = self.allowance(sc, owner, delegate);
        if allow < amount {
            return Some(SwapError::InsufficientAllowance);
        }
        let bal_owner = self.balance(sc, owner);
        if bal_owner < amount {
            return Some(SwapError::InsufficientBalance);
        }
        if !bytes_eq(owner, to) {
            let bal_to = self.balance(sc, to);
            if amount > u64::MAX - bal_to {
                return Some(SwapError::Overflow);
            }
        }
        None
    }

    /// Move `amount` from `owner` to `to` on ledger `sc` on the strength
    /// of `owner`'s allowance for `delegate`, consuming that much of the
    /// allowance; or reject with no effect.
    pub fn transfer_from(
        &mut self,
        sc: &Vec<u8>,
        owner: &Vec<u8>,
        delegate: &Vec<u8>,
        to: &Vec<u8>,
        amount: u64,
    ) -> (r: Result<(), SwapError>)
        ensures
            r is Err <==> old(self).transfer_from_err(sc@, owner@, delegate@, to@, amount) is Some,
            match r {
                Ok(()) => {
                    &&& final(self).allow(sc@, owner@, delegate@) == old(self).allow(
                        sc@,
                        owner@,
                        delegate@,
                    ) - amount
                    &&& forall|n: Seq<u8>, o: Seq<u8>, d: Seq<u8>|
                        !(n == sc@ && o == owner@ && d == delegate@) ==> final(self).allow(n, o, d)
                            == old(self).allow(n, o, d)
                    &&& owner@ != to@ ==> final(self).bal(sc@, owner@) == old(self).bal(
                        sc@,
                        owner@,
                    ) - amount && final(self).bal(sc@, to@) == old(self).bal(sc@, to@) + amount
                    &&& owner@ == to@ ==> final(self).bal(sc@, owner@) == old(self).bal(sc@, owner@)
                    &&& forall|n: Seq<u8>, a: Seq<u8>|
                        !(n == sc@ && (a == owner@ || a == to@)) ==> final(self).bal(n, a) == old(
                            self,
                        ).bal(n, a)
                    &&& forall|n: Seq<u8>| final(self).total(n) == old(self).total(n)
                },
                Err(e) => Some(e) == old(self).transfer_from_err(sc@, owner@, delegate@, to@, amount)
                    && *final(self) == *old(self),
            },
    {
        let allow = self.allowance(sc, owner, delegate);
        if allow < amount {
            return Err(SwapError::InsufficientAllowance);
        }
        let r = self.transfer(sc, owner, to, amount);
        match r {
            Ok(()) => {
                self.set_allow(sc, owner, delegate, allow - amount);
                Ok(())
            },
            Err(e) => Err(e),
        }
    }
}

/// At a first matching index, the recursive lookup returns that entry.
proof fn lemma_bal_of_first_match(s: Seq<((Vec<u8>, Vec<u8>), u64)>, i: int)
    requires
        0 <= i < s.len(),
        forall|j: int|
            0 <= j < i ==> !(s[j].0.0@ == s[i].0.0@ && s[j].0.1@ == s[i].0.1@),
    ensures
        bal_of(s, s[i].0.0@, s[i].0.1@) == s[i].1,
    decreases s.len(),
{
    if i > 0 {
        assert(s.drop_first()[i - 1] == s[i]);
        lemma_bal_of_first_match(s.drop_first(), i - 1);
    }
}

/// With no matching entry, the recursive lookup returns zero.
proof fn lemma_bal_of_no_match(s: Seq<((Vec<u8>, Vec<u8>), u64)>, n: Seq<u8>, a: Seq<u8>)
    requires
        forall|j: int| 0 <= j < s.len() ==> !(s[j].0.0@ == n && s[j].0.1@ == a),
    ensures
        bal_of(s, n, a) == 0,
    decreases s.len(),
{
    if s.len() > 0 {
        lemma_bal_of_no_match(s.drop_first(), n, a);
    }
}

/// At a first matching index, the recursive lookup returns that entry.
proof fn lemma_allow_of_first_match(s: Seq<((Vec<u8>, Vec<u8>, Vec<u8>), u64)>, i: int)
    requires
        0 <= i < s.len(),
        forall|j: int|
            0 <= j < i ==> !(s[j].0.0@ == s[i].0.0@ && s[j].0.1@ == s[i].0.1@ && s[j].0.2@
                == s[i].0.2@),
    ensures
        allow_of(s, s[i].0.0@, s[i].0.1@, s[i].0.2@) == s[i].1,
    decreases s.len(),
{
    if i > 0 {
        assert(s.drop_first()[i - 1] == s[i]);
        lemma_allow_of_first_match(s.drop_first(), i - 1);
    }
}

/// With no matching entry, the recursive lookup returns zero.
proof fn lemma_allow_of_no_match(
    s: Seq<((Vec<u8>, Vec<u8>, Vec<u8>), u64)>,
    n: Seq<u8>,
    o: Seq<u8>,
    d: Seq<u8>,
)
    requires
        forall|j: int|
            0 <= j < s.len() ==> !(s[j].0.0@ == n && s[j].0.1@ == o && s[j].0.2@ == d),
    ensures
        allow_of(s, n, o, d) == 0,
    decreases s.len(),
{
    if s.len() > 0 {
        lemma_allow_of_no_match(s.drop_first(), n, o, d);
    }
}

} // verus!
