//! Escrow custody of the direct-deposit variant.
//!
//! The direct variant retains the token value attached to a `start`
//! invocation in the contract's own custody until it is released by
//! `cancel` or `finalize`. This module tracks that custody per token
//! color, so that every release is covered by an earlier deposit.

use vstd::prelude::*;

use crate::bytes::{bytes_eq, clone_bytes};

verus! {

/// Value held by the contract itself, by token color.
pub struct ColorBank {
    holdings: Vec<(Vec<u8>, u64)>,
}

/// The amount held of color `c`: the first matching entry, or zero.
pub open spec fn held_of(s: Seq<(Vec<u8>, u64)>, c: Seq<u8>) -> u64
    decreases s.len(),
{
    if s.len() == 0 {
        0
    } else if s[0].0@ == c {
        s[0].1
    } else {
        held_of(s.drop_first(), c)
    }
}

proof fn lemma_held_of_update(s: Seq<(Vec<u8>, u64)>, i: int, v: u64, c: Seq<u8>)
    requires
        0 <= i < s.len(),
        forall|j: int| 0 <= j < i ==> s[j].0@ != s[i].0@,
    ensures
        held_of(s.update(i, (s[i].0, v)), c) == if c == s[i].0@ {
            v
        } else {
            held_of(s, c)
        },
    decreases s.len(),
{
    let t = s.update(i, (s[i].0, v));
    if i == 0 {
        assert(t.drop_first() =~= s.drop_first());
    } else {
        assert(t[0] == s[0]);
        assert(t.drop_first() =~= s.drop_first().update(i - 1, (s[i].0, v)));
        assert(s.drop_first()[i - 1] == s[i]);
        lemma_held_of_update(s.drop_first(), i - 1, v, c);
    }
}

proof fn lemma_held_of_push(s: Seq<(Vec<u8>, u64)>, e: (Vec<u8>, u64), c: Seq<u8>)
    requires
        forall|j: int| 0 <= j < s.len() ==> s[j].0@ != e.0@,
    ensures
        held_of(s.push(e), c) == if c == e.0@ {
            e.1
        } else {
            held_of(s, c)
        },
    decreases s.len(),
{
    let t = s.push(e);
    if s.len() == 0 {
        assert(t[0] == e);
        assert(t.drop_first() =~= Seq::<(Vec<u8>, u64)>::empty());
        assert(held_of(t, c) == if t[0].0@ == c {
            t[0].1
        } else {
            held_of(t.drop_first(), c)
        });
        assert(held_of(s, c) == 0);
    } else {
        assert(t[0] == s[0]);
        assert(t.drop_first() =~= s.drop_first().push(e));
        lemma_held_of_push(s.drop_first(), e, c);
        assert(held_of(t, c) == if t[0].0@ == c {
            t[0].1
        } else {
            held_of(t.drop_first(), c)
        });
        assert(held_of(s, c) == if s[0].0@ == c {
            s[0].1
        } else {
            held_of(s.drop_first(), c)
        });
    }
}

proof fn lemma_held_of_first_match(s: Seq<(Vec<u8>, u64)>, i: int)
    requires
        0 <= i < s.len(),
        forall|j: int| 0 <= j < i ==> s[j].0@ != s[i].0@,
    ensures
        held_of(s, s[i].0@) == s[i].1,
    decreases s.len(),
{
    if i > 0 {
        assert(s.drop_first()[i - 1] == s[i]);
        lemma_held_of_first_match(s.drop_first(), i - 1);
    }
}

proof fn lemma_held_of_no_match(s: Seq<(Vec<u8>, u64)>, c: Seq<u8>)
    requires
        forall|j: int| 0 <= j < s.len() ==> s[j].0@ != c,
    ensures
        held_of(s, c) == 0,
    decreases s.len(),
{
    if s.len() > 0 {
        lemma_held_of_no_match(s.drop_first(), c);
    }
}

/// The amount of color `c` among attached token entries.
pub fn amount_in(entries: &Vec<(Vec<u8>, u64)>, c: &Vec<u8>) -> (r: u64)
    ensures
        r == held_of(entries@, c@),
{
    let mut i: usize = 0;
    while i < entries.len()
        invariant
            i <= entries@.len(),
            forall|j: int| 0 <= j < i ==> entries@[j].0@ != c@,
        decreases entries@.len() - i,
    {
        if bytes_eq(&entries[i].0, c) {
            proof {
                lemma_held_of_first_match(entries@, i as int);
            }
            return entries[i].1;
        }
        i += 1;
    }
    proof {
        lemma_held_of_no_match(entries@, c@);
    }
    0
}

impl ColorBank {
    /// The amount held of color `c`.
    pub closed spec fn held(self, c: Seq<u8>) -> u64 {
        held_of(self.holdings@, c)
    }

    /// Empty custody.
    pub fn new() -> (r: ColorBank)
        ensures
            forall|c: Seq<u8>| r.held(c) == 0,
    {
        ColorBank { holdings: Vec::new() }
    }

    /// The index of the first entry for color `c`, if any.
    fn find(&self, c: &Vec<u8>) -> (r: Option<usize>)
        ensures
            match r {
                Some(i) => i < self.holdings@.len() && self.holdings@[i as int].0@ == c@ && (
                forall|j: int| 0 <= j < i ==> self.holdings@[j].0@ != c@) && self.held(c@)
                    == self.holdings@[i as int].1,
                None => forall|j: int| 0 <= j < self.holdings@.len() ==> self.holdings@[j].0@ != c@,
            },
    {
        let mut i: usize = 0;
        while i < self.holdings.len()
            invariant
                i <= self.holdings@.len(),
                forall|j: int| 0 <= j < i ==> self.holdings@[j].0@ != c@,
            decreases self.holdings@.len() - i,
        {
            if bytes_eq(&self.holdings[i].0, c) {
                proof {
                    lemma_held_of_first_match(self.holdings@, i as int);
                }
                return Some(i);
            }
            i += 1;
        }
        None
    }

    /// The amount held of color `c`; zero when nothing is held.
    pub fn amount(&self, c: &Vec<u8>) -> (r: u64)
        ensures
            r == self.held(c@),
    {
        match self.find(c) {
            Some(i) => self.holdings[i].1,
            None => {
                proof {
                    lemma_held_of_no_match(self.holdings@, c@);
                }
                0
            },
        }
    }

    /// Overwrite the amount held of one color.
    fn set(&mut self, c: &Vec<u8>, v: u64)
        ensures
            final(self).held(c@) == v,
            forall|c2: Seq<u8>| c2 != c@ ==> final(self).held(c2) == old(self).held(c2),
    {
        match self.find(c) {
            Some(i) => {
                proof {
                    let s = self.holdings@;
                    assert forall|c2: Seq<u8>|
                        held_of(s.update(i as int, (s[i as int].0, v)), c2) == (if c2 == c@ {
                            v
                        } else {
                            held_of(s, c2)
                        }) by {
                        lemma_held_of_update(s, i as int, v, c2);
                    }
                }
                self.holdings[i].1 = v;
            },
            None => {
                let key = clone_bytes(c);
                proof {
                    let s = self.holdings@;
                    let e = (key, v);
                    lemma_held_of_no_match(s, c@);
                    assert forall|c2: Seq<u8>|
                        held_of(s.push(e), c2) == (if c2 == c@ {
                            v
                        } else {
                            held_of(s, c2)
                        }) by {
                        lemma_held_of_push(s, e, c2);
                    }
                }
                self.holdings.push((key, v));
            },
        }
    }

    /// Take `amount` of color `c` into custody.
    pub fn deposit(&mut self, c: &Vec<u8>, amount: u64)
        requires
            old(self).held(c@) + amount <= u64::MAX,
        ensures
            final(self).held(c@) == old(self).held(c@) + amount,
            forall|c2: Seq<u8>| c2 != c@ ==> final(self).held(c2) == old(self).held(c2),
    {
        let b = self.amount(c);
        self.set(c, b + amount);
    }

    /// Release `amount` of color `c` from custody.
    pub fn withdraw(&mut self, c: &Vec<u8>, amount: u64)
        requires
            old(self).held(c@) >= amount,
        ensures
            final(self).held(c@) == old(self).held(c@) - amount,
            forall|c2: Seq<u8>| c2 != c@ ==> final(self).held(c2) == old(self).held(c2),
    {
        let b = self.amount(c);
        self.set(c, b - amount);
    }
}

} // verus!
