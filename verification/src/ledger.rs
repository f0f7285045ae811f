use vstd::prelude::*;
use crate::bridge_exit::TokenInfo;
use crate::u256::{u256_max, U256};

verus! {

/// Why a ledger operation is refused: a debit would drive a balance below
/// zero, or a credit would overflow the representable range.
#[derive(Clone, Copy, Debug, PartialEq, Eq, Structural)]
pub enum LedgerError {
    InsufficientBalance,
    Overflow,
}

/// The balance that a list of entries gives a token: the first entry with
/// the token's key, or zero where none exists.
spec fn bal_in(s: Seq<(TokenInfo, U256)>, t: TokenInfo) -> nat
    decreases s.len(),
{
    if s.len() == 0 {
        0
    } else if s[0].0 == t {
        s[0].1.as_nat()
    } else {
        bal_in(s.drop_first(), t)
    }
}

spec fn keys_unique(s: Seq<(TokenInfo, U256)>) -> bool {
    forall|i: int, j: int| 0 <= i < j < s.len() ==> s[i].0 != s[j].0
}

proof fn lemma_bal_at(s: Seq<(TokenInfo, U256)>, t: TokenInfo, i: int)
    requires
        0 <= i < s.len(),
        s[i].0 == t,
        forall|j: int| 0 <= j < i ==> s[j].0 != t,
    ensures
        bal_in(s, t) == s[i].1.as_nat(),
    decreases i,
{
    if i > 0 {
        let st = s.drop_first();
        assert forall|j: int| 0 <= j < i - 1 implies st[j].0 != t by {
            assert(st[j] == s[j + 1]);
        }
        lemma_bal_at(st, t, i - 1);
    }
}

proof fn lemma_bal_absent(s: Seq<(TokenInfo, U256)>, t: TokenInfo)
    requires
        forall|j: int| 0 <= j < s.len() ==> s[j].0 != t,
    ensures
        bal_in(s, t) == 0,
    decreases s.len(),
{
    if s.len() > 0 {
        let st = s.drop_first();
        assert forall|j: int| 0 <= j < st.len() implies st[j].0 != t by {
            assert(st[j] == s[j + 1]);
        }
        lemma_bal_absent(st, t);
    }
}

proof fn lemma_bal_update_at(s: Seq<(TokenInfo, U256)>, i: int, v: U256, u: TokenInfo)
    requires
        0 <= i < s.len(),
        forall|j: int| 0 <= j < s.len() && j != i ==> s[j].0 != s[i].0,
    ensures
        bal_in(s.update(i, (s[i].0, v)), u) == if u == s[i].0 {
            v.as_nat()
        } else {
            bal_in(s, u)
        },
    decreases i,
{
    let s2 = s.update(i, (s[i].0, v));
    if i == 0 {
        if u != s[0].0 {
            assert(s2.drop_first() =~= s.drop_first());
        }
    } else {
        assert(s2[0] == s[0]);
        let st = s.drop_first();
        assert(s2.drop_first() =~= st.update(i - 1, (s[i].0, v)));
        assert(st[i - 1] == s[i]);
        assert forall|j: int| 0 <= j < st.len() && j != i - 1 implies #[trigger] st[j].0 != st[i
            - 1].0 by {
            assert(st[j] == s[j + 1]);
        }
        lemma_bal_update_at(st, i - 1, v, u);
        assert(s[0].0 != s[i].0);
    }
}

proof fn lemma_bal_push_at(s: Seq<(TokenInfo, U256)>, t: TokenInfo, v: U256, u: TokenInfo)
    requires
        forall|j: int| 0 <= j < s.len() ==> s[j].0 != t,
    ensures
        bal_in(s.push((t, v)), u) == if u == t {
            v.as_nat()
        } else {
            bal_in(s, u)
        },
    decreases s.len(),
{
    let s2 = s.push((t, v));
    if s.len() == 0 {
        assert(s2[0] == (t, v));
        if u != t {
            assert(bal_in(s2.drop_first(), u) == 0);
        }
    } else {
        assert(s2[0] == s[0]);
        let st = s.drop_first();
        assert(s2.drop_first() =~= st.push((t, v)));
        assert forall|j: int| 0 <= j < st.len() implies st[j].0 != t by {
            assert(st[j] == s[j + 1]);
        }
        lemma_bal_push_at(st, t, v, u);
    }
}

/// Per-token running balances of one network. Every token has a balance:
/// one never seen stands at zero. No balance is ever negative, and keys are
/// unique in the underlying entry list.
#[derive(Clone, Debug)]
pub struct BalanceLedger {
    entries: Vec<(TokenInfo, U256)>,
}

impl View for BalanceLedger {
    type V = Map<TokenInfo, nat>;

    /// The ledger as a total mapping from token to balance.
    closed spec fn view(&self) -> Map<TokenInfo, nat> {
        Map::new(|t: TokenInfo| true, |t: TokenInfo| bal_in(self.entries@, t))
    }
}

impl BalanceLedger {
    /// The entry keys are pairwise distinct.
    pub closed spec fn wf(self) -> bool {
        keys_unique(self.entries@)
    }

    /// An empty ledger: every balance is zero.
    pub fn new() -> (r: BalanceLedger)
        ensures
            r.wf(),
            forall|t: TokenInfo| r@[t] == 0,
    {
        BalanceLedger { entries: Vec::new() }
    }

    /// The index of the entry holding a token, if one exists.
    fn find(&self, token: &TokenInfo) -> (r: Option<usize>)
        ensures
            match r {
                Some(i) => i < self.entries@.len() && self.entries@[i as int].0 == *token
                    && forall|j: int| 0 <= j < i ==> self.entries@[j].0 != *token,
                None => forall|j: int| 0 <= j < self.entries@.len() ==> self.entries@[j].0
                    != *token,
            },
    {
        let n = self.entries.len();
        let mut i: usize = 0;
        while i < n
            invariant
                i <= n,
                n == self.entries@.len(),
                forall|j: int| 0 <= j < i ==> self.entries@[j].0 != *token,
            decreases n - i,
        {
            if self.entries[i].0.eq_token(token) {
                return Some(i);
            }
            i = i + 1;
        }
        None
    }

    /// The current balance of a token; zero where the token was never seen.
    pub fn get(&self, token: &TokenInfo) -> (r: U256)
        ensures
            r.as_nat() == self@[*token],
    {
        match self.find(token) {
            Some(i) => {
                proof {
                    lemma_bal_at(self.entries@, *token, i as int);
                }
                self.entries[i].1
            },
            None => {
                proof {
                    lemma_bal_absent(self.entries@, *token);
                }
                U256::zero()
            },
        }
    }

    /// The ledger's entries, for callers that persist or display it: each
    /// listed token with its balance, every token with a balance listed.
    pub fn entries(&self) -> (r: Vec<(TokenInfo, U256)>)
        requires
            self.wf(),
        ensures
            forall|i: int| 0 <= i < r@.len() ==> #[trigger] r@[i].1.as_nat() == self@[r@[i].0],
            forall|t: TokenInfo| self@[t] != 0 ==> exists|i: int|
                0 <= i < r@.len() && #[trigger] r@[i].0 == t,
    {
        let n = self.entries.len();
        let mut out: Vec<(TokenInfo, U256)> = Vec::new();
        let mut i: usize = 0;
        while i < n
            invariant
                i <= n,
                n == self.entries@.len(),
                out@ == self.entries@.take(i as int),
            decreases n - i,
        {
            out.push(self.entries[i]);
            proof {
                assert(out@ =~= self.entries@.take(i as int + 1));
            }
            i = i + 1;
        }
        proof {
            assert(out@ =~= self.entries@);
            assert forall|i2: int| 0 <= i2 < out@.len() implies #[trigger] out@[i2].1.as_nat()
                == self@[out@[i2].0] by {
                lemma_bal_at(self.entries@, out@[i2].0, i2);
            }
            assert forall|t: TokenInfo| self@[t] != 0 implies exists|i2: int|
                0 <= i2 < out@.len() && #[trigger] out@[i2].0 == t by {
                if forall|j: int| 0 <= j < self.entries@.len() ==> #[trigger] self.entries@[j].0
                    != t {
                    lemma_bal_absent(self.entries@, t);
                }
            }
        }
        out
    }

    /// Credits a token, failing with Overflow where the sum would leave the
    /// 256-bit range; no other balance moves.
    pub fn credit(&mut self, token: &TokenInfo, amount: &U256) -> (r: Result<(), LedgerError>)
        requires
            old(self).wf(),
        ensures
            final(self).wf(),
            r is Ok <==> old(self)@[*token] + amount.as_nat() <= u256_max(),
            r is Ok ==> final(self)@ == old(self)@.insert(
                *token,
                (old(self)@[*token] + amount.as_nat()) as nat,
            ),
            r is Err ==> *final(self) == *old(self) && r == Err::<(), LedgerError>(
                LedgerError::Overflow,
            ),
    {
        match self.find(token) {
            Some(i) => {
                let cur = self.entries[i].1;
                proof {
                    lemma_bal_at(self.entries@, *token, i as int);
                }
                match cur.checked_add(*amount) {
                    Some(nv) => {
                        let ghost pre = self.entries@;
                        self.entries[i] = (self.entries[i].0, nv);
                        proof {
                            assert(pre.update(i as int, (pre[i as int].0, nv)) =~= self.entries@);
                            assert forall|u: TokenInfo| #[trigger] bal_in(self.entries@, u) == (
                            if u == *token {
                                nv.as_nat()
                            } else {
                                bal_in(pre, u)
                            }) by {
                                lemma_bal_update_at(pre, i as int, nv, u);
                            }
                            assert(self@ =~= old(self)@.insert(
                                *token,
                                (old(self)@[*token] + amount.as_nat()) as nat,
                            ));
                            assert forall|a: int, b: int|
                                0 <= a < b < self.entries@.len() implies self.entries@[a].0
                                != self.entries@[b].0 by {
                                assert(self.entries@[a].0 == pre[a].0);
                                assert(self.entries@[b].0 == pre[b].0);
                            }
                        }
                        Ok(())
                    },
                    None => Err(LedgerError::Overflow),
                }
            },
            None => {
                proof {
                    lemma_bal_absent(self.entries@, *token);
                    amount.lemma_as_nat_bound();
                }
                let ghost pre = self.entries@;
                self.entries.push((*token, *amount));
                proof {
                    assert forall|u: TokenInfo| #[trigger] bal_in(self.entries@, u) == (if u
                        == *token {
                        amount.as_nat()
                    } else {
                        bal_in(pre, u)
                    }) by {
                        lemma_bal_push_at(pre, *token, *amount, u);
                    }
                    assert(self@ =~= old(self)@.insert(
                        *token,
                        (old(self)@[*token] + amount.as_nat()) as nat,
                    ));
                    assert forall|a: int, b: int|
                        0 <= a < b < self.entries@.len() implies self.entries@[a].0
                        != self.entries@[b].0 by {
                        if b < pre.len() {
                            assert(self.entries@[a].0 == pre[a].0);
                            assert(self.entries@[b].0 == pre[b].0);
                        } else {
                            assert(self.entries@[b].0 == *token);
                            assert(self.entries@[a].0 == pre[a].0);
                        }
                    }
                }
                Ok(())
            },
        }
    }

    /// Debits a token, failing with InsufficientBalance where the amount
    /// exceeds the balance; no other balance moves.
    pub fn debit(&mut self, token: &TokenInfo, amount: &U256) -> (r: Result<(), LedgerError>)
        requires
            old(self).wf(),
        ensures
            final(self).wf(),
            r is Ok <==> amount.as_nat() <= old(self)@[*token],
            r is Ok ==> final(self)@ == old(self)@.insert(
                *token,
                (old(self)@[*token] - amount.as_nat()) as nat,
            ),
            r is Err ==> *final(self) == *old(self) && r == Err::<(), LedgerError>(
                LedgerError::InsufficientBalance,
            ),
    {
        match self.find(token) {
            Some(i) => {
                let cur = self.entries[i].1;
                proof {
                    lemma_bal_at(self.entries@, *token, i as int);
                }
                match cur.checked_sub(*amount) {
                    Some(nv) => {
                        let ghost pre = self.entries@;
                        self.entries[i] = (self.entries[i].0, nv);
                        proof {
                            assert(pre.update(i as int, (pre[i as int].0, nv)) =~= self.entries@);
                            assert forall|u: TokenInfo| #[trigger] bal_in(self.entries@, u) == (
                            if u == *token {
                                nv.as_nat()
                            } else {
                                bal_in(pre, u)
                            }) by {
                                lemma_bal_update_at(pre, i as int, nv, u);
                            }
                            assert(self@ =~= old(self)@.insert(
                                *token,
                                (old(self)@[*token] - amount.as_nat()) as nat,
                            ));
                            assert forall|a: int, b: int|
                                0 <= a < b < self.entries@.len() implies self.entries@[a].0
                                != self.entries@[b].0 by {
                                assert(self.entries@[a].0 == pre[a].0);
                                assert(self.entries@[b].0 == pre[b].0);
                            }
                        }
                        Ok(())
                    },
                    None => Err(LedgerError::InsufficientBalance),
                }
            },
            None => {
                proof {
                    lemma_bal_absent(self.entries@, *token);
                }
                if amount.lo == 0 && amount.hi == 0 {
                    proof {
                        assert(self@ =~= old(self)@.insert(
                            *token,
                            (old(self)@[*token] - amount.as_nat()) as nat,
                        ));
                    }
                    Ok(())
                } else {
                    Err(LedgerError::InsufficientBalance)
                }
            },
        }
    }
}

} // verus!
