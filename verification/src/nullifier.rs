use vstd::prelude::*;
use crate::bridge_exit::NullifierKey;

verus! {

/// The error a replayed claim raises: its nullifier key was consumed before.
#[derive(Clone, Copy, Debug, PartialEq, Eq, Structural)]
pub enum NullifierError {
    AlreadyClaimed,
}

/// The consumed inbound claims of one network. Keys only ever enter; none
/// is ever removed.
#[derive(Clone, Debug)]
pub struct NullifierSet {
    keys: Vec<NullifierKey>,
}

impl View for NullifierSet {
    type V = Set<NullifierKey>;

    /// The set of consumed keys.
    closed spec fn view(&self) -> Set<NullifierKey> {
        Set::new(|k: NullifierKey| self.keys@.contains(k))
    }
}

impl NullifierSet {
    /// An empty set: nothing consumed yet.
    pub fn new() -> (r: NullifierSet)
        ensures
            r@ == Set::<NullifierKey>::empty(),
    {
        let r = NullifierSet { keys: Vec::new() };
        proof {
            assert(r@ =~= Set::<NullifierKey>::empty());
        }
        r
    }

    /// Whether a key was consumed already.
    pub fn contains(&self, key: &NullifierKey) -> (r: bool)
        ensures
            r == self@.contains(*key),
    {
        let n = self.keys.len();
        let mut i: usize = 0;
        while i < n
            invariant
                i <= n,
                n == self.keys@.len(),
                forall|j: int| 0 <= j < i ==> self.keys@[j] != *key,
            decreases n - i,
        {
            if self.keys[i] == *key {
                return true;
            }
            i = i + 1;
        }
        false
    }

    /// The consumed keys, for callers that persist or display the set.
    pub fn keys(&self) -> (r: Vec<NullifierKey>)
        ensures
            forall|i: int| 0 <= i < r@.len() ==> self@.contains(#[trigger] r@[i]),
            forall|k: NullifierKey| self@.contains(k) ==> r@.contains(k),
    {
        let n = self.keys.len();
        let mut out: Vec<NullifierKey> = Vec::new();
        let mut i: usize = 0;
        while i < n
            invariant
                i <= n,
                n == self.keys@.len(),
                out@ == self.keys@.take(i as int),
            decreases n - i,
        {
            out.push(self.keys[i]);
            proof {
                assert(out@ =~= self.keys@.take(i as int + 1));
            }
            i = i + 1;
        }
        proof {
            assert(out@ =~= self.keys@);
        }
        out
    }

    /// Consumes a key: fails with AlreadyClaimed where it is present,
    /// records it otherwise.
    pub fn consume(&mut self, key: &NullifierKey) -> (r: Result<(), NullifierError>)
        ensures
            r is Ok <==> !old(self)@.contains(*key),
            r is Ok ==> final(self)@ == old(self)@.insert(*key),
            r is Err ==> *final(self) == *old(self) && r == Err::<(), NullifierError>(
                NullifierError::AlreadyClaimed,
            ),
    {
        if self.contains(key) {
            return Err(NullifierError::AlreadyClaimed);
        }
        let ghost pre = self.keys@;
        self.keys.push(*key);
        proof {
            assert forall|x: NullifierKey| #[trigger]
                self.keys@.contains(x) <==> (pre.contains(x) || x == *key) by {
                if self.keys@.contains(x) {
                    let idx = choose|idx: int|
                        0 <= idx < self.keys@.len() && self.keys@[idx] == x;
                    if idx < pre.len() {
                        assert(pre[idx] == x);
                    }
                }
                if pre.contains(x) {
                    let idx = choose|idx: int| 0 <= idx < pre.len() && pre[idx] == x;
                    assert(self.keys@[idx] == x);
                }
                assert(self.keys@[pre.len() as int] == *key);
            }
            assert(self@ =~= old(self)@.insert(*key));
        }
        Ok(())
    }
}

} // verus!
