use vstd::prelude::*;
use crate::bridge_exit::{NullifierKey, TokenInfo};
use crate::ledger::BalanceLedger;
use crate::local_exit_tree::LocalExitTree;
use crate::nullifier::NullifierSet;

verus! {

/// The mathematical content of a network state: the ordered exit leaves,
/// the total balance map, and the set of consumed claim keys.
#[verifier::ext_equal]
pub struct StateModel {
    pub network_id: u32,
    pub leaves: Seq<Seq<u8>>,
    pub balances: Map<TokenInfo, nat>,
    pub consumed: Set<NullifierKey>,
}

/// One network's committed state at a settled height: its exit tree,
/// balance ledger and nullifier set. A transition consumes the state by
/// value and produces a fresh one; nothing is mutated in place.
#[derive(Clone, Debug)]
pub struct NetworkState {
    pub network_id: u32,
    pub exit_tree: LocalExitTree,
    pub balance_ledger: BalanceLedger,
    pub nullifier_set: NullifierSet,
}

impl NetworkState {
    /// What the state means, free of representation.
    pub open spec fn model(self) -> StateModel {
        StateModel {
            network_id: self.network_id,
            leaves: self.exit_tree@,
            balances: self.balance_ledger@,
            consumed: self.nullifier_set@,
        }
    }

    /// The state's internal invariant: ledger keys unique, tree within its
    /// fixed height.
    pub open spec fn wf(self) -> bool {
        &&& self.balance_ledger.wf()
        &&& self.exit_tree@.len() <= 0x1_0000_0000
    }

    /// A genesis state: empty tree, every balance zero, nothing consumed.
    pub fn new(network_id: u32) -> (r: NetworkState)
        ensures
            r.wf(),
            r.model().network_id == network_id,
            r.model().leaves == Seq::<Seq<u8>>::empty(),
            forall|t: TokenInfo| r.model().balances[t] == 0,
            r.model().consumed == Set::<NullifierKey>::empty(),
    {
        NetworkState {
            network_id,
            exit_tree: LocalExitTree::new(),
            balance_ledger: BalanceLedger::new(),
            nullifier_set: NullifierSet::new(),
        }
    }
}

} // verus!
