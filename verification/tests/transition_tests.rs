use pessimistic_proof::bridge_exit::{BridgeExit, ImportedBridgeExit, TokenInfo};
use pessimistic_proof::ledger::BalanceLedger;
use pessimistic_proof::local_exit_tree::LocalExitTree;
use pessimistic_proof::nullifier::NullifierSet;
use pessimistic_proof::output::{encode_output, to_output_words};
use pessimistic_proof::state::NetworkState;
use pessimistic_proof::transition::{
    generate_pessimistic_proof, MultiBatchHeader, ProofError,
};
use pessimistic_proof::u256::U256;

fn token_x() -> TokenInfo {
    TokenInfo {
        origin_network: 3,
        origin_token_address: [0xaa; 20],
    }
}

fn bridge_exit(token: TokenInfo, amount: u64) -> BridgeExit {
    BridgeExit {
        dest_network: 2,
        token,
        amount: U256::from_u64(amount),
        dest_address: [0x11; 20],
        metadata_hash: None,
    }
}

/// A state for network 1 holding `balance` of TokenX, empty tree and
/// nullifier set.
fn state_with_balance(balance: u64) -> NetworkState {
    let mut ledger = BalanceLedger::new();
    ledger.credit(&token_x(), &U256::from_u64(balance)).unwrap();
    NetworkState {
        network_id: 1,
        exit_tree: LocalExitTree::new(),
        balance_ledger: ledger,
        nullifier_set: NullifierSet::new(),
    }
}

fn empty_header() -> MultiBatchHeader {
    MultiBatchHeader {
        bridge_exits: Vec::new(),
        imported_bridge_exits: Vec::new(),
        signer: [0x55; 20],
        l1_info_root: [0; 32],
        prev_local_exit_root: None,
    }
}

/// An imported exit whose inclusion proof is valid, together with the L1
/// info root it proves against: the claimed exit sits alone in a remote
/// exit tree whose root plays the L1 commitment.
fn valid_import(exit: BridgeExit, origin_network: u32) -> (ImportedBridgeExit, [u8; 32]) {
    let mut remote = LocalExitTree::new();
    let leaf = pessimistic_proof::bridge_exit::leaf_hash(&exit);
    let root = remote.append(&leaf);
    let proof = remote.prove(0);
    (
        ImportedBridgeExit {
            bridge_exit: exit,
            origin_network,
            leaf_index: 0,
            inclusion_proof: proof,
        },
        root,
    )
}

#[test]
fn empty_batch_keeps_root_and_ledger() {
    let state = state_with_balance(100);
    let prev = state.exit_tree.root();
    let (s2, out) = generate_pessimistic_proof(state, &empty_header()).unwrap();
    assert_eq!(out.prev_local_exit_root, prev);
    assert_eq!(out.new_local_exit_root, prev);
    assert_eq!(s2.balance_ledger.get(&token_x()), U256::from_u64(100));
    assert_eq!(s2.exit_tree.leaf_count(), 0);
}

#[test]
fn single_exit_debits_and_grows_tree() {
    let state = state_with_balance(100);
    let mut header = empty_header();
    header.bridge_exits.push(bridge_exit(token_x(), 40));
    let (s2, out) = generate_pessimistic_proof(state, &header).unwrap();
    assert_eq!(s2.balance_ledger.get(&token_x()), U256::from_u64(60));
    assert_eq!(s2.exit_tree.leaf_count(), 1);
    assert_ne!(out.new_local_exit_root, out.prev_local_exit_root);
}

#[test]
fn overdraft_is_rejected_and_state_observable_unchanged() {
    let state = state_with_balance(100);
    let kept = state.clone();
    let mut header = empty_header();
    header.bridge_exits.push(bridge_exit(token_x(), 150));
    let err = generate_pessimistic_proof(state, &header).unwrap_err();
    assert_eq!(err, ProofError::InsufficientBalance);
    assert_eq!(kept.balance_ledger.get(&token_x()), U256::from_u64(100));
    assert_eq!(kept.exit_tree.leaf_count(), 0);
}

#[test]
fn claimed_previous_root_is_checked() {
    let state = state_with_balance(100);
    let good_root = state.exit_tree.root();

    let mut header = empty_header();
    header.prev_local_exit_root = Some([0xff; 32]);
    let err = generate_pessimistic_proof(state.clone(), &header).unwrap_err();
    assert_eq!(err, ProofError::RootMismatch);

    header.prev_local_exit_root = Some(good_root);
    assert!(generate_pessimistic_proof(state, &header).is_ok());
}

#[test]
fn valid_import_credits_balance() {
    let state = state_with_balance(100);
    let (import, l1_root) = valid_import(bridge_exit(token_x(), 25), 7);
    let mut header = empty_header();
    header.l1_info_root = l1_root;
    header.imported_bridge_exits.push(import);
    let (s2, _) = generate_pessimistic_proof(state, &header).unwrap();
    assert_eq!(s2.balance_ledger.get(&token_x()), U256::from_u64(125));
}

#[test]
fn import_against_wrong_root_is_rejected() {
    let state = state_with_balance(100);
    let (import, _) = valid_import(bridge_exit(token_x(), 25), 7);
    let mut header = empty_header();
    header.l1_info_root = [0xcc; 32];
    header.imported_bridge_exits.push(import);
    let err = generate_pessimistic_proof(state, &header).unwrap_err();
    assert_eq!(err, ProofError::InvalidInclusionProof);
}

#[test]
fn replay_within_one_batch_is_rejected() {
    let state = state_with_balance(100);
    let (import, l1_root) = valid_import(bridge_exit(token_x(), 25), 7);
    let mut header = empty_header();
    header.l1_info_root = l1_root;
    header.imported_bridge_exits.push(import.clone());
    header.imported_bridge_exits.push(import);
    let err = generate_pessimistic_proof(state, &header).unwrap_err();
    assert_eq!(err, ProofError::AlreadyClaimed);
}

#[test]
fn replay_across_batches_is_rejected() {
    let state = state_with_balance(100);
    let (import, l1_root) = valid_import(bridge_exit(token_x(), 25), 7);
    let mut header = empty_header();
    header.l1_info_root = l1_root;
    header.imported_bridge_exits.push(import);

    let (s1, _) = generate_pessimistic_proof(state, &header).unwrap();
    assert_eq!(s1.balance_ledger.get(&token_x()), U256::from_u64(125));

    let err = generate_pessimistic_proof(s1.clone(), &header).unwrap_err();
    assert_eq!(err, ProofError::AlreadyClaimed);
    // Only the first credit stands.
    assert_eq!(s1.balance_ledger.get(&token_x()), U256::from_u64(125));
}

#[test]
fn credit_overflow_is_rejected() {
    let mut ledger = BalanceLedger::new();
    let max = U256 {
        lo: u128::MAX,
        hi: u128::MAX,
    };
    ledger.credit(&token_x(), &max).unwrap();
    let state = NetworkState {
        network_id: 1,
        exit_tree: LocalExitTree::new(),
        balance_ledger: ledger,
        nullifier_set: NullifierSet::new(),
    };
    let (import, l1_root) = valid_import(bridge_exit(token_x(), 1), 7);
    let mut header = empty_header();
    header.l1_info_root = l1_root;
    header.imported_bridge_exits.push(import);
    let err = generate_pessimistic_proof(state, &header).unwrap_err();
    assert_eq!(err, ProofError::Overflow);
}

#[test]
fn transition_is_deterministic_to_the_byte() {
    let state = state_with_balance(100);
    let (import, l1_root) = valid_import(bridge_exit(token_x(), 25), 7);
    let mut header = empty_header();
    header.l1_info_root = l1_root;
    header.bridge_exits.push(bridge_exit(token_x(), 40));
    header.imported_bridge_exits.push(import);

    let (_, out1) = generate_pessimistic_proof(state.clone(), &header).unwrap();
    let (_, out2) = generate_pessimistic_proof(state, &header.clone()).unwrap();
    let bytes1 = encode_output(&out1);
    let bytes2 = encode_output(&out2);
    assert_eq!(bytes1, bytes2);
    assert_eq!(to_output_words(&bytes1), to_output_words(&bytes2));
}

#[test]
fn value_is_conserved_per_token() {
    // Old balance + credited == new balance + debited, exactly.
    let state = state_with_balance(100);
    let (import, l1_root) = valid_import(bridge_exit(token_x(), 25), 7);
    let mut header = empty_header();
    header.l1_info_root = l1_root;
    header.bridge_exits.push(bridge_exit(token_x(), 40));
    header.imported_bridge_exits.push(import);
    let (s2, _) = generate_pessimistic_proof(state, &header).unwrap();
    assert_eq!(s2.balance_ledger.get(&token_x()), U256::from_u64(100 + 25 - 40));
}

#[test]
fn exits_are_processed_in_header_order() {
    // Draining the balance in two steps only works in the order listed.
    let state = state_with_balance(100);
    let mut header = empty_header();
    header.bridge_exits.push(bridge_exit(token_x(), 100));
    header.bridge_exits.push(bridge_exit(token_x(), 100));
    let err = generate_pessimistic_proof(state, &header).unwrap_err();
    assert_eq!(err, ProofError::InsufficientBalance);
}
