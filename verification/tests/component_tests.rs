use pessimistic_proof::bridge_exit::{leaf_hash, BridgeExit, NullifierKey, TokenInfo};
use pessimistic_proof::ledger::{BalanceLedger, LedgerError};
use pessimistic_proof::local_exit_tree::{InclusionError, LocalExitTree};
use pessimistic_proof::nullifier::{NullifierError, NullifierSet};
use pessimistic_proof::output::{decode_output, encode_output, to_output_words, OUTPUT_BYTES_LEN};
use pessimistic_proof::transition::PessimisticProofOutput;
use pessimistic_proof::u256::U256;

fn token(tag: u8) -> TokenInfo {
    TokenInfo {
        origin_network: 3,
        origin_token_address: [tag; 20],
    }
}

fn sample_exit(tag: u8, amount: u64) -> BridgeExit {
    BridgeExit {
        dest_network: 2,
        token: token(tag),
        amount: U256::from_u64(amount),
        dest_address: [0x11; 20],
        metadata_hash: None,
    }
}

#[test]
fn u256_checked_add_exact_values() {
    let a = U256::from_u64(40);
    let b = U256::from_u64(2);
    assert_eq!(a.checked_add(b), Some(U256::from_u64(42)));

    let max = U256 {
        lo: u128::MAX,
        hi: u128::MAX,
    };
    assert_eq!(max.checked_add(U256::from_u64(1)), None);
    assert_eq!(max.checked_add(U256::zero()), Some(max));

    // Carry across the limb boundary.
    let lo_max = U256 {
        lo: u128::MAX,
        hi: 0,
    };
    let carried = lo_max.checked_add(U256::from_u64(1)).unwrap();
    assert_eq!(carried, U256 { lo: 0, hi: 1 });
}

#[test]
fn u256_checked_sub_exact_values() {
    let a = U256::from_u64(40);
    assert_eq!(a.checked_sub(U256::from_u64(15)), Some(U256::from_u64(25)));
    assert_eq!(U256::from_u64(1).checked_sub(U256::from_u64(2)), None);

    // Borrow across the limb boundary.
    let hi_one = U256 { lo: 0, hi: 1 };
    let borrowed = hi_one.checked_sub(U256::from_u64(1)).unwrap();
    assert_eq!(
        borrowed,
        U256 {
            lo: u128::MAX,
            hi: 0
        }
    );
}

#[test]
fn ledger_debit_and_credit_exact_values() {
    let mut ledger = BalanceLedger::new();
    let t = token(0xaa);
    assert_eq!(ledger.get(&t), U256::zero());
    ledger.credit(&t, &U256::from_u64(100)).unwrap();
    assert_eq!(ledger.get(&t), U256::from_u64(100));
    ledger.debit(&t, &U256::from_u64(40)).unwrap();
    assert_eq!(ledger.get(&t), U256::from_u64(60));
    assert_eq!(
        ledger.debit(&t, &U256::from_u64(61)),
        Err(LedgerError::InsufficientBalance)
    );
    assert_eq!(ledger.get(&t), U256::from_u64(60));

    let other = token(0xbb);
    assert_eq!(ledger.get(&other), U256::zero());
    assert_eq!(
        ledger.debit(&other, &U256::from_u64(1)),
        Err(LedgerError::InsufficientBalance)
    );
}

#[test]
fn ledger_credit_overflow_exact_boundary() {
    let mut ledger = BalanceLedger::new();
    let t = token(0xaa);
    let almost = U256 {
        lo: u128::MAX - 1,
        hi: u128::MAX,
    };
    ledger.credit(&t, &almost).unwrap();
    ledger.credit(&t, &U256::from_u64(1)).unwrap();
    assert_eq!(
        ledger.credit(&t, &U256::from_u64(1)),
        Err(LedgerError::Overflow)
    );
}

#[test]
fn nullifier_consume_then_replay() {
    let mut set = NullifierSet::new();
    let k = NullifierKey {
        origin_network: 7,
        leaf_index: 0,
    };
    assert!(!set.contains(&k));
    set.consume(&k).unwrap();
    assert!(set.contains(&k));
    assert_eq!(set.consume(&k), Err(NullifierError::AlreadyClaimed));
}

#[test]
fn tree_root_depends_only_on_leaf_order() {
    let a = leaf_hash(&sample_exit(0xaa, 1));
    let b = leaf_hash(&sample_exit(0xbb, 2));

    let mut t1 = LocalExitTree::new();
    t1.append(&a);
    let root_ab = t1.append(&b);

    let mut t2 = LocalExitTree::new();
    t2.append(&b);
    let root_ba = t2.append(&a);

    // Order sensitivity: [A, B] and [B, A] commit to different roots.
    assert_ne!(root_ab, root_ba);

    // Same ordered leaves always give the same root.
    let mut t3 = LocalExitTree::new();
    t3.append(&a);
    assert_eq!(t3.append(&b), root_ab);
    assert_eq!(t1.root(), root_ab);
}

#[test]
fn tree_proofs_fail_against_the_other_ordering() {
    let a = leaf_hash(&sample_exit(0xaa, 1));
    let b = leaf_hash(&sample_exit(0xbb, 2));

    let mut t1 = LocalExitTree::new();
    t1.append(&a);
    let root_ab = t1.append(&b);

    let mut t2 = LocalExitTree::new();
    t2.append(&b);
    let root_ba = t2.append(&a);

    let proof = t1.prove(0);
    assert_eq!(
        LocalExitTree::verify_inclusion(&root_ab, 0, &a, &proof),
        Ok(())
    );
    assert_eq!(
        LocalExitTree::verify_inclusion(&root_ba, 0, &a, &proof),
        Err(InclusionError::HashMismatch)
    );
}

#[test]
fn tree_proof_length_is_checked_apart() {
    let a = leaf_hash(&sample_exit(0xaa, 1));
    let mut t = LocalExitTree::new();
    let root = t.append(&a);
    let mut proof = t.prove(0);
    assert_eq!(proof.len(), 32);
    proof.pop();
    assert_eq!(
        LocalExitTree::verify_inclusion(&root, 0, &a, &proof),
        Err(InclusionError::MalformedProofLength)
    );
}

#[test]
fn tree_proves_every_index() {
    let leaves: Vec<[u8; 32]> = (0..5u8)
        .map(|i| leaf_hash(&sample_exit(i, i as u64 + 1)))
        .collect();
    let mut t = LocalExitTree::new();
    for leaf in &leaves {
        t.append(leaf);
    }
    let root = t.root();
    for (i, leaf) in leaves.iter().enumerate() {
        let proof = t.prove(i);
        assert_eq!(
            LocalExitTree::verify_inclusion(&root, i as u32, leaf, &proof),
            Ok(())
        );
        // The proof names the index: it does not verify elsewhere.
        assert_eq!(
            LocalExitTree::verify_inclusion(&root, (i as u32) + 1, leaf, &proof),
            Err(InclusionError::HashMismatch)
        );
    }
}

#[test]
fn tree_root_is_not_the_leaf() {
    // Would fail if the hashing primitive handed its input back unchanged.
    let a = leaf_hash(&sample_exit(0xaa, 1));
    let mut t = LocalExitTree::new();
    let root = t.append(&a);
    assert_ne!(root, a);
    assert_ne!(root, [0u8; 32]);
}

#[test]
fn output_encoding_exact_bytes() {
    let out = PessimisticProofOutput {
        prev_local_exit_root: [1; 32],
        new_local_exit_root: [2; 32],
        batch_commitment: [3; 32],
        signer: [4; 20],
        network_id: 0x0a0b0c0d,
    };
    let bytes = encode_output(&out);
    assert_eq!(bytes.len(), OUTPUT_BYTES_LEN);
    let mut expected = vec![1u8];
    expected.extend_from_slice(&[1; 32]);
    expected.extend_from_slice(&[2; 32]);
    expected.extend_from_slice(&[3; 32]);
    expected.extend_from_slice(&[4; 20]);
    expected.extend_from_slice(&[0x0d, 0x0c, 0x0b, 0x0a]);
    assert_eq!(bytes, expected);
}

#[test]
fn output_words_pack_little_endian_with_padding() {
    let bytes = vec![1u8, 2, 3, 4, 5];
    let words = to_output_words(&bytes);
    assert_eq!(
        words,
        vec![
            u32::from_le_bytes([1, 2, 3, 4]),
            u32::from_le_bytes([5, 0, 0, 0])
        ]
    );
    assert_eq!(to_output_words(&Vec::new()), Vec::<u32>::new());
    let exact = vec![9u8, 8, 7, 6];
    assert_eq!(to_output_words(&exact), vec![u32::from_le_bytes([9, 8, 7, 6])]);
}

#[test]
fn metadata_hash_changes_the_leaf() {
    let mut e1 = sample_exit(0xaa, 1);
    let mut e2 = sample_exit(0xaa, 1);
    e1.metadata_hash = None;
    e2.metadata_hash = Some([0; 32]);
    assert_ne!(leaf_hash(&e1), leaf_hash(&e2));
}

#[test]
fn output_decoding_round_trips() {
    let out = PessimisticProofOutput {
        prev_local_exit_root: [7; 32],
        new_local_exit_root: [8; 32],
        batch_commitment: [9; 32],
        signer: [1; 20],
        network_id: 42,
    };
    let bytes = encode_output(&out);
    let back = decode_output(&bytes).unwrap();
    assert_eq!(back.prev_local_exit_root, out.prev_local_exit_root);
    assert_eq!(back.new_local_exit_root, out.new_local_exit_root);
    assert_eq!(back.batch_commitment, out.batch_commitment);
    assert_eq!(back.signer, out.signer);
    assert_eq!(back.network_id, out.network_id);

    // A wrong length and a wrong version byte are both rejected.
    assert!(decode_output(&bytes[1..]).is_none());
    let mut wrong = bytes.clone();
    wrong[0] = 2;
    assert!(decode_output(&wrong).is_none());
}
