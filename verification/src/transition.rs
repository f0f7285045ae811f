use vstd::prelude::*;
use vstd::bytes::{spec_u32_to_le_bytes, u32_to_le_bytes};
use crate::bridge_exit::{
    bridge_exit_bytes, encode_bridge_exit, encode_imported_exit, extend_bytes, imported_exit_bytes,
    leaf_hash, leaf_hash_of, BridgeExit, ImportedBridgeExit, NullifierKey, TokenInfo,
};
use crate::keccak::{digest_eq, keccak256, keccak_of, Digest};
use crate::ledger::BalanceLedger;
use crate::local_exit_tree::{climb, tree_root_of, LocalExitTree, TREE_DEPTH};
use crate::nullifier::NullifierSet;
use crate::state::{NetworkState, StateModel};
use crate::u256::u256_max;

verus! {

/// Why a transition is rejected, each variant tied to the step that raises
/// it and to nothing else.
#[derive(Clone, Copy, Debug, PartialEq, Eq, Structural)]
pub enum ProofError {
    RootMismatch,
    InsufficientBalance,
    Overflow,
    InvalidInclusionProof,
    AlreadyClaimed,
}

/// The untrusted description of one proposed transition: outbound exits in
/// emission order, inbound claims, the signer, the shared L1 info root the
/// claims are proven against, and an optional claimed previous root.
#[derive(Clone, Debug)]
pub struct MultiBatchHeader {
    pub bridge_exits: Vec<BridgeExit>,
    pub imported_bridge_exits: Vec<ImportedBridgeExit>,
    pub signer: [u8; 20],
    pub l1_info_root: Digest,
    pub prev_local_exit_root: Option<Digest>,
}

/// The values exposed outside the proving boundary: the roots before and
/// after, a commitment to the batch contents, the signer and the network.
#[derive(Clone, Copy, Debug)]
pub struct PessimisticProofOutput {
    pub prev_local_exit_root: Digest,
    pub new_local_exit_root: Digest,
    pub batch_commitment: Digest,
    pub signer: [u8; 20],
    pub network_id: u32,
}

/// The mathematical content of a public output.
#[verifier::ext_equal]
pub struct OutputModel {
    pub prev_root: Seq<u8>,
    pub new_root: Seq<u8>,
    pub batch_commitment: Seq<u8>,
    pub signer: Seq<u8>,
    pub network_id: u32,
}

impl PessimisticProofOutput {
    /// What the output means, free of representation.
    pub open spec fn model(self) -> OutputModel {
        OutputModel {
            prev_root: self.prev_local_exit_root@,
            new_root: self.new_local_exit_root@,
            batch_commitment: self.batch_commitment@,
            signer: self.signer@,
            network_id: self.network_id,
        }
    }
}

/// Debits the outbound exits one by one, in order; the first exit whose
/// amount exceeds its token's balance stops the batch.
pub open spec fn apply_exits(balances: Map<TokenInfo, nat>, exits: Seq<BridgeExit>) -> Result<
    Map<TokenInfo, nat>,
    ProofError,
>
    decreases exits.len(),
{
    if exits.len() == 0 {
        Ok(balances)
    } else {
        let e = exits[0];
        if e.amount.as_nat() <= balances[e.token] {
            apply_exits(
                balances.insert(e.token, (balances[e.token] - e.amount.as_nat()) as nat),
                exits.drop_first(),
            )
        } else {
            Err(ProofError::InsufficientBalance)
        }
    }
}

/// Whether an inbound claim's inclusion proof checks out against the shared
/// L1 info root.
pub open spec fn import_proof_ok(ie: ImportedBridgeExit, l1_root: Seq<u8>) -> bool {
    &&& ie.inclusion_proof@.len() == TREE_DEPTH
    &&& climb(leaf_hash_of(ie.bridge_exit), ie.leaf_index as nat, ie.inclusion_proof.deep_view())
        == l1_root
}

/// Consumes the inbound claims one by one: each must prove inclusion, must
/// not have been claimed before, and must credit without overflow.
pub open spec fn apply_imports(
    balances: Map<TokenInfo, nat>,
    consumed: Set<NullifierKey>,
    imports: Seq<ImportedBridgeExit>,
    l1_root: Seq<u8>,
) -> Result<(Map<TokenInfo, nat>, Set<NullifierKey>), ProofError>
    decreases imports.len(),
{
    if imports.len() == 0 {
        Ok((balances, consumed))
    } else {
        let ie = imports[0];
        let t = ie.bridge_exit.token;
        let a = ie.bridge_exit.amount.as_nat();
        if !import_proof_ok(ie, l1_root) {
            Err(ProofError::InvalidInclusionProof)
        } else if consumed.contains(ie.key_spec()) {
            Err(ProofError::AlreadyClaimed)
        } else if balances[t] + a <= u256_max() {
            apply_imports(
                balances.insert(t, (balances[t] + a) as nat),
                consumed.insert(ie.key_spec()),
                imports.drop_first(),
                l1_root,
            )
        } else {
            Err(ProofError::Overflow)
        }
    }
}

/// The concatenated encodings of the outbound exits, in order.
pub open spec fn cat_exits(s: Seq<BridgeExit>) -> Seq<u8>
    decreases s.len(),
{
    if s.len() == 0 {
        Seq::empty()
    } else {
        bridge_exit_bytes(s[0]) + cat_exits(s.drop_first())
    }
}

/// The concatenated encodings of the inbound claims, in order.
pub open spec fn cat_imports(s: Seq<ImportedBridgeExit>) -> Seq<u8>
    decreases s.len(),
{
    if s.len() == 0 {
        Seq::empty()
    } else {
        imported_exit_bytes(s[0]) + cat_imports(s.drop_first())
    }
}

/// The bytes the batch commitment hashes: both lists length-prefixed and in
/// order, then the signer.
pub open spec fn batch_bytes(h: MultiBatchHeader) -> Seq<u8> {
    spec_u32_to_le_bytes(h.bridge_exits@.len() as u32) + cat_exits(h.bridge_exits@)
        + spec_u32_to_le_bytes(h.imported_bridge_exits@.len() as u32) + cat_imports(
        h.imported_bridge_exits@,
    ) + h.signer@
}

/// The new leaf sequence: the old one followed by each exit's leaf, in the
/// header's order.
pub open spec fn leaves_after(leaves: Seq<Seq<u8>>, exits: Seq<BridgeExit>) -> Seq<Seq<u8>> {
    leaves + exits.map_values(|e: BridgeExit| leaf_hash_of(e))
}

/// The whole transition, mathematically: the previous-root check, the
/// outbound debits, the inbound claims, then the new state and output.
pub open spec fn transition(s: StateModel, h: MultiBatchHeader) -> Result<
    (StateModel, OutputModel),
    ProofError,
> {
    let prev_root = tree_root_of(s.leaves);
    if h.prev_local_exit_root matches Some(claimed) && claimed@ != prev_root {
        Err(ProofError::RootMismatch)
    } else {
        match apply_exits(s.balances, h.bridge_exits@) {
            Err(e) => Err(e),
            Ok(b1) => match apply_imports(b1, s.consumed, h.imported_bridge_exits@, h.l1_info_root@) {
                Err(e) => Err(e),
                Ok((b2, c2)) => {
                    let leaves2 = leaves_after(s.leaves, h.bridge_exits@);
                    Ok(
                        (
                            StateModel {
                                network_id: s.network_id,
                                leaves: leaves2,
                                balances: b2,
                                consumed: c2,
                            },
                            OutputModel {
                                prev_root: prev_root,
                                new_root: tree_root_of(leaves2),
                                batch_commitment: keccak_of(batch_bytes(h)),
                                signer: h.signer@,
                                network_id: s.network_id,
                            },
                        ),
                    )
                },
            },
        }
    }
}

/// Splitting the debit fold at a prefix: an error in the prefix decides the
/// whole, a success continues with the rest.
pub proof fn lemma_apply_exits_split(b: Map<TokenInfo, nat>, s: Seq<BridgeExit>, i: int)
    requires
        0 <= i <= s.len(),
    ensures
        match apply_exits(b, s.take(i)) {
            Ok(bi) => apply_exits(b, s) == apply_exits(bi, s.skip(i)),
            Err(e) => apply_exits(b, s) == Err::<Map<TokenInfo, nat>, ProofError>(e),
        },
    decreases i,
{
    if i == 0 {
        assert(s.take(0) =~= Seq::<BridgeExit>::empty());
        assert(s.skip(0) =~= s);
    } else {
        let e = s[0];
        let t = s.take(i);
        assert(t[0] == e);
        if e.amount.as_nat() <= b[e.token] {
            let b1 = b.insert(e.token, (b[e.token] - e.amount.as_nat()) as nat);
            let st = s.drop_first();
            assert(t.drop_first() =~= st.take(i - 1));
            lemma_apply_exits_split(b1, st, i - 1);
            assert(st.skip(i - 1) =~= s.skip(i));
        }
    }
}

/// The same split for the claim fold.
pub proof fn lemma_apply_imports_split(
    b: Map<TokenInfo, nat>,
    c: Set<NullifierKey>,
    s: Seq<ImportedBridgeExit>,
    l1_root: Seq<u8>,
    i: int,
)
    requires
        0 <= i <= s.len(),
    ensures
        match apply_imports(b, c, s.take(i), l1_root) {
            Ok(p) => apply_imports(b, c, s, l1_root) == apply_imports(p.0, p.1, s.skip(i), l1_root),
            Err(e) => apply_imports(b, c, s, l1_root) == Err::<
                (Map<TokenInfo, nat>, Set<NullifierKey>),
                ProofError,
            >(e),
        },
    decreases i,
{
    if i == 0 {
        assert(s.take(0) =~= Seq::<ImportedBridgeExit>::empty());
        assert(s.skip(0) =~= s);
    } else {
        let ie = s[0];
        let t = s.take(i);
        assert(t[0] == ie);
        let tok = ie.bridge_exit.token;
        let a = ie.bridge_exit.amount.as_nat();
        if import_proof_ok(ie, l1_root) && !c.contains(ie.key_spec()) && b[tok] + a <= u256_max() {
            let b1 = b.insert(tok, (b[tok] + a) as nat);
            let c1 = c.insert(ie.key_spec());
            let st = s.drop_first();
            assert(t.drop_first() =~= st.take(i - 1));
            lemma_apply_imports_split(b1, c1, st, l1_root, i - 1);
            assert(st.skip(i - 1) =~= s.skip(i));
        }
    }
}

proof fn lemma_cat_exits_snoc(s: Seq<BridgeExit>, i: int)
    requires
        0 <= i < s.len(),
    ensures
        cat_exits(s.take(i + 1)) == cat_exits(s.take(i)) + bridge_exit_bytes(s[i]),
    decreases i,
{
    let t = s.take(i + 1);
    if i == 0 {
        assert(t.drop_first() =~= Seq::<BridgeExit>::empty());
        assert(cat_exits(Seq::<BridgeExit>::empty()) == Seq::<u8>::empty());
        assert(t[0] == s[0]);
        assert(cat_exits(t) == bridge_exit_bytes(s[0]) + Seq::<u8>::empty());
        assert(s.take(0) =~= Seq::<BridgeExit>::empty());
        assert(cat_exits(s.take(0)) + bridge_exit_bytes(s[0]) =~= cat_exits(t));
    } else {
        let st = s.drop_first();
        assert(t[0] == s[0]);
        assert(t.drop_first() =~= st.take(i));
        assert(s.take(i)[0] == s[0]);
        assert(s.take(i).drop_first() =~= st.take(i - 1));
        lemma_cat_exits_snoc(st, i - 1);
        assert(st[i - 1] == s[i]);
        assert(bridge_exit_bytes(s[0]) + (cat_exits(st.take(i - 1)) + bridge_exit_bytes(s[i])) =~= (
        bridge_exit_bytes(s[0]) + cat_exits(st.take(i - 1))) + bridge_exit_bytes(s[i]));
    }
}

proof fn lemma_cat_imports_snoc(s: Seq<ImportedBridgeExit>, i: int)
    requires
        0 <= i < s.len(),
    ensures
        cat_imports(s.take(i + 1)) == cat_imports(s.take(i)) + imported_exit_bytes(s[i]),
    decreases i,
{
    let t = s.take(i + 1);
    if i == 0 {
        assert(t.drop_first() =~= Seq::<ImportedBridgeExit>::empty());
        assert(cat_imports(Seq::<ImportedBridgeExit>::empty()) == Seq::<u8>::empty());
        assert(t[0] == s[0]);
        assert(cat_imports(t) == imported_exit_bytes(s[0]) + Seq::<u8>::empty());
        assert(s.take(0) =~= Seq::<ImportedBridgeExit>::empty());
        assert(cat_imports(s.take(0)) + imported_exit_bytes(s[0]) =~= cat_imports(t));
    } else {
        let st = s.drop_first();
        assert(t[0] == s[0]);
        assert(t.drop_first() =~= st.take(i));
        assert(s.take(i)[0] == s[0]);
        assert(s.take(i).drop_first() =~= st.take(i - 1));
        lemma_cat_imports_snoc(st, i - 1);
        assert(st[i - 1] == s[i]);
        assert(imported_exit_bytes(s[0]) + (cat_imports(st.take(i - 1)) + imported_exit_bytes(s[i]))
            =~= (imported_exit_bytes(s[0]) + cat_imports(st.take(i - 1))) + imported_exit_bytes(
            s[i],
        ));
    }
}

/// Hashes the batch contents into the commitment that the public output
/// carries.
pub fn commit_batch(header: &MultiBatchHeader) -> (r: Digest)
    requires
        header.bridge_exits@.len() < 0x1_0000_0000,
        header.imported_bridge_exits@.len() < 0x1_0000_0000,
    ensures
        r@ == keccak_of(batch_bytes(*header)),
{
    let mut buf = u32_to_le_bytes(header.bridge_exits.len() as u32);
    let ghost head = spec_u32_to_le_bytes(header.bridge_exits@.len() as u32);
    let n = header.bridge_exits.len();
    let mut i: usize = 0;
    proof {
        assert(cat_exits(header.bridge_exits@.take(0)) =~= Seq::<u8>::empty());
        assert(buf@ =~= head + cat_exits(header.bridge_exits@.take(0)));
    }
    while i < n
        invariant
            i <= n,
            n == header.bridge_exits@.len(),
            buf@ == head + cat_exits(header.bridge_exits@.take(i as int)),
        decreases n - i,
    {
        let mut enc = encode_bridge_exit(&header.bridge_exits[i]);
        buf.append(&mut enc);
        proof {
            lemma_cat_exits_snoc(header.bridge_exits@, i as int);
            assert((head + cat_exits(header.bridge_exits@.take(i as int))) + bridge_exit_bytes(
                header.bridge_exits@[i as int],
            ) =~= head + cat_exits(header.bridge_exits@.take(i as int + 1)));
        }
        i = i + 1;
    }
    proof {
        assert(header.bridge_exits@.take(n as int) =~= header.bridge_exits@);
    }
    let mut ilen = u32_to_le_bytes(header.imported_bridge_exits.len() as u32);
    buf.append(&mut ilen);
    let ghost head2 = head + cat_exits(header.bridge_exits@) + spec_u32_to_le_bytes(
        header.imported_bridge_exits@.len() as u32,
    );
    proof {
        assert(buf@ =~= head2 + cat_imports(header.imported_bridge_exits@.take(0)));
    }
    let m = header.imported_bridge_exits.len();
    let mut j: usize = 0;
    while j < m
        invariant
            j <= m,
            m == header.imported_bridge_exits@.len(),
            head2 == head + cat_exits(header.bridge_exits@) + spec_u32_to_le_bytes(
                header.imported_bridge_exits@.len() as u32,
            ),
            buf@ == head2 + cat_imports(header.imported_bridge_exits@.take(j as int)),
        decreases m - j,
    {
        let mut enc = encode_imported_exit(&header.imported_bridge_exits[j]);
        buf.append(&mut enc);
        proof {
            lemma_cat_imports_snoc(header.imported_bridge_exits@, j as int);
            assert((head2 + cat_imports(header.imported_bridge_exits@.take(j as int)))
                + imported_exit_bytes(header.imported_bridge_exits@[j as int]) =~= head2
                + cat_imports(header.imported_bridge_exits@.take(j as int + 1)));
        }
        j = j + 1;
    }
    proof {
        assert(header.imported_bridge_exits@.take(m as int) =~= header.imported_bridge_exits@);
    }
    extend_bytes(&mut buf, header.signer.as_slice());
    proof {
        assert(buf@ =~= batch_bytes(*header));
    }
    keccak256(buf.as_slice())
}

/// Verifies one batch against the previous state: checks the claimed
/// previous root, debits every outbound exit while appending its leaf,
/// checks, nullifies and credits every inbound claim, and produces the new
/// state with the public output. Any failure rejects the whole batch; the
/// caller keeps its old state value untouched.
pub fn generate_pessimistic_proof(state: NetworkState, header: &MultiBatchHeader) -> (r: Result<
    (NetworkState, PessimisticProofOutput),
    ProofError,
>)
    requires
        state.wf(),
        state.model().leaves.len() + header.bridge_exits@.len() <= 0x1_0000_0000,
        header.bridge_exits@.len() < 0x1_0000_0000,
        header.imported_bridge_exits@.len() < 0x1_0000_0000,
    ensures
        ({
            let t = transition(state.model(), *header);
            match r {
                Ok((s2, out)) => t matches Ok(p) && s2.model() == p.0 && out.model() == p.1
                    && s2.wf(),
                Err(e) => t matches Err(e2) && e == e2,
            }
        }),
{
    let ghost m0 = state.model();
    let prev_root = state.exit_tree.root();
    match &header.prev_local_exit_root {
        Some(claimed) => {
            if !digest_eq(claimed, &prev_root) {
                proof {
                    assert(transition(m0, *header) == Err::<(StateModel, OutputModel), ProofError>(
                        ProofError::RootMismatch,
                    ));
                }
                return Err(ProofError::RootMismatch);
            }
        },
        None => {},
    }
    let NetworkState { network_id, mut exit_tree, mut balance_ledger, mut nullifier_set } = state;
    let n_exits = header.bridge_exits.len();
    let mut i: usize = 0;
    proof {
        assert(header.bridge_exits@.take(0) =~= Seq::<BridgeExit>::empty());
        assert(exit_tree@ =~= m0.leaves + header.bridge_exits@.take(0).map_values(
            |e: BridgeExit| leaf_hash_of(e),
        ));
    }
    while i < n_exits
        invariant
            i <= n_exits,
            n_exits == header.bridge_exits@.len(),
            m0 == state.model(),
            header.prev_local_exit_root matches Some(c) ==> c@ == tree_root_of(m0.leaves),
            m0.leaves.len() + n_exits <= 0x1_0000_0000,
            balance_ledger.wf(),
            exit_tree@ == m0.leaves + header.bridge_exits@.take(i as int).map_values(
                |e: BridgeExit| leaf_hash_of(e),
            ),
            exit_tree@.len() == m0.leaves.len() + i,
            apply_exits(m0.balances, header.bridge_exits@.take(i as int)) == Ok::<
                Map<TokenInfo, nat>,
                ProofError,
            >(balance_ledger@),
        decreases n_exits - i,
    {
        let e = &header.bridge_exits[i];
        let lh = leaf_hash(e);
        exit_tree.append(&lh);
        proof {
            assert(header.bridge_exits@.take(i as int + 1).map_values(
                |x: BridgeExit| leaf_hash_of(x),
            ) =~= header.bridge_exits@.take(i as int).map_values(|x: BridgeExit| leaf_hash_of(x))
                .push(leaf_hash_of(header.bridge_exits@[i as int])));
            assert(exit_tree@ =~= m0.leaves + header.bridge_exits@.take(i as int + 1).map_values(
                |x: BridgeExit| leaf_hash_of(x),
            ));
        }
        let ghost bal_pre = balance_ledger@;
        match balance_ledger.debit(&e.token, &e.amount) {
            Ok(()) => {
                proof {
                    let exits = header.bridge_exits@;
                    let s1 = exits.take(i as int + 1);
                    lemma_apply_exits_split(m0.balances, s1, i as int);
                    assert(s1.take(i as int) =~= exits.take(i as int));
                    let rest = s1.skip(i as int);
                    assert(rest.len() == 1);
                    assert(rest[0] == exits[i as int]);
                    assert(rest.drop_first() =~= Seq::<BridgeExit>::empty());
                    let e0 = exits[i as int];
                    let b2 = bal_pre.insert(
                        e0.token,
                        (bal_pre[e0.token] - e0.amount.as_nat()) as nat,
                    );
                    assert(apply_exits(b2, rest.drop_first()) == Ok::<
                        Map<TokenInfo, nat>,
                        ProofError,
                    >(b2));
                    assert(apply_exits(bal_pre, rest) == Ok::<Map<TokenInfo, nat>, ProofError>(b2));
                    assert(balance_ledger@ == b2);
                    assert(apply_exits(m0.balances, s1) == Ok::<Map<TokenInfo, nat>, ProofError>(
                        balance_ledger@,
                    ));
                }
            },
            Err(_) => {
                proof {
                    let exits = header.bridge_exits@;
                    lemma_apply_exits_split(m0.balances, exits, i as int);
                    let rest = exits.skip(i as int);
                    assert(rest.len() > 0);
                    assert(rest[0] == exits[i as int]);
                    assert(apply_exits(bal_pre, rest) == Err::<Map<TokenInfo, nat>, ProofError>(
                        ProofError::InsufficientBalance,
                    ));
                    assert(apply_exits(m0.balances, exits) == Err::<
                        Map<TokenInfo, nat>,
                        ProofError,
                    >(ProofError::InsufficientBalance));
                    assert(transition(m0, *header) == Err::<(StateModel, OutputModel), ProofError>(
                        ProofError::InsufficientBalance,
                    ));
                }
                return Err(ProofError::InsufficientBalance);
            },
        }
        i = i + 1;
    }
    proof {
        assert(header.bridge_exits@.take(n_exits as int) =~= header.bridge_exits@);
    }
    let ghost b1 = balance_ledger@;
    let n_imports = header.imported_bridge_exits.len();
    let mut j: usize = 0;
    proof {
        assert(header.imported_bridge_exits@.take(0) =~= Seq::<ImportedBridgeExit>::empty());
    }
    while j < n_imports
        invariant
            j <= n_imports,
            n_imports == header.imported_bridge_exits@.len(),
            m0 == state.model(),
            header.prev_local_exit_root matches Some(c) ==> c@ == tree_root_of(m0.leaves),
            apply_exits(m0.balances, header.bridge_exits@) == Ok::<
                Map<TokenInfo, nat>,
                ProofError,
            >(b1),
            balance_ledger.wf(),
            apply_imports(b1, m0.consumed, header.imported_bridge_exits@.take(j as int),
                header.l1_info_root@) == Ok::<
                (Map<TokenInfo, nat>, Set<NullifierKey>),
                ProofError,
            >((balance_ledger@, nullifier_set@)),
        decreases n_imports - j,
    {
        let ie = &header.imported_bridge_exits[j];
        let lh = leaf_hash(&ie.bridge_exit);
        let ghost imports = header.imported_bridge_exits@;
        match LocalExitTree::verify_inclusion(
            &header.l1_info_root,
            ie.leaf_index,
            &lh,
            &ie.inclusion_proof,
        ) {
            Ok(()) => {},
            Err(_) => {
                proof {
                    lemma_apply_imports_split(b1, m0.consumed, imports, header.l1_info_root@, j as int);
                    let rest = imports.skip(j as int);
                    assert(rest.len() > 0);
                    assert(rest[0] == imports[j as int]);
                    assert(!import_proof_ok(imports[j as int], header.l1_info_root@));
                    assert(apply_imports(balance_ledger@, nullifier_set@, rest, header.l1_info_root@)
                        == Err::<(Map<TokenInfo, nat>, Set<NullifierKey>), ProofError>(
                        ProofError::InvalidInclusionProof,
                    ));
                    assert(apply_imports(b1, m0.consumed, imports, header.l1_info_root@) == Err::<
                        (Map<TokenInfo, nat>, Set<NullifierKey>),
                        ProofError,
                    >(ProofError::InvalidInclusionProof));
                    assert(transition(m0, *header) == Err::<(StateModel, OutputModel), ProofError>(
                        ProofError::InvalidInclusionProof,
                    ));
                }
                return Err(ProofError::InvalidInclusionProof);
            },
        }
        let key = ie.nullifier_key();
        let ghost cons_pre = nullifier_set@;
        match nullifier_set.consume(&key) {
            Ok(()) => {},
            Err(_) => {
                proof {
                    lemma_apply_imports_split(b1, m0.consumed, imports, header.l1_info_root@, j as int);
                    let rest = imports.skip(j as int);
                    assert(rest.len() > 0);
                    assert(rest[0] == imports[j as int]);
                    assert(imports[j as int].key_spec() == key);
                    assert(apply_imports(balance_ledger@, nullifier_set@, rest, header.l1_info_root@)
                        == Err::<(Map<TokenInfo, nat>, Set<NullifierKey>), ProofError>(
                        ProofError::AlreadyClaimed,
                    ));
                    assert(apply_imports(b1, m0.consumed, imports, header.l1_info_root@) == Err::<
                        (Map<TokenInfo, nat>, Set<NullifierKey>),
                        ProofError,
                    >(ProofError::AlreadyClaimed));
                    assert(transition(m0, *header) == Err::<(StateModel, OutputModel), ProofError>(
                        ProofError::AlreadyClaimed,
                    ));
                }
                return Err(ProofError::AlreadyClaimed);
            },
        }
        let ghost bal_pre2 = balance_ledger@;
        match balance_ledger.credit(&ie.bridge_exit.token, &ie.bridge_exit.amount) {
            Ok(()) => {},
            Err(_) => {
                proof {
                    lemma_apply_imports_split(b1, m0.consumed, imports, header.l1_info_root@, j as int);
                    let rest = imports.skip(j as int);
                    assert(rest.len() > 0);
                    assert(rest[0] == imports[j as int]);
                    assert(imports[j as int].key_spec() == key);
                    assert(!cons_pre.contains(key));
                    assert(apply_imports(bal_pre2, cons_pre, rest, header.l1_info_root@) == Err::<
                        (Map<TokenInfo, nat>, Set<NullifierKey>),
                        ProofError,
                    >(ProofError::Overflow));
                    assert(apply_imports(b1, m0.consumed, imports, header.l1_info_root@) == Err::<
                        (Map<TokenInfo, nat>, Set<NullifierKey>),
                        ProofError,
                    >(ProofError::Overflow));
                    assert(transition(m0, *header) == Err::<(StateModel, OutputModel), ProofError>(
                        ProofError::Overflow,
                    ));
                }
                return Err(ProofError::Overflow);
            },
        }
        proof {
            let s1 = imports.take(j as int + 1);
            lemma_apply_imports_split(b1, m0.consumed, s1, header.l1_info_root@, j as int);
            assert(s1.take(j as int) =~= imports.take(j as int));
            let rest = s1.skip(j as int);
            assert(rest.len() == 1);
            assert(rest[0] == imports[j as int]);
            assert(rest.drop_first() =~= Seq::<ImportedBridgeExit>::empty());
            let ie0 = imports[j as int];
            let tok = ie0.bridge_exit.token;
            let a = ie0.bridge_exit.amount.as_nat();
            assert(ie0.key_spec() == key);
            assert(!cons_pre.contains(key));
            let b2 = bal_pre2.insert(tok, (bal_pre2[tok] + a) as nat);
            let c2 = cons_pre.insert(key);
            assert(apply_imports(b2, c2, rest.drop_first(), header.l1_info_root@) == Ok::<
                (Map<TokenInfo, nat>, Set<NullifierKey>),
                ProofError,
            >((b2, c2)));
            assert(apply_imports(bal_pre2, cons_pre, rest, header.l1_info_root@) == Ok::<
                (Map<TokenInfo, nat>, Set<NullifierKey>),
                ProofError,
            >((b2, c2)));
            assert(balance_ledger@ == b2 && nullifier_set@ == c2);
            assert(apply_imports(b1, m0.consumed, s1, header.l1_info_root@) == Ok::<
                (Map<TokenInfo, nat>, Set<NullifierKey>),
                ProofError,
            >((balance_ledger@, nullifier_set@)));
        }
        j = j + 1;
    }
    proof {
        assert(header.imported_bridge_exits@.take(n_imports as int)
            =~= header.imported_bridge_exits@);
    }
    let new_root = exit_tree.root();
    let commitment = commit_batch(header);
    let out = PessimisticProofOutput {
        prev_local_exit_root: prev_root,
        new_local_exit_root: new_root,
        batch_commitment: commitment,
        signer: header.signer,
        network_id,
    };
    let s2 = NetworkState { network_id, exit_tree, balance_ledger, nullifier_set };
    proof {
        let t = transition(m0, *header);
        assert(t matches Ok(p) && s2.model() =~= p.0 && out.model() =~= p.1);
    }
    Ok((s2, out))
}

} // verus!
