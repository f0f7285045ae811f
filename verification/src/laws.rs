use vstd::prelude::*;
use crate::bridge_exit::{BridgeExit, ImportedBridgeExit, NullifierKey, TokenInfo};
use crate::local_exit_tree::tree_root_of;
use crate::output::output_bytes;
use crate::state::StateModel;
use crate::transition::{
    apply_exits, apply_imports, leaves_after, transition, MultiBatchHeader, OutputModel,
    PessimisticProofOutput, ProofError,
};

verus! {

/// Determinism: the transition is a pure function of the state and header;
/// any two results that the verifier's contract admits for the same inputs
/// are one and the same.
pub proof fn lemma_transition_deterministic(
    s: StateModel,
    h: MultiBatchHeader,
    r1: Result<(StateModel, OutputModel), ProofError>,
    r2: Result<(StateModel, OutputModel), ProofError>,
)
    requires
        r1 == transition(s, h),
        r2 == transition(s, h),
    ensures
        r1 == r2,
{
}

/// Two outputs with the same mathematical content encode to the same bytes,
/// so equal transition results are byte-identical across executions.
pub proof fn lemma_equal_outputs_encode_alike(o1: PessimisticProofOutput, o2: PessimisticProofOutput)
    requires
        o1.model() == o2.model(),
    ensures
        output_bytes(o1) == output_bytes(o2),
{
    assert(output_bytes(o1) =~= output_bytes(o2));
}

/// Empty-batch idempotence: a header with no exits and no claims succeeds
/// (its claimed previous root permitting), keeps every balance and every
/// consumed key, and reports a new root equal to the previous one.
pub proof fn lemma_empty_batch(s: StateModel, h: MultiBatchHeader)
    requires
        h.bridge_exits@.len() == 0,
        h.imported_bridge_exits@.len() == 0,
        h.prev_local_exit_root matches Some(c) ==> c@ == tree_root_of(s.leaves),
    ensures
        transition(s, h) matches Ok(p) && p.0.leaves == s.leaves && p.0.balances == s.balances
            && p.0.consumed == s.consumed && p.1.new_root == p.1.prev_root,
{
    assert(h.bridge_exits@.map_values(|e: BridgeExit| crate::bridge_exit::leaf_hash_of(e))
        =~= Seq::<Seq<u8>>::empty());
    assert(leaves_after(s.leaves, h.bridge_exits@) =~= s.leaves);
}

/// The total amount that a batch's exits debit from one token.
pub open spec fn debited(exits: Seq<BridgeExit>, t: TokenInfo) -> nat
    decreases exits.len(),
{
    if exits.len() == 0 {
        0
    } else {
        (if exits[0].token == t {
            exits[0].amount.as_nat()
        } else {
            0
        }) + debited(exits.drop_first(), t)
    }
}

/// The total amount that a batch's claims credit to one token.
pub open spec fn credited(imports: Seq<ImportedBridgeExit>, t: TokenInfo) -> nat
    decreases imports.len(),
{
    if imports.len() == 0 {
        0
    } else {
        (if imports[0].bridge_exit.token == t {
            imports[0].bridge_exit.amount.as_nat()
        } else {
            0
        }) + credited(imports.drop_first(), t)
    }
}

proof fn lemma_exits_sum(b: Map<TokenInfo, nat>, exits: Seq<BridgeExit>, b2: Map<TokenInfo, nat>, t: TokenInfo)
    requires
        apply_exits(b, exits) == Ok::<Map<TokenInfo, nat>, ProofError>(b2),
    ensures
        b[t] == b2[t] + debited(exits, t),
    decreases exits.len(),
{
    if exits.len() > 0 {
        let e = exits[0];
        let b1 = b.insert(e.token, (b[e.token] - e.amount.as_nat()) as nat);
        lemma_exits_sum(b1, exits.drop_first(), b2, t);
    }
}

proof fn lemma_imports_sum(
    b: Map<TokenInfo, nat>,
    c: Set<NullifierKey>,
    imports: Seq<ImportedBridgeExit>,
    l1_root: Seq<u8>,
    b2: Map<TokenInfo, nat>,
    c2: Set<NullifierKey>,
    t: TokenInfo,
)
    requires
        apply_imports(b, c, imports, l1_root) == Ok::<
            (Map<TokenInfo, nat>, Set<NullifierKey>),
            ProofError,
        >((b2, c2)),
    ensures
        b2[t] == b[t] + credited(imports, t),
    decreases imports.len(),
{
    if imports.len() > 0 {
        let ie = imports[0];
        let tok = ie.bridge_exit.token;
        let a = ie.bridge_exit.amount.as_nat();
        let b1 = b.insert(tok, (b[tok] + a) as nat);
        let c1 = c.insert(ie.key_spec());
        lemma_imports_sum(b1, c1, imports.drop_first(), l1_root, b2, c2, t);
    }
}

/// Conservation: on every successful transition, for every token, the old
/// balance plus everything credited equals the new balance plus everything
/// debited — no value is created or destroyed.
pub proof fn lemma_conservation(
    s: StateModel,
    h: MultiBatchHeader,
    s2: StateModel,
    o2: OutputModel,
    t: TokenInfo,
)
    requires
        transition(s, h) == Ok::<(StateModel, OutputModel), ProofError>((s2, o2)),
    ensures
        s.balances[t] + credited(h.imported_bridge_exits@, t) == s2.balances[t] + debited(
            h.bridge_exits@,
            t,
        ),
{
    let b1r = apply_exits(s.balances, h.bridge_exits@);
    match b1r {
        Ok(b1) => {
            match apply_imports(b1, s.consumed, h.imported_bridge_exits@, h.l1_info_root@) {
                Ok(p) => {
                    lemma_exits_sum(s.balances, h.bridge_exits@, b1, t);
                    lemma_imports_sum(
                        b1,
                        s.consumed,
                        h.imported_bridge_exits@,
                        h.l1_info_root@,
                        p.0,
                        p.1,
                        t,
                    );
                },
                Err(_) => {
                    assert(false);
                },
            }
        },
        Err(_) => {
            assert(false);
        },
    }
}

proof fn lemma_imports_success_keys(
    b: Map<TokenInfo, nat>,
    c: Set<NullifierKey>,
    imports: Seq<ImportedBridgeExit>,
    l1_root: Seq<u8>,
    b2: Map<TokenInfo, nat>,
    c2: Set<NullifierKey>,
)
    requires
        apply_imports(b, c, imports, l1_root) == Ok::<
            (Map<TokenInfo, nat>, Set<NullifierKey>),
            ProofError,
        >((b2, c2)),
    ensures
        forall|i: int|
            0 <= i < imports.len() ==> c2.contains(#[trigger] imports[i].key_spec()) && !c.contains(
                imports[i].key_spec(),
            ),
        forall|k: NullifierKey| c.contains(k) ==> c2.contains(k),
        forall|i: int, j: int|
            0 <= i < j < imports.len() ==> imports[i].key_spec() != imports[j].key_spec(),
    decreases imports.len(),
{
    if imports.len() > 0 {
        let ie = imports[0];
        let tok = ie.bridge_exit.token;
        let a = ie.bridge_exit.amount.as_nat();
        let b1 = b.insert(tok, (b[tok] + a) as nat);
        let c1 = c.insert(ie.key_spec());
        let rest = imports.drop_first();
        lemma_imports_success_keys(b1, c1, rest, l1_root, b2, c2);
        assert forall|i: int|
            0 <= i < imports.len() implies c2.contains(#[trigger] imports[i].key_spec())
            && !c.contains(imports[i].key_spec()) by {
            if i == 0 {
                assert(c1.contains(ie.key_spec()));
            } else {
                assert(imports[i] == rest[i - 1]);
                assert(!c1.contains(rest[i - 1].key_spec()));
            }
        }
        assert forall|i: int, j: int|
            0 <= i < j < imports.len() implies imports[i].key_spec() != imports[j].key_spec() by {
            if i == 0 {
                assert(imports[j] == rest[j - 1]);
                assert(!c1.contains(rest[j - 1].key_spec()));
                assert(c1.contains(imports[0].key_spec()));
            } else {
                assert(imports[i] == rest[i - 1]);
                assert(imports[j] == rest[j - 1]);
            }
        }
    }
}

/// A successful transition records every consumed claim key, and a batch
/// whose claims succeed never carried the same key twice.
pub proof fn lemma_success_records_keys(
    s: StateModel,
    h: MultiBatchHeader,
    s2: StateModel,
    o2: OutputModel,
)
    requires
        transition(s, h) == Ok::<(StateModel, OutputModel), ProofError>((s2, o2)),
    ensures
        forall|i: int|
            0 <= i < h.imported_bridge_exits@.len() ==> s2.consumed.contains(
                #[trigger] h.imported_bridge_exits@[i].key_spec(),
            ) && !s.consumed.contains(h.imported_bridge_exits@[i].key_spec()),
        forall|i: int, j: int|
            0 <= i < j < h.imported_bridge_exits@.len() ==> h.imported_bridge_exits@[i].key_spec()
                != h.imported_bridge_exits@[j].key_spec(),
{
    match apply_exits(s.balances, h.bridge_exits@) {
        Ok(b1) => {
            match apply_imports(b1, s.consumed, h.imported_bridge_exits@, h.l1_info_root@) {
                Ok(p) => {
                    lemma_imports_success_keys(
                        b1,
                        s.consumed,
                        h.imported_bridge_exits@,
                        h.l1_info_root@,
                        p.0,
                        p.1,
                    );
                },
                Err(_) => {
                    assert(false);
                },
            }
        },
        Err(_) => {
            assert(false);
        },
    }
}

/// Replay rejection across batches: once a transition consumed a claim key,
/// no later batch claiming the same key can succeed from the state it left;
/// the whole second batch is rejected and only the first credit stands.
pub proof fn lemma_replay_rejected(
    s: StateModel,
    h1: MultiBatchHeader,
    s1: StateModel,
    o1: OutputModel,
    h2: MultiBatchHeader,
    i1: int,
    i2: int,
)
    requires
        transition(s, h1) == Ok::<(StateModel, OutputModel), ProofError>((s1, o1)),
        0 <= i1 < h1.imported_bridge_exits@.len(),
        0 <= i2 < h2.imported_bridge_exits@.len(),
        h2.imported_bridge_exits@[i2].key_spec() == h1.imported_bridge_exits@[i1].key_spec(),
    ensures
        transition(s1, h2) is Err,
{
    lemma_success_records_keys(s, h1, s1, o1);
    let t2 = transition(s1, h2);
    if t2 is Ok {
        match t2 {
            Ok(p) => {
                lemma_success_records_keys(s1, h2, p.0, p.1);
                assert(s1.consumed.contains(h2.imported_bridge_exits@[i2].key_spec()));
                assert(false);
            },
            Err(_) => {},
        }
    }
}

/// Replay rejection within one batch: a header that carries the same claim
/// key twice can never verify.
pub proof fn lemma_duplicate_key_rejected(s: StateModel, h: MultiBatchHeader, i: int, j: int)
    requires
        0 <= i < j < h.imported_bridge_exits@.len(),
        h.imported_bridge_exits@[i].key_spec() == h.imported_bridge_exits@[j].key_spec(),
    ensures
        transition(s, h) is Err,
{
    let t = transition(s, h);
    if t is Ok {
        match t {
            Ok(p) => {
                lemma_success_records_keys(s, h, p.0, p.1);
                assert(false);
            },
            Err(_) => {},
        }
    }
}

proof fn lemma_apply_exits_err_kind(b: Map<TokenInfo, nat>, exits: Seq<BridgeExit>)
    requires
        apply_exits(b, exits) is Err,
    ensures
        apply_exits(b, exits) == Err::<Map<TokenInfo, nat>, ProofError>(
            ProofError::InsufficientBalance,
        ),
    decreases exits.len(),
{
    if exits.len() > 0 {
        let e = exits[0];
        if e.amount.as_nat() <= b[e.token] {
            let b1 = b.insert(e.token, (b[e.token] - e.amount.as_nat()) as nat);
            lemma_apply_exits_err_kind(b1, exits.drop_first());
        }
    }
}

/// Insolvency rejection: a batch whose exits debit more of some token than
/// the state holds is rejected with InsufficientBalance (its claimed
/// previous root permitting), and the caller's state stands untouched.
pub proof fn lemma_insolvency_rejected(s: StateModel, h: MultiBatchHeader, t: TokenInfo)
    requires
        h.prev_local_exit_root matches Some(c) ==> c@ == tree_root_of(s.leaves),
        debited(h.bridge_exits@, t) > s.balances[t],
    ensures
        transition(s, h) == Err::<(StateModel, OutputModel), ProofError>(
            ProofError::InsufficientBalance,
        ),
{
    let r = apply_exits(s.balances, h.bridge_exits@);
    match r {
        Ok(b1) => {
            lemma_exits_sum(s.balances, h.bridge_exits@, b1, t);
            assert(false);
        },
        Err(_) => {
            lemma_apply_exits_err_kind(s.balances, h.bridge_exits@);
        },
    }
}

} // verus!
