//! The CRDT operation layer: the known operation types and what each needs, the
//! version vector (per-author sequence numbers) and Lamport clock, the handling of a
//! remote operation (duplicates, unknown peers), and the checks of a weight delta.

use vstd::prelude::*;
use crate::text::{chars_of, push_char, str_is};
use crate::hexcodec::{hex_decode, hex_decoded};
use base64::Engine;

verus! {

/// The operation types.
#[derive(Clone, Copy, Debug, PartialEq, Eq, Structural)]
pub enum OpType {
    InsertNode,
    UpdateContent,
    UpdateMetadata,
    MoveNode,
    DeleteNode,
    InsertEdge,
    DeleteEdge,
    SetPerspective,
    DeletePerspective,
    SetAssociation,
    DeleteAssociation,
    CreateTask,
    UpdateTaskStatus,
    CreateWallet,
    TransferKoi,
    CreateBounty,
    UpdateBountyStatus,
    RegisterWallet,
    SignedTransfer,
    MintReward,
    CreateModel,
    UpdateModelWeights,
    DeleteModel,
    TrainStep,
}

/// The name of each operation type in the operation log.
pub open spec fn op_type_name(t: OpType) -> Seq<char> {
    match t {
        OpType::InsertNode => "insert_node"@,
        OpType::UpdateContent => "update_content"@,
        OpType::UpdateMetadata => "update_metadata"@,
        OpType::MoveNode => "move_node"@,
        OpType::DeleteNode => "delete_node"@,
        OpType::InsertEdge => "insert_edge"@,
        OpType::DeleteEdge => "delete_edge"@,
        OpType::SetPerspective => "set_perspective"@,
        OpType::DeletePerspective => "delete_perspective"@,
        OpType::SetAssociation => "set_association"@,
        OpType::DeleteAssociation => "delete_association"@,
        OpType::CreateTask => "create_task"@,
        OpType::UpdateTaskStatus => "update_task_status"@,
        OpType::CreateWallet => "create_wallet"@,
        OpType::TransferKoi => "transfer_koi"@,
        OpType::CreateBounty => "create_bounty"@,
        OpType::UpdateBountyStatus => "update_bounty_status"@,
        OpType::RegisterWallet => "register_wallet"@,
        OpType::SignedTransfer => "signed_transfer"@,
        OpType::MintReward => "mint_reward"@,
        OpType::CreateModel => "create_model"@,
        OpType::UpdateModelWeights => "update_model_weights"@,
        OpType::DeleteModel => "delete_model"@,
        OpType::TrainStep => "train_step"@,
    }
}

/// The operation type with a given name, if any.
pub open spec fn op_type_named(s: Seq<char>) -> Option<OpType> {
    if exists|t: OpType| op_type_name(t) == s {
        Some(choose|t: OpType| op_type_name(t) == s)
    } else {
        None
    }
}

/// Only operations on an existing node or edge need a node id; the others name what
/// they act on in their payload.
pub open spec fn needs_node_id(t: OpType) -> bool {
    t is UpdateContent || t is UpdateMetadata || t is MoveNode || t is DeleteNode || t is InsertEdge
        || t is DeleteEdge
}

/// The operations that need a node id are exactly those on an existing node or edge:
/// updating a node's content or metadata, moving or deleting a node, and inserting or
/// deleting an edge. Every other operation names what it acts on in its payload.
pub proof fn law_node_id_operations(t: OpType)
    ensures
        needs_node_id(t) <==> (t == OpType::UpdateContent || t == OpType::UpdateMetadata || t == OpType::MoveNode
            || t == OpType::DeleteNode || t == OpType::InsertEdge || t == OpType::DeleteEdge),
        !needs_node_id(OpType::InsertNode),
        !needs_node_id(OpType::CreateTask) && !needs_node_id(OpType::TransferKoi) && !needs_node_id(OpType::SignedTransfer),
{
}

/// Why an operation was refused.
#[derive(Clone, Copy, Debug, PartialEq, Eq, Structural)]
pub enum CrdtError {
    UnknownOpType,
    NodeIdRequired,
    InvalidHexSignature,
    InvalidHexPublicKey,
    SignatureVerificationFailed,
    InvalidStatus,
    InvalidBase64Delta,
    DeltaNotWholeFloats,
    DeltaSizeMismatch { delta: usize, tensor: usize },
    /// An earlier operation of the author has not arrived: its sequence number skips
    /// past the one expected next.
    CausalGap { expected: i64, got: i64 },
}

/// The name of an operation type.
pub fn op_type_str(t: OpType) -> (s: &'static str)
    ensures
        s@ == op_type_name(t),
{
    match t {
        OpType::InsertNode => "insert_node",
        OpType::UpdateContent => "update_content",
        OpType::UpdateMetadata => "update_metadata",
        OpType::MoveNode => "move_node",
        OpType::DeleteNode => "delete_node",
        OpType::InsertEdge => "insert_edge",
        OpType::DeleteEdge => "delete_edge",
        OpType::SetPerspective => "set_perspective",
        OpType::DeletePerspective => "delete_perspective",
        OpType::SetAssociation => "set_association",
        OpType::DeleteAssociation => "delete_association",
        OpType::CreateTask => "create_task",
        OpType::UpdateTaskStatus => "update_task_status",
        OpType::CreateWallet => "create_wallet",
        OpType::TransferKoi => "transfer_koi",
        OpType::CreateBounty => "create_bounty",
        OpType::UpdateBountyStatus => "update_bounty_status",
        OpType::RegisterWallet => "register_wallet",
        OpType::SignedTransfer => "signed_transfer",
        OpType::MintReward => "mint_reward",
        OpType::CreateModel => "create_model",
        OpType::UpdateModelWeights => "update_model_weights",
        OpType::DeleteModel => "delete_model",
        OpType::TrainStep => "train_step",
    }
}

/// Every operation type, in the order of the log's list of known types.
fn all_op_types() -> (v: Vec<OpType>)
    ensures
        forall|t: OpType| v@.contains(t),
{
    let v = vec![
        OpType::InsertNode, OpType::UpdateContent, OpType::UpdateMetadata, OpType::MoveNode,
        OpType::DeleteNode, OpType::InsertEdge, OpType::DeleteEdge, OpType::SetPerspective,
        OpType::DeletePerspective, OpType::SetAssociation, OpType::DeleteAssociation,
        OpType::CreateTask, OpType::UpdateTaskStatus, OpType::CreateWallet, OpType::TransferKoi,
        OpType::CreateBounty, OpType::UpdateBountyStatus, OpType::RegisterWallet,
        OpType::SignedTransfer, OpType::MintReward, OpType::CreateModel,
        OpType::UpdateModelWeights, OpType::DeleteModel, OpType::TrainStep,
    ];
    assert forall|t: OpType| v@.contains(t) by {
        let k: int = match t {
            OpType::InsertNode => 0,
            OpType::UpdateContent => 1,
            OpType::UpdateMetadata => 2,
            OpType::MoveNode => 3,
            OpType::DeleteNode => 4,
            OpType::InsertEdge => 5,
            OpType::DeleteEdge => 6,
            OpType::SetPerspective => 7,
            OpType::DeletePerspective => 8,
            OpType::SetAssociation => 9,
            OpType::DeleteAssociation => 10,
            OpType::CreateTask => 11,
            OpType::UpdateTaskStatus => 12,
            OpType::CreateWallet => 13,
            OpType::TransferKoi => 14,
            OpType::CreateBounty => 15,
            OpType::UpdateBountyStatus => 16,
            OpType::RegisterWallet => 17,
            OpType::SignedTransfer => 18,
            OpType::MintReward => 19,
            OpType::CreateModel => 20,
            OpType::UpdateModelWeights => 21,
            OpType::DeleteModel => 22,
            OpType::TrainStep => 23,
        };
        assert(v@[k] == t);
    }
    v
}

/// No two operation types share a name.
proof fn lemma_names_distinct(a: OpType, b: OpType)
    ensures
        op_type_name(a) == op_type_name(b) ==> a == b,
{
    reveal_strlit("insert_node");
    reveal_strlit("update_content");
    reveal_strlit("update_metadata");
    reveal_strlit("move_node");
    reveal_strlit("delete_node");
    reveal_strlit("insert_edge");
    reveal_strlit("delete_edge");
    reveal_strlit("set_perspective");
    reveal_strlit("delete_perspective");
    reveal_strlit("set_association");
    reveal_strlit("delete_association");
    reveal_strlit("create_task");
    reveal_strlit("update_task_status");
    reveal_strlit("create_wallet");
    reveal_strlit("transfer_koi");
    reveal_strlit("create_bounty");
    reveal_strlit("update_bounty_status");
    reveal_strlit("register_wallet");
    reveal_strlit("signed_transfer");
    reveal_strlit("mint_reward");
    reveal_strlit("create_model");
    reveal_strlit("update_model_weights");
    reveal_strlit("delete_model");
    reveal_strlit("train_step");
    if op_type_name(a) == op_type_name(b) && a != b {
        let sa = op_type_name(a);
        let sb = op_type_name(b);
        assert(sa.len() == sb.len());
        assert(sa[0] == sb[0]);
        assert(sa[1] == sb[1]);
        assert(sa[2] == sb[2]);
        assert(sa[3] == sb[3]);
        assert(sa[7] == sb[7]);
        assert(sa[8] == sb[8]);
        assert(sa[9] == sb[9]);
        assert(sa[10] == sb[10]);
    }
}

/// The operation type a name denotes, if any.
pub fn parse_op_type(s: &str) -> (t: Option<OpType>)
    ensures
        t == op_type_named(s@),
        t matches Some(x) ==> op_type_name(x) == s@,
        t is None ==> forall|x: OpType| op_type_name(x) != s@,
{
    let all = all_op_types();
    let mut i: usize = 0;
    while i < all.len()
        invariant
            i <= all@.len(),
            forall|t: OpType| all@.contains(t),
            forall|k: int| 0 <= k < i ==> op_type_name(#[trigger] all@[k]) != s@,
        decreases all@.len() - i,
    {
        let t = all[i];
        if str_is(op_type_str(t), s) {
            proof {
                assert(exists|x: OpType| op_type_name(x) == s@);
                let c = choose|x: OpType| op_type_name(x) == s@;
                lemma_names_distinct(c, t);
            }
            return Some(t);
        }
        i = i + 1;
    }
    proof {
        assert forall|x: OpType| op_type_name(x) != s@ by {
            assert(all@.contains(x));
            let k = choose|k: int| 0 <= k < all@.len() && all@[k] == x;
            assert(op_type_name(all@[k]) != s@);
        }
    }
    None
}

/// The check of an operation before it is applied: its type must be known, and the
/// operations on an existing node or edge must name it.
pub open spec fn op_check(op_type: Seq<char>, has_node_id: bool) -> Result<OpType, CrdtError> {
    match op_type_named(op_type) {
        None => Err(CrdtError::UnknownOpType),
        Some(t) => if needs_node_id(t) && !has_node_id { Err(CrdtError::NodeIdRequired) } else { Ok(t) },
    }
}

/// Validate an operation's type and node id.
pub fn validate_op(op_type: &str, node_id: Option<u128>) -> (r: Result<OpType, CrdtError>)
    ensures
        r == op_check(op_type@, node_id is Some),
{
    let t = match parse_op_type(op_type) {
        Some(t) => t,
        None => return Err(CrdtError::UnknownOpType),
    };
    let needs = match t {
        OpType::UpdateContent | OpType::UpdateMetadata | OpType::MoveNode | OpType::DeleteNode
        | OpType::InsertEdge | OpType::DeleteEdge => true,
        _ => false,
    };
    if needs && node_id.is_none() {
        return Err(CrdtError::NodeIdRequired);
    }
    Ok(t)
}

/// The statuses a task can have.
pub open spec fn task_status_ok(s: Seq<char>) -> bool {
    s == "pending"@ || s == "running"@ || s == "succeeded"@ || s == "failed"@ || s == "stopped"@
}

/// The statuses a bounty can have.
pub open spec fn bounty_status_ok(s: Seq<char>) -> bool {
    s == "open"@ || s == "claimed"@ || s == "paid"@ || s == "expired"@ || s == "cancelled"@
}

/// The lifecycle of a task: created pending, running while worked on, and ending
/// succeeded, failed or stopped.
pub open spec fn task_statuses() -> Seq<Seq<char>> {
    seq!["pending"@, "running"@, "succeeded"@, "failed"@, "stopped"@]
}

/// A task status is accepted exactly when it is one of the five statuses of a task's
/// lifecycle; in particular a task can be marked succeeded, failed or stopped.
pub proof fn law_task_statuses(s: Seq<char>)
    ensures
        task_status_ok(s) <==> task_statuses().contains(s),
        forall|i: int| 0 <= i < task_statuses().len() ==> task_status_ok(#[trigger] task_statuses()[i]),
{
    let l = task_statuses();
    if l.contains(s) {
        let i = choose|i: int| 0 <= i < l.len() && l[i] == s;
        assert(i == 0 || i == 1 || i == 2 || i == 3 || i == 4);
    }
    if task_status_ok(s) {
        if s == "pending"@ { assert(l[0] == s); }
        else if s == "running"@ { assert(l[1] == s); }
        else if s == "succeeded"@ { assert(l[2] == s); }
        else if s == "failed"@ { assert(l[3] == s); }
        else { assert(l[4] == s); }
    }
    assert forall|i: int| 0 <= i < l.len() implies task_status_ok(#[trigger] l[i]) by {
        assert(i == 0 || i == 1 || i == 2 || i == 3 || i == 4);
    }
}

/// The lifecycle of a bounty: open, claimed, then paid, or it expires or is cancelled.
pub open spec fn bounty_statuses() -> Seq<Seq<char>> {
    seq!["open"@, "claimed"@, "paid"@, "expired"@, "cancelled"@]
}

/// A bounty status is accepted exactly when it is one of the five statuses of a
/// bounty's lifecycle.
pub proof fn law_bounty_statuses(s: Seq<char>)
    ensures
        bounty_status_ok(s) <==> bounty_statuses().contains(s),
        forall|i: int| 0 <= i < bounty_statuses().len() ==> bounty_status_ok(#[trigger] bounty_statuses()[i]),
{
    let l = bounty_statuses();
    if l.contains(s) {
        let i = choose|i: int| 0 <= i < l.len() && l[i] == s;
        assert(i == 0 || i == 1 || i == 2 || i == 3 || i == 4);
    }
    if bounty_status_ok(s) {
        if s == "open"@ { assert(l[0] == s); }
        else if s == "claimed"@ { assert(l[1] == s); }
        else if s == "paid"@ { assert(l[2] == s); }
        else if s == "expired"@ { assert(l[3] == s); }
        else { assert(l[4] == s); }
    }
    assert forall|i: int| 0 <= i < l.len() implies bounty_status_ok(#[trigger] l[i]) by {
        assert(i == 0 || i == 1 || i == 2 || i == 3 || i == 4);
    }
}

/// Check a task status: one of pending, running, succeeded, failed, stopped.
pub fn check_task_status(s: &str) -> (r: Result<(), CrdtError>)
    ensures
        r is Ok <==> task_status_ok(s@),
        r is Err ==> r == Err::<(), CrdtError>(CrdtError::InvalidStatus),
{
    if str_is(s, "pending") || str_is(s, "running") || str_is(s, "succeeded") || str_is(s, "failed")
        || str_is(s, "stopped") {
        Ok(())
    } else {
        Err(CrdtError::InvalidStatus)
    }
}

/// Check a bounty status: one of open, claimed, paid, expired, cancelled. A bounty that
/// becomes paid also gets its verification time.
pub fn check_bounty_status(s: &str) -> (r: Result<bool, CrdtError>)
    ensures
        r is Ok <==> bounty_status_ok(s@),
        r matches Ok(stamp_verified) ==> stamp_verified == (s@ == "paid"@),
        r is Err ==> r == Err::<bool, CrdtError>(CrdtError::InvalidStatus),
{
    if str_is(s, "open") || str_is(s, "claimed") || str_is(s, "paid") || str_is(s, "expired")
        || str_is(s, "cancelled") {
        Ok(str_is(s, "paid"))
    } else {
        Err(CrdtError::InvalidStatus)
    }
}

/// One author's entry in the version vector.
#[derive(Clone, Debug)]
pub struct VvEntry {
    pub author: String,
    pub max_seq: i64,
}

pub open spec fn vv_view(vv: Seq<VvEntry>) -> Seq<(Seq<char>, int)> {
    vv.map_values(|e: VvEntry| (e.author@, e.max_seq as int))
}

/// The position of an author's entry.
pub open spec fn vv_index(vv: Seq<(Seq<char>, int)>, author: Seq<char>) -> Option<int>
    decreases vv.len(),
{
    if vv.len() == 0 {
        None
    } else {
        match vv_index(vv.drop_last(), author) {
            Some(i) => Some(i),
            None => if vv.last().0 == author { Some(vv.len() - 1) } else { None },
        }
    }
}

/// The highest sequence number seen from an author; 0 when none.
pub open spec fn vv_get(vv: Seq<(Seq<char>, int)>, author: Seq<char>) -> int {
    match vv_index(vv, author) {
        Some(i) => vv[i].1,
        None => 0,
    }
}

/// The vector after setting an author's entry.
pub open spec fn vv_set(vv: Seq<(Seq<char>, int)>, author: Seq<char>, seq: int) -> Seq<(Seq<char>, int)> {
    match vv_index(vv, author) {
        Some(i) => vv.update(i, (author, seq)),
        None => vv.push((author, seq)),
    }
}

/// The vector after a remote operation with sequence number `seq`: the author's entry
/// becomes the larger of what it was and `seq` (an author without an entry gets `seq`).
pub open spec fn vv_advance(vv: Seq<(Seq<char>, int)>, author: Seq<char>, seq: int) -> Seq<(Seq<char>, int)> {
    match vv_index(vv, author) {
        Some(i) => vv.update(i, (author, if vv[i].1 > seq { vv[i].1 } else { seq })),
        None => vv.push((author, seq)),
    }
}

proof fn lemma_vv_index(vv: Seq<(Seq<char>, int)>, a: Seq<char>)
    ensures
        vv_index(vv, a) matches Some(i) ==> 0 <= i < vv.len() && vv[i].0 == a
            && forall|k: int| 0 <= k < i ==> (#[trigger] vv[k]).0 != a,
        vv_index(vv, a) is None ==> forall|k: int| 0 <= k < vv.len() ==> (#[trigger] vv[k]).0 != a,
    decreases vv.len(),
{
    if vv.len() > 0 {
        lemma_vv_index(vv.drop_last(), a);
        assert forall|k: int| 0 <= k < vv.len() - 1 implies vv.drop_last()[k] == vv[k] by {}
    }
}

proof fn lemma_vv_index_first(vv: Seq<(Seq<char>, int)>, a: Seq<char>, i: int)
    requires
        0 <= i < vv.len(),
        vv[i].0 == a,
        forall|k: int| 0 <= k < i ==> (#[trigger] vv[k]).0 != a,
    ensures
        vv_index(vv, a) == Some(i),
    decreases vv.len(),
{
    lemma_vv_index(vv, a);
    if i < vv.len() - 1 {
        assert forall|k: int| 0 <= k < i implies (#[trigger] vv.drop_last()[k]).0 != a by {
            assert(vv.drop_last()[k] == vv[k]);
        }
        assert(vv.drop_last()[i] == vv[i]);
        lemma_vv_index_first(vv.drop_last(), a, i);
    } else {
        lemma_vv_index(vv.drop_last(), a);
        assert forall|k: int| 0 <= k < vv.drop_last().len() implies (#[trigger] vv.drop_last()[k]).0 != a by {
            assert(vv.drop_last()[k] == vv[k]);
        }
    }
}

/// Reading an author's entry after writing one: the written value for that author, the
/// old value for every other.
proof fn lemma_vv_get_after_write(vv: Seq<(Seq<char>, int)>, a: Seq<char>, v: int, x: Seq<char>)
    ensures
        vv_get(vv_set(vv, a, v), x) == (if x == a { v } else { vv_get(vv, x) }),
{
    lemma_vv_index(vv, a);
    lemma_vv_index(vv, x);
    let w = vv_set(vv, a, v);
    lemma_vv_index(w, x);
    match vv_index(vv, a) {
        Some(i) => {
            if x == a {
                assert forall|k: int| 0 <= k < i implies (#[trigger] w[k]).0 != x by {
                    assert(w[k] == vv[k]);
                }
                lemma_vv_index_first(w, x, i);
            } else {
                match vv_index(vv, x) {
                    Some(j) => {
                        assert forall|k: int| 0 <= k < j implies (#[trigger] w[k]).0 != x by {
                            if k != i {
                                assert(w[k] == vv[k]);
                            }
                        }
                        assert(w[j] == vv[j]);
                        lemma_vv_index_first(w, x, j);
                    },
                    None => {
                        assert forall|k: int| 0 <= k < w.len() implies (#[trigger] w[k]).0 != x by {
                            if k != i {
                                assert(w[k] == vv[k]);
                            }
                        }
                    },
                }
            }
        },
        None => {
            if x == a {
                assert forall|k: int| 0 <= k < vv.len() implies (#[trigger] w[k]).0 != x by {
                    assert(w[k] == vv[k]);
                }
                lemma_vv_index_first(w, x, vv.len() as int);
            } else {
                match vv_index(vv, x) {
                    Some(j) => {
                        assert forall|k: int| 0 <= k < j implies (#[trigger] w[k]).0 != x by {
                            assert(w[k] == vv[k]);
                        }
                        assert(w[j] == vv[j]);
                        lemma_vv_index_first(w, x, j);
                    },
                    None => {
                        assert forall|k: int| 0 <= k < w.len() implies (#[trigger] w[k]).0 != x by {
                            if k < vv.len() {
                                assert(w[k] == vv[k]);
                            }
                        }
                    },
                }
            }
        },
    }
}

/// Advancing is setting the entry to the larger of the old value and the new one.
proof fn lemma_advance_is_set(vv: Seq<(Seq<char>, int)>, a: Seq<char>, s: int)
    ensures
        vv_index(vv, a) is Some ==> vv_advance(vv, a, s) == vv_set(vv, a, if vv_get(vv, a) > s { vv_get(vv, a) } else { s }),
        vv_index(vv, a) is None ==> vv_advance(vv, a, s) == vv_set(vv, a, s),
{
}

/// What advancing gives, read back: for the author, the larger of the old entry and the
/// new number (the new number when there was no entry); for everyone else, no change.
pub open spec fn advanced_value(vv: Seq<(Seq<char>, int)>, a: Seq<char>, s: int, x: Seq<char>) -> int {
    if x == a {
        if vv_index(vv, a) is Some && vv_get(vv, a) > s { vv_get(vv, a) } else { s }
    } else {
        vv_get(vv, x)
    }
}

proof fn lemma_advance_get(vv: Seq<(Seq<char>, int)>, a: Seq<char>, s: int, x: Seq<char>)
    ensures
        vv_get(vv_advance(vv, a, s), x) == advanced_value(vv, a, s, x),
        vv_index(vv_advance(vv, a, s), x) is Some <==> (x == a || vv_index(vv, x) is Some),
{
    lemma_advance_is_set(vv, a, s);
    let v = if vv_index(vv, a) is Some && vv_get(vv, a) > s { vv_get(vv, a) } else { s };
    lemma_vv_get_after_write(vv, a, v, x);
    lemma_vv_index(vv, a);
    lemma_vv_index(vv, x);
    let w = vv_set(vv, a, v);
    lemma_vv_index(w, x);
    if x == a {
        lemma_vv_index(w, a);
        match vv_index(vv, a) {
            Some(i) => {
                assert(w[i].0 == a);
            },
            None => {
                assert(w[vv.len() as int].0 == a);
            },
        }
    } else {
        match vv_index(vv, x) {
            Some(j) => {
                match vv_index(vv, a) {
                    Some(i) => {
                        assert(j != i);
                        assert(w[j] == vv[j]);
                    },
                    None => {
                        assert(w[j] == vv[j]);
                    },
                }
            },
            None => {
                if vv_index(w, x) is Some {
                    let j = vv_index(w, x)->0;
                    match vv_index(vv, a) {
                        Some(i) => {
                            if j != i {
                                assert(w[j] == vv[j]);
                            }
                        },
                        None => {
                            if j < vv.len() {
                                assert(w[j] == vv[j]);
                            }
                        },
                    }
                }
            },
        }
    }
}

/// Remote operations may arrive in any order: advancing the version vector for two
/// operations gives the same entries either way, so replicas that saw the same
/// operations agree.
pub proof fn law_advance_commutes(vv: Seq<(Seq<char>, int)>, a: Seq<char>, s: int, b: Seq<char>, t: int, x: Seq<char>)
    requires
        s >= 0,
        t >= 0,
        forall|k: int| 0 <= k < vv.len() ==> (#[trigger] vv[k]).1 >= 0,
    ensures
        vv_get(vv_advance(vv_advance(vv, a, s), b, t), x) == vv_get(vv_advance(vv_advance(vv, b, t), a, s), x),
{
    let ab1 = vv_advance(vv, a, s);
    let ba1 = vv_advance(vv, b, t);
    lemma_advance_get(vv, a, s, x);
    lemma_advance_get(vv, a, s, b);
    lemma_advance_get(vv, b, t, x);
    lemma_advance_get(vv, b, t, a);
    lemma_advance_get(ab1, b, t, x);
    lemma_advance_get(ba1, a, s, x);
    lemma_vv_index(vv, a);
    lemma_vv_index(vv, b);
    lemma_vv_index(vv, x);
    if vv_index(vv, a) is Some {
        assert(vv[vv_index(vv, a)->0].1 >= 0);
    }
    if vv_index(vv, b) is Some {
        assert(vv[vv_index(vv, b)->0].1 >= 0);
    }
}

/// Applying the same remote operation twice leaves the version vector as once.
pub proof fn law_advance_idempotent(vv: Seq<(Seq<char>, int)>, a: Seq<char>, s: int, x: Seq<char>)
    ensures
        vv_get(vv_advance(vv_advance(vv, a, s), a, s), x) == vv_get(vv_advance(vv, a, s), x),
{
    lemma_advance_get(vv, a, s, x);
    lemma_advance_get(vv, a, s, a);
    lemma_advance_get(vv_advance(vv, a, s), a, s, x);
}

/// The version vector never goes backwards: advancing keeps every entry at least what it was.
pub proof fn law_advance_monotone(vv: Seq<(Seq<char>, int)>, a: Seq<char>, s: int, x: Seq<char>)
    ensures
        vv_get(vv_advance(vv, a, s), x) >= vv_get(vv, x) || (x == a && vv_index(vv, a) is None),
        x == a ==> vv_get(vv_advance(vv, a, s), x) >= s,
{
    lemma_advance_get(vv, a, s, x);
}

/// Reading the version vector after a remote operation: the author's entry is the larger
/// of what it was and the operation's number (that number for a new author), and every
/// other author's entry is unchanged.
pub proof fn law_advance_read_back(vv: Seq<(Seq<char>, int)>, a: Seq<char>, s: int, x: Seq<char>)
    ensures
        vv_get(vv_advance(vv, a, s), x) == advanced_value(vv, a, s, x),
{
    lemma_advance_get(vv, a, s, x);
}

/// Reading the version vector after setting an entry: the set value for that author,
/// the old value for every other.
pub proof fn law_set_read_back(vv: Seq<(Seq<char>, int)>, a: Seq<char>, v: int, x: Seq<char>)
    ensures
        vv_get(vv_set(vv, a, v), x) == (if x == a { v } else { vv_get(vv, x) }),
{
    lemma_vv_get_after_write(vv, a, v, x);
}

/// Two successive local operations of an author step by one: after the first takes
/// sequence number `n + 1` (`next_author_seq`), the second takes `n + 2`; and once the
/// first, stamped `t1 = clock + 1` (`next_lamport_ts`), is logged, the clock reads `t1`,
/// so the second is stamped `t1 + 1`.
pub proof fn law_successive_ops_step_by_one(vv: Seq<(Seq<char>, int)>, a: Seq<char>, ts: Seq<i64>, t1: i64)
    requires
        t1 == max_lamport(ts) + 1,
    ensures
        vv_get(vv_set(vv, a, vv_get(vv, a) + 1), a) + 1 == vv_get(vv, a) + 2,
        max_lamport(ts.push(t1)) == t1,
{
    lemma_vv_get_after_write(vv, a, vv_get(vv, a) + 1, a);
    lemma_max_lamport_ge(ts);
    assert(ts.push(t1).drop_last() =~= ts);
}

proof fn lemma_max_lamport_ge(ts: Seq<i64>)
    ensures
        max_lamport(ts) >= 0,
    decreases ts.len(),
{
    if ts.len() > 0 {
        lemma_max_lamport_ge(ts.drop_last());
    }
}

fn find_author(vv: &Vec<VvEntry>, author: &str) -> (r: Option<usize>)
    ensures
        r matches Some(i) ==> vv_index(vv_view(vv@), author@) == Some(i as int),
        r is None ==> vv_index(vv_view(vv@), author@) is None,
{
    let ghost view = vv_view(vv@);
    proof {
        lemma_vv_index(view, author@);
    }
    let mut i: usize = 0;
    while i < vv.len()
        invariant
            i <= vv@.len(),
            view == vv_view(vv@),
            view.len() == vv@.len(),
            forall|k: int| 0 <= k < i ==> (#[trigger] view[k]).0 != author@,
        decreases vv@.len() - i,
    {
        if str_is(vv[i].author.as_str(), author) {
            proof {
                lemma_vv_index_first(view, author@, i as int);
            }
            return Some(i);
        }
        i = i + 1;
    }
    proof {
        if vv_index(view, author@) is Some {
            assert(false);
        }
    }
    None
}

fn write_entry(vv: &mut Vec<VvEntry>, at: Option<usize>, author: &str, seq: i64)
    requires
        at matches Some(i) ==> vv_index(vv_view(old(vv)@), author@) == Some(i as int),
        at is None ==> vv_index(vv_view(old(vv)@), author@) is None,
    ensures
        vv_view(final(vv)@) == vv_set(vv_view(old(vv)@), author@, seq as int),
{
    let ghost before = vv@;
    proof {
        lemma_vv_index(vv_view(before), author@);
    }
    let e = VvEntry { author: author.to_string(), max_seq: seq };
    match at {
        Some(i) => {
            let _old = vv.remove(i);
            vv.insert(i, e);
            assert(vv@ =~= before.update(i as int, e));
        },
        None => {
            vv.push(e);
        },
    }
    assert(vv_view(vv@) =~= vv_set(vv_view(before), author@, seq as int));
}

/// The next sequence number of a local author: one past its entry (1 for a new author);
/// the entry is set to it.
pub fn next_author_seq(vv: &mut Vec<VvEntry>, author: &str) -> (seq: i64)
    requires
        vv_get(vv_view(old(vv)@), author@) < i64::MAX,
    ensures
        seq == vv_get(vv_view(old(vv)@), author@) + 1,
        vv_view(final(vv)@) == vv_set(vv_view(old(vv)@), author@, seq as int),
{
    let at = find_author(vv, author);
    proof {
        lemma_vv_index(vv_view(vv@), author@);
        if let Some(i) = at {
            assert(vv_view(vv@)[i as int].1 == vv@[i as int].max_seq);
        }
    }
    let seq = match at {
        Some(i) => vv[i].max_seq + 1,
        None => 1,
    };
    write_entry(vv, at, author, seq);
    seq
}

/// Record a remote author's sequence number: the entry never goes backwards.
pub fn advance_author_seq(vv: &mut Vec<VvEntry>, author: &str, seq: i64)
    ensures
        vv_view(final(vv)@) == vv_advance(vv_view(old(vv)@), author@, seq as int),
{
    let at = find_author(vv, author);
    proof {
        lemma_vv_index(vv_view(vv@), author@);
        if let Some(i) = at {
            assert(vv_view(vv@)[i as int].1 == vv@[i as int].max_seq);
        }
    }
    let v = match at {
        Some(i) => if vv[i].max_seq > seq { vv[i].max_seq } else { seq },
        None => seq,
    };
    write_entry(vv, at, author, v);
}

/// The highest Lamport timestamp so far (0 with no operations).
pub open spec fn max_lamport(ts: Seq<i64>) -> int
    decreases ts.len(),
{
    if ts.len() == 0 {
        0
    } else {
        let m = max_lamport(ts.drop_last());
        if ts.last() > m { ts.last() as int } else { m }
    }
}

/// The current Lamport clock: the largest timestamp in the operation log.
pub fn current_lamport_ts(ts: &[i64]) -> (m: i64)
    ensures
        m == max_lamport(ts@),
{
    let mut m: i64 = 0;
    let mut i: usize = 0;
    while i < ts.len()
        invariant
            i <= ts@.len(),
            m == max_lamport(ts@.take(i as int)),
        decreases ts@.len() - i,
    {
        assert(ts@.take(i + 1).drop_last() =~= ts@.take(i as int));
        if ts[i] > m {
            m = ts[i];
        }
        i = i + 1;
    }
    assert(ts@.take(ts@.len() as int) =~= ts@);
    m
}

/// The timestamp of the next local operation: one past the current clock.
pub fn next_lamport_ts(ts: &[i64]) -> (t: i64)
    requires
        max_lamport(ts@) < i64::MAX,
    ensures
        t == max_lamport(ts@) + 1,
{
    current_lamport_ts(ts) + 1
}

/// An operation in the log, as duplicate detection sees it.
#[derive(Clone, Debug)]
pub struct LoggedOp {
    pub author: String,
    pub author_seq: i64,
}

/// What becomes of a remote operation.
#[derive(Clone, Copy, Debug, PartialEq, Eq, Structural)]
pub enum RemoteStatus {
    /// Already in the log (same author and sequence number): nothing is done.
    Duplicate,
    /// To be applied and recorded.
    Apply,
}

/// Whether the log holds an operation of this author with this sequence number.
pub open spec fn logged(log: Seq<LoggedOp>, author: Seq<char>, seq: i64) -> bool {
    exists|k: int| 0 <= k < log.len() && (#[trigger] log[k]).author@ == author && log[k].author_seq == seq
}

/// Remote operations are idempotent: once an operation is in the log, the same author
/// and sequence number are a duplicate from then on, and whatever was logged stays logged.
pub proof fn law_logged_op_is_duplicate(log: Seq<LoggedOp>, op: LoggedOp, author: Seq<char>, seq: i64)
    ensures
        logged(log.push(op), op.author@, op.author_seq),
        logged(log, author, seq) ==> logged(log.push(op), author, seq),
{
    assert(log.push(op)[log.len() as int] == op);
    if logged(log, author, seq) {
        let k = choose|k: int| 0 <= k < log.len() && (#[trigger] log[k]).author@ == author && log[k].author_seq == seq;
        assert(log.push(op)[k] == log[k]);
    }
}

/// Decode the hex signature and public key of a remote operation.
pub fn decode_remote_keys(signature_hex: &str, public_key_hex: &str) -> (r: Result<(Vec<u8>, Vec<u8>), CrdtError>)
    ensures
        hex_decoded(signature_hex@) is None ==> r == Err::<(Vec<u8>, Vec<u8>), CrdtError>(CrdtError::InvalidHexSignature),
        hex_decoded(signature_hex@) is Some && hex_decoded(public_key_hex@) is None
            ==> r == Err::<(Vec<u8>, Vec<u8>), CrdtError>(CrdtError::InvalidHexPublicKey),
        r matches Ok((sig, pk)) ==> hex_decoded(signature_hex@) == Some(sig@) && hex_decoded(public_key_hex@) == Some(pk@),
        r is Ok <==> (hex_decoded(signature_hex@) is Some && hex_decoded(public_key_hex@) is Some),
{
    let sig = match hex_decode(signature_hex) {
        Some(s) => s,
        None => return Err(CrdtError::InvalidHexSignature),
    };
    let pk = match hex_decode(public_key_hex) {
        Some(p) => p,
        None => return Err(CrdtError::InvalidHexPublicKey),
    };
    Ok((sig, pk))
}

/// The decision on a remote operation whose signature was checked: refused when the
/// signature does not verify; a duplicate when the log already holds it; refused when
/// it skips sequence numbers of its author (causality: an earlier operation of that
/// author, after the one the version vector records, has not arrived); else applied.
pub fn remote_op_status(
    log: &[LoggedOp],
    vv: &Vec<VvEntry>,
    author: &str,
    author_seq: i64,
    signature_ok: bool,
) -> (r: Result<RemoteStatus, CrdtError>)
    ensures
        !signature_ok ==> r == Err::<RemoteStatus, CrdtError>(CrdtError::SignatureVerificationFailed),
        signature_ok && logged(log@, author@, author_seq) ==> r == Ok::<RemoteStatus, CrdtError>(RemoteStatus::Duplicate),
        signature_ok && !logged(log@, author@, author_seq) && author_seq > vv_get(vv_view(vv@), author@) + 1
            ==> r == Err::<RemoteStatus, CrdtError>(
                CrdtError::CausalGap { expected: (vv_get(vv_view(vv@), author@) + 1) as i64, got: author_seq }),
        signature_ok && !logged(log@, author@, author_seq) && author_seq <= vv_get(vv_view(vv@), author@) + 1
            ==> r == Ok::<RemoteStatus, CrdtError>(RemoteStatus::Apply),
{
    if !signature_ok {
        return Err(CrdtError::SignatureVerificationFailed);
    }
    let mut i: usize = 0;
    while i < log.len()
        invariant
            i <= log@.len(),
            signature_ok,
            forall|k: int| 0 <= k < i ==> !((#[trigger] log@[k]).author@ == author@ && log@[k].author_seq == author_seq),
        decreases log@.len() - i,
    {
        if log[i].author_seq == author_seq && str_is(log[i].author.as_str(), author) {
            assert(log@[i as int].author@ == author@);
            return Ok(RemoteStatus::Duplicate);
        }
        i = i + 1;
    }
    let at = find_author(vv, author);
    proof {
        lemma_vv_index(vv_view(vv@), author@);
        if let Some(k) = at {
            assert(vv_view(vv@)[k as int].1 == vv@[k as int].max_seq);
        }
    }
    let known: i64 = match at {
        Some(k) => vv[k].max_seq,
        None => 0,
    };
    if known < author_seq && (author_seq as i128) - (known as i128) > 1 {
        return Err(CrdtError::CausalGap { expected: known + 1, got: author_seq });
    }
    Ok(RemoteStatus::Apply)
}

/// The name given to an unknown peer: `peer-` and the first eight characters of its
/// fingerprint (the whole fingerprint when shorter).
pub open spec fn spec_peer_name(fingerprint: Seq<char>) -> Seq<char> {
    "peer-"@ + (if fingerprint.len() >= 8 { fingerprint.take(8) } else { fingerprint })
}

/// The name for an auto-registered peer. Fingerprints are ASCII.
pub fn peer_name(fingerprint: &str) -> (name: String)
    requires
        forall|k: int| 0 <= k < fingerprint@.len() ==> (#[trigger] fingerprint@[k]) < 128 as char,
    ensures
        name@ == spec_peer_name(fingerprint@),
{
    let cs = chars_of(fingerprint);
    let mut name = String::new();
    push_char(&mut name, 'p');
    push_char(&mut name, 'e');
    push_char(&mut name, 'e');
    push_char(&mut name, 'r');
    push_char(&mut name, '-');
    let n: usize = if cs.len() >= 8 { 8 } else { cs.len() };
    let mut i: usize = 0;
    while i < n
        invariant
            i <= n <= cs@.len(),
            cs@ == fingerprint@,
            name@ == seq!['p', 'e', 'e', 'r', '-'] + cs@.take(i as int),
        decreases n - i,
    {
        assert(cs@.take(i + 1) == cs@.take(i as int).push(cs@[i as int]));
        push_char(&mut name, cs[i]);
        i = i + 1;
    }
    proof {
        reveal_strlit("peer-");
        if cs@.len() < 8 {
            assert(cs@.take(n as int) =~= cs@);
        }
    }
    name
}

/// The base64 decoding of a text, when it is valid base64 (standard alphabet, padded).
pub uninterp spec fn base64_decoded(s: Seq<char>) -> Option<Seq<u8>>;

/// `base64::engine::general_purpose::STANDARD.decode`: the bytes a base64 text stands
/// for, or `None` when the text is not valid base64. What the engine accepts is named,
/// not restated.
#[verifier::external_body]
fn base64_decode(s: &str) -> (r: Option<Vec<u8>>)
    ensures
        match r {
            Some(v) => base64_decoded(s@) == Some(v@),
            None => base64_decoded(s@) is None,
        },
{
    base64::engine::general_purpose::STANDARD.decode(s).ok()
}

/// How a weight delta is applied.
#[derive(Clone, Debug)]
pub enum WeightUpdate {
    /// Add the delta element-wise to the stored tensor.
    AddTo { delta: Vec<u8> },
    /// No tensor is stored yet: store the delta as the initial weights, with this shape.
    Insert { delta: Vec<u8>, shape: Vec<i64> },
}

/// The checks of a weight delta: valid base64, a whole number of 4-byte floats, and
/// as many bytes as the stored tensor when there is one.
pub open spec fn weight_delta_check(delta_b64: Seq<char>, stored_len: Option<usize>) -> Result<Seq<u8>, CrdtError> {
    match base64_decoded(delta_b64) {
        None => Err(CrdtError::InvalidBase64Delta),
        Some(d) => if d.len() % 4 != 0 {
            Err(CrdtError::DeltaNotWholeFloats)
        } else if stored_len is Some && stored_len->0 != d.len() {
            Err(CrdtError::DeltaSizeMismatch { delta: d.len() as usize, tensor: stored_len->0 })
        } else {
            Ok(d)
        },
    }
}

/// A weight delta is accepted exactly when it decodes, is a whole number of 4-byte
/// floats, and (when weights are stored) has as many bytes as the stored tensor; it is
/// then applied as decoded.
pub proof fn law_weight_delta_accepted(delta_b64: Seq<char>, stored_len: Option<usize>)
    ensures
        weight_delta_check(delta_b64, stored_len) is Ok <==> (base64_decoded(delta_b64) matches Some(d)
            && d.len() % 4 == 0 && (stored_len matches Some(n) ==> d.len() == n)),
        weight_delta_check(delta_b64, stored_len) matches Ok(b) ==> base64_decoded(delta_b64) == Some(b),
        base64_decoded(delta_b64) is None ==> weight_delta_check(delta_b64, stored_len) == Err::<Seq<u8>, CrdtError>(CrdtError::InvalidBase64Delta),
{
}

/// The shape of new weights: the integer dimensions given with the operation, or one
/// dimension of the float count.
pub open spec fn new_shape(given: Option<Seq<Option<i64>>>, floats: int) -> Seq<i64>
    decreases (match given { Some(g) => g.len(), None => 0 }),
{
    match given {
        None => seq![floats as i64],
        Some(g) => if g.len() == 0 {
            Seq::empty()
        } else {
            let rest = new_shape(Some(g.drop_last()), floats);
            match g.last() {
                Some(d) => rest.push(d),
                None => rest,
            }
        },
    }
}

/// The shape of new weights: without given dimensions, one dimension of the float
/// count; with given dimensions, the integer ones in order (the others dropped).
pub proof fn law_new_shape(given: Seq<Option<i64>>, floats: int)
    ensures
        new_shape(None, floats) == seq![floats as i64],
        (forall|i: int| 0 <= i < given.len() ==> (#[trigger] given[i]) is Some) ==>
            new_shape(Some(given), floats) == given.map_values(|d: Option<i64>| d->0),
        new_shape(Some(given.push(None)), floats) == new_shape(Some(given), floats),
    decreases given.len(),
{
    assert(given.push(None).drop_last() =~= given);
    if given.len() > 0 {
        let front = given.drop_last();
        law_new_shape(front, floats);
        if forall|i: int| 0 <= i < given.len() ==> (#[trigger] given[i]) is Some {
            assert forall|i: int| 0 <= i < front.len() implies (#[trigger] front[i]) is Some by {
                assert(front[i] == given[i]);
            }
            assert(given[given.len() - 1] is Some);
            assert(new_shape(Some(given), floats) =~= given.map_values(|d: Option<i64>| d->0));
        }
    } else {
        assert(new_shape(Some(given), floats) =~= given.map_values(|d: Option<i64>| d->0));
    }
}

/// Plan the update of a stored tensor by a delta from a `update_model_weights`
/// operation. `stored_len` is the byte length of the stored tensor, if any; `shape` the
/// dimensions in the payload (each `None` when not an integer), if any.
pub fn plan_weight_update(delta_b64: &str, stored_len: Option<usize>, shape: Option<Vec<Option<i64>>>) -> (r: Result<WeightUpdate, CrdtError>)
    ensures
        match weight_delta_check(delta_b64@, stored_len) {
            Err(e) => r == Err::<WeightUpdate, CrdtError>(e),
            Ok(d) => match r {
                Ok(WeightUpdate::AddTo { delta }) => stored_len is Some && delta@ == d,
                Ok(WeightUpdate::Insert { delta, shape: s }) => stored_len is None && delta@ == d
                    && s@ == new_shape(match shape { Some(g) => Some(g@), None => None }, (d.len() / 4) as int),
                Err(_) => false,
            },
        },
{
    let delta = match base64_decode(delta_b64) {
        Some(d) => d,
        None => return Err(CrdtError::InvalidBase64Delta),
    };
    if delta.len() % 4 != 0 {
        return Err(CrdtError::DeltaNotWholeFloats);
    }
    match stored_len {
        Some(n) => {
            if n != delta.len() {
                return Err(CrdtError::DeltaSizeMismatch { delta: delta.len(), tensor: n });
            }
            Ok(WeightUpdate::AddTo { delta })
        },
        None => {
            let floats = delta.len() / 4;
            let dims = match shape {
                None => {
                    assert(floats <= i64::MAX);
                    vec![floats as i64]
                },
                Some(g) => {
                    let mut dims: Vec<i64> = Vec::new();
                    let mut i: usize = 0;
                    while i < g.len()
                        invariant
                            i <= g@.len(),
                            dims@ == new_shape(Some(g@.take(i as int)), floats as int),
                        decreases g@.len() - i,
                    {
                        assert(g@.take(i + 1).drop_last() =~= g@.take(i as int));
                        match g[i] {
                            Some(d) => dims.push(d),
                            None => {},
                        }
                        i = i + 1;
                    }
                    assert(g@.take(g@.len() as int) =~= g@);
                    dims
                },
            };
            Ok(WeightUpdate::Insert { delta, shape: dims })
        },
    }
}

} // verus!
