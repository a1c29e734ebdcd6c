use base64::Engine;
use kerai::crdt::{
    advance_author_seq, check_bounty_status, check_task_status, current_lamport_ts, decode_remote_keys,
    next_author_seq, next_lamport_ts, op_type_str, parse_op_type, peer_name, plan_weight_update,
    remote_op_status, validate_op, CrdtError, LoggedOp, OpType, RemoteStatus, VvEntry, WeightUpdate,
};

#[test]
fn op_types_round_trip() {
    for t in [OpType::InsertNode, OpType::DeleteEdge, OpType::UpdateModelWeights, OpType::TrainStep, OpType::MintReward] {
        assert_eq!(parse_op_type(op_type_str(t)), Some(t));
    }
    assert_eq!(parse_op_type("update_content"), Some(OpType::UpdateContent));
    assert_eq!(parse_op_type("drop_table"), None);
}

#[test]
fn validation_of_ops() {
    assert_eq!(validate_op("bogus", Some(1)), Err(CrdtError::UnknownOpType));
    assert_eq!(validate_op("update_content", None), Err(CrdtError::NodeIdRequired));
    assert_eq!(validate_op("move_node", Some(5)), Ok(OpType::MoveNode));
    assert_eq!(validate_op("insert_node", None), Ok(OpType::InsertNode));
    assert_eq!(validate_op("create_task", None), Ok(OpType::CreateTask));
}

#[test]
fn statuses() {
    assert_eq!(check_task_status("running"), Ok(()));
    assert_eq!(check_task_status("done"), Err(CrdtError::InvalidStatus));
    assert_eq!(check_bounty_status("paid"), Ok(true));
    assert_eq!(check_bounty_status("claimed"), Ok(false));
    assert_eq!(check_bounty_status("lost"), Err(CrdtError::InvalidStatus));
}

fn get(vv: &[VvEntry], a: &str) -> i64 {
    vv.iter().find(|e| e.author == a).map(|e| e.max_seq).unwrap_or(0)
}

#[test]
fn version_vector() {
    let mut vv: Vec<VvEntry> = Vec::new();
    assert_eq!(next_author_seq(&mut vv, "me"), 1);
    assert_eq!(next_author_seq(&mut vv, "me"), 2);
    advance_author_seq(&mut vv, "peer", 5);
    advance_author_seq(&mut vv, "peer", 3);
    assert_eq!(get(&vv, "peer"), 5);
    assert_eq!(get(&vv, "me"), 2);
    assert_eq!(vv.len(), 2);
}

#[test]
fn advancing_commutes() {
    let mut x: Vec<VvEntry> = Vec::new();
    advance_author_seq(&mut x, "a", 4);
    advance_author_seq(&mut x, "b", 9);
    advance_author_seq(&mut x, "a", 2);
    let mut y: Vec<VvEntry> = Vec::new();
    advance_author_seq(&mut y, "a", 2);
    advance_author_seq(&mut y, "a", 4);
    advance_author_seq(&mut y, "b", 9);
    for a in ["a", "b", "c"] {
        assert_eq!(get(&x, a), get(&y, a));
    }
}

#[test]
fn lamport_clock() {
    assert_eq!(current_lamport_ts(&[]), 0);
    assert_eq!(current_lamport_ts(&[3, 9, 4]), 9);
    assert_eq!(next_lamport_ts(&[3, 9, 4]), 10);
}

#[test]
fn remote_ops() {
    assert_eq!(decode_remote_keys("zz", "00"), Err(CrdtError::InvalidHexSignature));
    assert_eq!(decode_remote_keys("00", "0"), Err(CrdtError::InvalidHexPublicKey));
    assert_eq!(decode_remote_keys("0a0b", "ff"), Ok((vec![10, 11], vec![255])));
    let log = vec![LoggedOp { author: "fp1".to_string(), author_seq: 3 }];
    let vv = vec![VvEntry { author: "fp1".to_string(), max_seq: 3 }];
    assert_eq!(remote_op_status(&log, &vv, "fp1", 3, false), Err(CrdtError::SignatureVerificationFailed));
    assert_eq!(remote_op_status(&log, &vv, "fp1", 3, true), Ok(RemoteStatus::Duplicate));
    assert_eq!(remote_op_status(&log, &vv, "fp1", 4, true), Ok(RemoteStatus::Apply));
    assert_eq!(remote_op_status(&log, &vv, "fp2", 1, true), Ok(RemoteStatus::Apply));
}

#[test]
fn remote_op_that_skips_a_sequence_number_is_refused() {
    let log = vec![LoggedOp { author: "fp1".to_string(), author_seq: 3 }];
    let vv = vec![VvEntry { author: "fp1".to_string(), max_seq: 3 }];
    assert_eq!(remote_op_status(&log, &vv, "fp1", 6, true), Err(CrdtError::CausalGap { expected: 4, got: 6 }));
    assert_eq!(remote_op_status(&log, &vv, "fp2", 3, true), Err(CrdtError::CausalGap { expected: 1, got: 3 }));
    assert_eq!(remote_op_status(&log, &vv, "fp1", 2, true), Ok(RemoteStatus::Apply));
    assert_eq!(peer_name("abcdef0123456789"), "peer-abcdef01");
    assert_eq!(peer_name("abc"), "peer-abc");
}

#[test]
fn weight_delta_checks() {
    let enc = |b: &[u8]| base64::engine::general_purpose::STANDARD.encode(b);
    assert!(matches!(plan_weight_update("!!!", None, None), Err(CrdtError::InvalidBase64Delta)));
    assert!(matches!(plan_weight_update(&enc(&[1, 2, 3]), None, None), Err(CrdtError::DeltaNotWholeFloats)));
    assert!(matches!(
        plan_weight_update(&enc(&[0; 8]), Some(4), None),
        Err(CrdtError::DeltaSizeMismatch { delta: 8, tensor: 4 })
    ));
    match plan_weight_update(&enc(&[0; 8]), Some(8), None) {
        Ok(WeightUpdate::AddTo { delta }) => assert_eq!(delta, vec![0; 8]),
        _ => panic!("expected an add"),
    }
    match plan_weight_update(&enc(&[0; 12]), None, None) {
        Ok(WeightUpdate::Insert { shape, .. }) => assert_eq!(shape, vec![3]),
        _ => panic!("expected an insert"),
    }
    match plan_weight_update(&enc(&[0; 12]), None, Some(vec![Some(3), None, Some(1)])) {
        Ok(WeightUpdate::Insert { shape, .. }) => assert_eq!(shape, vec![3, 1]),
        _ => panic!("expected an insert"),
    }
}
