use kerai::ledger::{mint_koi, LedgerEntry, LedgerError};
use kerai::rewards::{
    deduct_inference_cost, evaluate_mining, find_rule, mint_reward, mint_training_reward, set_reward, Bonus,
    RewardError, ScheduleEntry,
};

const INSTANCE: u128 = 0x1;
const AGENT: u128 = 0x2;

#[test]
fn set_reward_then_mint() {
    let mut schedule: Vec<ScheduleEntry> = Vec::new();
    assert!(matches!(set_reward(&mut schedule, "parse_file", 0, None), Err(RewardError::RewardNotPositive)));
    set_reward(&mut schedule, "parse_file", 10, None).unwrap();
    set_reward(&mut schedule, "parse_crate", 50, Some(false)).unwrap();
    assert_eq!(find_rule(&schedule, "parse_file"), Some(0));
    assert_eq!(find_rule(&schedule, "nothing"), None);

    let mut ledger: Vec<LedgerEntry> = Vec::new();
    let e = mint_reward(&mut ledger, &schedule, "parse_file", INSTANCE).unwrap();
    assert_eq!(e, Some(LedgerEntry { from_wallet: None, to_wallet: INSTANCE, amount: 10, timestamp: 1 }));
    // disabled and unknown work types mint nothing
    assert_eq!(mint_reward(&mut ledger, &schedule, "parse_crate", INSTANCE), Ok(None));
    assert_eq!(mint_reward(&mut ledger, &schedule, "unknown", INSTANCE), Ok(None));
    assert_eq!(ledger.len(), 1);

    // updating keeps one row and the new reward is what is minted
    set_reward(&mut schedule, "parse_file", 25, Some(true)).unwrap();
    assert_eq!(schedule.len(), 2);
    let e = mint_reward(&mut ledger, &schedule, "parse_file", INSTANCE).unwrap().unwrap();
    assert_eq!(e.amount, 25);
    assert_eq!(e.timestamp, 2);
}

#[test]
fn mining_bonuses() {
    let mut ledger: Vec<LedgerEntry> = Vec::new();
    let rep = evaluate_mining(&mut ledger, INSTANCE, 250, 0, 7, 4, Some(3)).unwrap();
    assert_eq!(rep.parse_bonus, Some(Bonus { reward: 100, count: 250 }));
    assert_eq!(rep.version_bonus, Some(Bonus { reward: 9, count: 3 }));
    assert_eq!(
        ledger,
        vec![
            LedgerEntry { from_wallet: None, to_wallet: INSTANCE, amount: 100, timestamp: 1 },
            LedgerEntry { from_wallet: None, to_wallet: INSTANCE, amount: 9, timestamp: 2 },
        ]
    );
    // parses already rewarded, no rate: nothing
    let rep = evaluate_mining(&mut ledger, INSTANCE, 250, 5, 7, 4, None).unwrap();
    assert_eq!(rep.parse_bonus, None);
    assert_eq!(rep.version_bonus, None);
    assert_eq!(ledger.len(), 2);
    // few nodes: the bonus is the node count
    let rep = evaluate_mining(&mut ledger, INSTANCE, 42, 0, 0, 0, Some(3)).unwrap();
    assert_eq!(rep.parse_bonus, Some(Bonus { reward: 42, count: 42 }));
}

#[test]
fn mining_refused_when_timestamps_run_out() {
    let mut ledger = vec![LedgerEntry { from_wallet: None, to_wallet: INSTANCE, amount: 1, timestamp: i64::MAX - 1 }];
    // two mints need two timestamps; only one is left
    assert_eq!(
        evaluate_mining(&mut ledger, INSTANCE, 10, 0, 2, 1, Some(1)),
        Err(LedgerError::TimestampExhausted)
    );
    assert_eq!(ledger.len(), 1);
    assert!(evaluate_mining(&mut ledger, INSTANCE, 10, 0, 0, 0, None).is_ok());
}

#[test]
fn training_reward_scales_with_steps() {
    let mut ledger: Vec<LedgerEntry> = Vec::new();
    let e = mint_training_reward(&mut ledger, Some(AGENT), Some(5), 35, 9).unwrap();
    assert_eq!(e, LedgerEntry { from_wallet: None, to_wallet: AGENT, amount: 15, timestamp: 9 });
    let e = mint_training_reward(&mut ledger, Some(AGENT), Some(5), 3, 10).unwrap();
    assert_eq!(e.amount, 5);
    assert_eq!(mint_training_reward(&mut ledger, None, Some(5), 30, 11), None);
    assert_eq!(mint_training_reward(&mut ledger, Some(AGENT), None, 30, 11), None);
    assert_eq!(ledger.len(), 2);
}

#[test]
fn inference_is_charged_only_when_affordable() {
    let mut ledger: Vec<LedgerEntry> = Vec::new();
    mint_koi(&mut ledger, &[AGENT], AGENT, 10).unwrap();
    let e = deduct_inference_cost(&mut ledger, Some(AGENT), Some(4), INSTANCE, 7).unwrap();
    assert_eq!(e, LedgerEntry { from_wallet: Some(AGENT), to_wallet: INSTANCE, amount: 4, timestamp: 7 });
    assert_eq!(deduct_inference_cost(&mut ledger, Some(AGENT), Some(100), INSTANCE, 8), None);
    assert_eq!(deduct_inference_cost(&mut ledger, None, Some(1), INSTANCE, 8), None);
    assert_eq!(deduct_inference_cost(&mut ledger, Some(AGENT), None, INSTANCE, 8), None);
    assert_eq!(ledger.len(), 2);
}

#[test]
fn bonuses_counted_as_rewarded_are_not_paid_again() {
    let mut ledger = Vec::new();
    let rep = evaluate_mining(&mut ledger, INSTANCE, 40, 0, 6, 2, Some(5)).unwrap();
    assert_eq!(rep.parse_bonus, Some(Bonus { reward: 40, count: 40 }));
    assert_eq!(rep.version_bonus, Some(Bonus { reward: 20, count: 4 }));
    // the paid parse bonus is one rewarded parse; the 4 paid versions are rewarded
    let rep = evaluate_mining(&mut ledger, INSTANCE, 40, 1, 6, 2 + 4, Some(5)).unwrap();
    assert_eq!(rep.parse_bonus, None);
    assert_eq!(rep.version_bonus, None);
    assert_eq!(ledger.len(), 2);
}
