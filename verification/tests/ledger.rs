use kerai::ledger::{
    claim_bounty, create_bounty, mint_koi, supply_of, next_ledger_timestamp, settle_bounty, transfer_koi, wallet_balance,
    wallet_totals, Bounty, BountyError, BountyStatus, LedgerEntry, LedgerError,
};

const A: u128 = 0xa;
const B: u128 = 0xb;
const C: u128 = 0xc;

fn funded() -> Vec<LedgerEntry> {
    let mut l = Vec::new();
    mint_koi(&mut l, &[A, B, C], A, 1000).unwrap();
    l
}

#[test]
fn mint_then_transfer_moves_balance() {
    let mut l = funded();
    assert_eq!(wallet_balance(&l, A), 1000);
    let e = transfer_koi(&mut l, &[A, B], A, B, 300).unwrap();
    assert_eq!(e, LedgerEntry { from_wallet: Some(A), to_wallet: B, amount: 300, timestamp: 2 });
    assert_eq!(wallet_balance(&l, A), 700);
    assert_eq!(wallet_balance(&l, B), 300);
    assert_eq!(wallet_totals(&l, A), (1000, 300));
    // total supply: only the mint
    let supply: i64 = l.iter().filter(|e| e.from_wallet.is_none()).map(|e| e.amount).sum();
    assert_eq!(supply, 1000);
}

#[test]
fn transfer_errors() {
    let mut l = funded();
    assert_eq!(transfer_koi(&mut l, &[A, B], A, B, 0), Err(LedgerError::AmountNotPositive));
    assert_eq!(transfer_koi(&mut l, &[B], A, B, 1), Err(LedgerError::SourceWalletNotFound));
    assert_eq!(transfer_koi(&mut l, &[A], A, B, 1), Err(LedgerError::DestinationWalletNotFound));
    assert_eq!(
        transfer_koi(&mut l, &[A, B], A, B, 1001),
        Err(LedgerError::InsufficientBalance { balance: 1000, amount: 1001 })
    );
    assert_eq!(l.len(), 1);
}

#[test]
fn mint_errors() {
    let mut l = Vec::new();
    assert_eq!(mint_koi(&mut l, &[A], A, -5), Err(LedgerError::AmountNotPositive));
    assert_eq!(mint_koi(&mut l, &[A], B, 5), Err(LedgerError::TargetWalletNotFound));
    assert!(l.is_empty());
}

#[test]
fn timestamps_count_up_and_run_out() {
    let l = funded();
    assert_eq!(next_ledger_timestamp(&l), Some(2));
    assert_eq!(next_ledger_timestamp(&[]), Some(1));
    let full = vec![LedgerEntry { from_wallet: None, to_wallet: A, amount: 1, timestamp: i64::MAX }];
    assert_eq!(next_ledger_timestamp(&full), None);
    let mut full = full;
    assert_eq!(mint_koi(&mut full, &[A], A, 1), Err(LedgerError::TimestampExhausted));
}

#[test]
fn bounty_lifecycle() {
    let mut l = funded();
    assert_eq!(create_bounty(&l, A, 0), Err(BountyError::RewardNotPositive));
    assert_eq!(
        create_bounty(&l, A, 5000),
        Err(BountyError::InsufficientBalance { balance: 1000, reward: 5000 })
    );
    let b = create_bounty(&l, A, 250).unwrap();
    assert_eq!(b, Bounty { poster_wallet: A, reward: 250, status: BountyStatus::Open, claimed_by: None });
    assert_eq!(claim_bounty(&[A], Some(b), C), Err(BountyError::ClaimerWalletNotFound));
    assert_eq!(claim_bounty(&[A, C], None, C), Err(BountyError::BountyNotFound));
    let claimed = claim_bounty(&[A, C], Some(b), C).unwrap();
    assert_eq!(claimed.status, BountyStatus::Claimed);
    assert_eq!(claimed.claimed_by, Some(C));
    assert_eq!(
        claim_bounty(&[A, C], Some(claimed), C),
        Err(BountyError::WrongStatus(BountyStatus::Claimed))
    );
    assert_eq!(settle_bounty(&mut l, Some(b)), Err(BountyError::WrongStatus(BountyStatus::Open)));
    let (paid, e) = settle_bounty(&mut l, Some(claimed)).unwrap();
    assert_eq!(paid.status, BountyStatus::Paid);
    assert_eq!(e, LedgerEntry { from_wallet: Some(A), to_wallet: C, amount: 250, timestamp: 2 });
    assert_eq!(wallet_balance(&l, C), 250);
    assert_eq!(wallet_balance(&l, A), 750);
}

#[test]
fn supply_counts_mints_only() {
    let mut l = funded();
    assert_eq!(supply_of(&l), 1000);
    transfer_koi(&mut l, &[A, B], A, B, 300).unwrap();
    assert_eq!(supply_of(&l), 1000);
    mint_koi(&mut l, &[A, B], B, 50).unwrap();
    assert_eq!(supply_of(&l), 1050);
    assert_eq!(supply_of(&[]), 0);
}

#[test]
fn next_timestamp_follows_the_largest_even_when_negative() {
    let l = vec![
        LedgerEntry { from_wallet: None, to_wallet: 1, amount: 5, timestamp: -7 },
        LedgerEntry { from_wallet: None, to_wallet: 1, amount: 5, timestamp: -3 },
    ];
    assert_eq!(next_ledger_timestamp(&l), Some(-2));
    assert_eq!(next_ledger_timestamp(&[]), Some(1));
}
