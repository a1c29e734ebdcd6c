//! The kōi ledger: balances are derived from an append-only list of entries;
//! transfers move value between wallets and mints (entries without a source
//! wallet) create it.

use vstd::prelude::*;

verus! {

/// One ledger entry. `from_wallet` is `None` for a mint.
#[derive(Clone, Copy, Debug, PartialEq, Eq, Structural)]
pub struct LedgerEntry {
    pub from_wallet: Option<u128>,
    pub to_wallet: u128,
    pub amount: i64,
    pub timestamp: i64,
}

/// Why a ledger operation was refused.
#[derive(Clone, Copy, Debug, PartialEq, Eq, Structural)]
pub enum LedgerError {
    AmountNotPositive,
    SourceWalletNotFound,
    DestinationWalletNotFound,
    TargetWalletNotFound,
    InsufficientBalance { balance: i128, amount: i64 },
    InvalidNonce { expected: i128, got: i64 },
    InvalidSignature,
    /// The ledger already holds the largest timestamp an entry can have.
    TimestampExhausted,
}

/// Total received by `w` in the first `n` entries.
pub open spec fn received_prefix(l: Seq<LedgerEntry>, n: int, w: u128) -> int
    decreases n,
{
    if n <= 0 {
        0
    } else {
        received_prefix(l, n - 1, w) + (if l[n - 1].to_wallet == w { l[n - 1].amount as int } else { 0 })
    }
}

/// Total sent by `w` in the first `n` entries.
pub open spec fn sent_prefix(l: Seq<LedgerEntry>, n: int, w: u128) -> int
    decreases n,
{
    if n <= 0 {
        0
    } else {
        sent_prefix(l, n - 1, w) + (if l[n - 1].from_wallet == Some(w) { l[n - 1].amount as int } else { 0 })
    }
}

/// Total minted in the first `n` entries.
pub open spec fn minted_prefix(l: Seq<LedgerEntry>, n: int) -> int
    decreases n,
{
    if n <= 0 {
        0
    } else {
        minted_prefix(l, n - 1) + (if l[n - 1].from_wallet is None { l[n - 1].amount as int } else { 0 })
    }
}

/// Largest timestamp among the first `n` entries (0 when there are none).
pub open spec fn max_timestamp_prefix(l: Seq<LedgerEntry>, n: int) -> int
    decreases n,
{
    if n <= 0 {
        0
    } else if n == 1 {
        l[0].timestamp as int
    } else {
        let m = max_timestamp_prefix(l, n - 1);
        if l[n - 1].timestamp > m { l[n - 1].timestamp as int } else { m }
    }
}

pub open spec fn received(l: Seq<LedgerEntry>, w: u128) -> int {
    received_prefix(l, l.len() as int, w)
}

pub open spec fn sent(l: Seq<LedgerEntry>, w: u128) -> int {
    sent_prefix(l, l.len() as int, w)
}

/// A wallet's balance: everything it received minus everything it sent.
pub open spec fn balance(l: Seq<LedgerEntry>, w: u128) -> int {
    received(l, w) - sent(l, w)
}

/// The total supply: the sum of all mints.
pub open spec fn total_supply(l: Seq<LedgerEntry>) -> int {
    minted_prefix(l, l.len() as int)
}

/// The timestamp the next entry gets: one past the largest so far (1 on an empty ledger).
pub open spec fn next_timestamp(l: Seq<LedgerEntry>) -> int {
    max_timestamp_prefix(l, l.len() as int) + 1
}

proof fn lemma_prefix_push(l: Seq<LedgerEntry>, e: LedgerEntry, n: int, w: u128)
    requires
        0 <= n <= l.len(),
    ensures
        received_prefix(l.push(e), n, w) == received_prefix(l, n, w),
        sent_prefix(l.push(e), n, w) == sent_prefix(l, n, w),
        minted_prefix(l.push(e), n) == minted_prefix(l, n),
        max_timestamp_prefix(l.push(e), n) == max_timestamp_prefix(l, n),
    decreases n,
{
    if n > 0 {
        lemma_prefix_push(l, e, n - 1, w);
    }
}

/// Appending an entry adds its amount to the receiver, to the sender (if any) and,
/// for a mint, to the supply.
pub proof fn lemma_push_entry(l: Seq<LedgerEntry>, e: LedgerEntry, w: u128)
    ensures
        received(l.push(e), w) == received(l, w) + (if e.to_wallet == w { e.amount as int } else { 0 }),
        sent(l.push(e), w) == sent(l, w) + (if e.from_wallet == Some(w) { e.amount as int } else { 0 }),
        total_supply(l.push(e)) == total_supply(l) + (if e.from_wallet is None { e.amount as int } else { 0 }),
        next_timestamp(l.push(e)) == (if l.len() == 0 || e.timestamp + 1 > next_timestamp(l) { e.timestamp + 1 } else { next_timestamp(l) }),
{
    lemma_prefix_push(l, e, l.len() as int, w);
    assert(l.push(e).len() == l.len() + 1);
    assert(l.push(e)[l.len() as int] == e);
}

/// Total received and sent by a wallet.
pub fn wallet_totals(l: &[LedgerEntry], w: u128) -> (r: (i128, i128))
    ensures
        r.0 == received(l@, w),
        r.1 == sent(l@, w),
{
    let mut rec: i128 = 0;
    let mut snt: i128 = 0;
    let n = l.len();
    let mut i: usize = 0;
    while i < n
        invariant
            i <= l@.len(),
            rec == received_prefix(l@, i as int, w),
            snt == sent_prefix(l@, i as int, w),
            -(i as int) * 0x8000_0000_0000_0000 <= rec <= (i as int) * 0x8000_0000_0000_0000,
            -(i as int) * 0x8000_0000_0000_0000 <= snt <= (i as int) * 0x8000_0000_0000_0000,
            n == l@.len(),
        decreases n - i,
    {
        let e = l[i];
        assert((i + 1) * 0x8000_0000_0000_0000 <= 0x7fff_ffff_ffff_ffff_8000_0000_0000_0000) by (nonlinear_arith)
            requires i + 1 <= usize::MAX, usize::MAX <= 0xffff_ffff_ffff_ffff;
        if e.to_wallet == w {
            rec = rec + e.amount as i128;
        }
        if e.from_wallet == Some(w) {
            snt = snt + e.amount as i128;
        }
        i = i + 1;
    }
    (rec, snt)
}

/// The total supply: the sum of all mints.
pub fn supply_of(l: &[LedgerEntry]) -> (t: i128)
    ensures
        t == total_supply(l@),
{
    let mut total: i128 = 0;
    let n = l.len();
    let mut i: usize = 0;
    while i < n
        invariant
            i <= l@.len(),
            n == l@.len(),
            total == minted_prefix(l@, i as int),
            -(i as int) * 0x8000_0000_0000_0000 <= total <= (i as int) * 0x8000_0000_0000_0000,
        decreases n - i,
    {
        let e = l[i];
        assert((i + 1) * 0x8000_0000_0000_0000 <= 0x7fff_ffff_ffff_ffff_8000_0000_0000_0000) by (nonlinear_arith)
            requires i + 1 <= usize::MAX, usize::MAX <= 0xffff_ffff_ffff_ffff;
        if e.from_wallet.is_none() {
            total = total + e.amount as i128;
        }
        i = i + 1;
    }
    total
}

/// A wallet's balance.
pub fn wallet_balance(l: &[LedgerEntry], w: u128) -> (b: i128)
    ensures
        b == balance(l@, w),
{
    let mut b: i128 = 0;
    let n = l.len();
    let mut i: usize = 0;
    while i < n
        invariant
            i <= n,
            n == l@.len(),
            b == received_prefix(l@, i as int, w) - sent_prefix(l@, i as int, w),
            -(i as int) * 0x8000_0000_0000_0000 <= b <= (i as int) * 0x8000_0000_0000_0000,
        decreases n - i,
    {
        let e = l[i];
        assert((i + 1) * 0x8000_0000_0000_0000 <= 0x7fff_ffff_ffff_ffff_8000_0000_0000_0000) by (nonlinear_arith)
            requires i + 1 <= usize::MAX, usize::MAX <= 0xffff_ffff_ffff_ffff;
        let to_me = e.to_wallet == w;
        let from_me = e.from_wallet == Some(w);
        if to_me && !from_me {
            b = b + e.amount as i128;
        } else if from_me && !to_me {
            b = b - e.amount as i128;
        }
        i = i + 1;
    }
    b
}

/// The timestamp for the next entry: one past the largest so far; `None` when the
/// largest is already `i64::MAX`.
pub fn next_ledger_timestamp(l: &[LedgerEntry]) -> (t: Option<i64>)
    ensures
        t is Some <==> next_timestamp(l@) <= i64::MAX,
        t matches Some(v) ==> v == next_timestamp(l@),
{
    let mut m: i64 = 0;
    let mut i: usize = 0;
    while i < l.len()
        invariant
            i <= l@.len(),
            m == max_timestamp_prefix(l@, i as int),
        decreases l@.len() - i,
    {
        if i == 0 || l[i].timestamp > m {
            m = l[i].timestamp;
        }
        i = i + 1;
    }
    if m == i64::MAX { None } else { Some(m + 1) }
}

/// Whether `w` is among `wallets`.
pub fn wallet_exists(wallets: &[u128], w: u128) -> (b: bool)
    ensures
        b == wallets@.contains(w),
{
    let mut i: usize = 0;
    while i < wallets.len()
        invariant
            i <= wallets@.len(),
            forall|k: int| 0 <= k < i ==> wallets@[k] != w,
        decreases wallets@.len() - i,
    {
        if wallets[i] == w {
            return true;
        }
        i = i + 1;
    }
    false
}

/// The checks of a transfer, in the order they are made.
pub open spec fn transfer_check(l: Seq<LedgerEntry>, wallets: Seq<u128>, from: u128, to: u128, amount: i64) -> Result<(), LedgerError> {
    if amount <= 0 {
        Err(LedgerError::AmountNotPositive)
    } else if !wallets.contains(from) {
        Err(LedgerError::SourceWalletNotFound)
    } else if !wallets.contains(to) {
        Err(LedgerError::DestinationWalletNotFound)
    } else if balance(l, from) < amount {
        Err(LedgerError::InsufficientBalance { balance: balance(l, from) as i128, amount })
    } else if next_timestamp(l) > i64::MAX {
        Err(LedgerError::TimestampExhausted)
    } else {
        Ok(())
    }
}

/// Transfer `amount` from one wallet to another: refused unless the amount is positive,
/// both wallets exist and the source holds at least the amount. Appends the entry.
pub fn transfer_koi(
    ledger: &mut Vec<LedgerEntry>,
    wallets: &[u128],
    from: u128,
    to: u128,
    amount: i64,
) -> (r: Result<LedgerEntry, LedgerError>)
    ensures
        r is Ok <==> transfer_check(old(ledger)@, wallets@, from, to, amount) is Ok,
        r matches Err(err) ==> transfer_check(old(ledger)@, wallets@, from, to, amount) == Err::<(), LedgerError>(err)
            && final(ledger)@ == old(ledger)@,
        r matches Ok(e) ==> e == (LedgerEntry {
            from_wallet: Some(from),
            to_wallet: to,
            amount,
            timestamp: next_timestamp(old(ledger)@) as i64,
        }) && final(ledger)@ == old(ledger)@.push(e),
{
    if amount <= 0 {
        return Err(LedgerError::AmountNotPositive);
    }
    if !wallet_exists(wallets, from) {
        return Err(LedgerError::SourceWalletNotFound);
    }
    if !wallet_exists(wallets, to) {
        return Err(LedgerError::DestinationWalletNotFound);
    }
    let bal = wallet_balance(ledger.as_slice(), from);
    if bal < amount as i128 {
        return Err(LedgerError::InsufficientBalance { balance: bal, amount });
    }
    let ts = match next_ledger_timestamp(ledger.as_slice()) {
        Some(t) => t,
        None => return Err(LedgerError::TimestampExhausted),
    };
    let e = LedgerEntry { from_wallet: Some(from), to_wallet: to, amount, timestamp: ts };
    ledger.push(e);
    Ok(e)
}

/// Mint `amount` into a wallet (an entry without a source): refused unless the amount is
/// positive and the wallet exists.
pub fn mint_koi(
    ledger: &mut Vec<LedgerEntry>,
    wallets: &[u128],
    to: u128,
    amount: i64,
) -> (r: Result<LedgerEntry, LedgerError>)
    ensures
        amount <= 0 ==> r == Err::<LedgerEntry, LedgerError>(LedgerError::AmountNotPositive),
        amount > 0 && !wallets@.contains(to) ==> r == Err::<LedgerEntry, LedgerError>(LedgerError::TargetWalletNotFound),
        amount > 0 && wallets@.contains(to) && next_timestamp(old(ledger)@) > i64::MAX
            ==> r == Err::<LedgerEntry, LedgerError>(LedgerError::TimestampExhausted),
        r is Ok <==> (amount > 0 && wallets@.contains(to) && next_timestamp(old(ledger)@) <= i64::MAX),
        r is Err ==> final(ledger)@ == old(ledger)@,
        r matches Ok(e) ==> e == (LedgerEntry {
            from_wallet: None,
            to_wallet: to,
            amount,
            timestamp: next_timestamp(old(ledger)@) as i64,
        }) && final(ledger)@ == old(ledger)@.push(e),
{
    if amount <= 0 {
        return Err(LedgerError::AmountNotPositive);
    }
    if !wallet_exists(wallets, to) {
        return Err(LedgerError::TargetWalletNotFound);
    }
    let ts = match next_ledger_timestamp(ledger.as_slice()) {
        Some(t) => t,
        None => return Err(LedgerError::TimestampExhausted),
    };
    let e = LedgerEntry { from_wallet: None, to_wallet: to, amount, timestamp: ts };
    ledger.push(e);
    Ok(e)
}

/// A transfer leaves the total supply unchanged, takes the amount from the source's
/// balance, adds it to the destination's, and leaves every other balance as it was.
pub proof fn law_transfer_moves_balance(l: Seq<LedgerEntry>, from: u128, to: u128, amount: i64, timestamp: i64, w: u128)
    ensures
        ({
            let l2 = l.push(LedgerEntry { from_wallet: Some(from), to_wallet: to, amount, timestamp });
            &&& total_supply(l2) == total_supply(l)
            &&& balance(l2, w) == balance(l, w)
                - (if w == from { amount as int } else { 0 })
                + (if w == to { amount as int } else { 0 })
        }),
{
    lemma_push_entry(l, LedgerEntry { from_wallet: Some(from), to_wallet: to, amount, timestamp }, w);
}

/// A mint adds its amount to the total supply and to the receiving wallet's balance,
/// and to no other balance.
pub proof fn law_mint_adds_supply(l: Seq<LedgerEntry>, to: u128, amount: i64, timestamp: i64, w: u128)
    ensures
        ({
            let l2 = l.push(LedgerEntry { from_wallet: None, to_wallet: to, amount, timestamp });
            &&& total_supply(l2) == total_supply(l) + amount
            &&& balance(l2, w) == balance(l, w) + (if w == to { amount as int } else { 0 })
        }),
{
    lemma_push_entry(l, LedgerEntry { from_wallet: None, to_wallet: to, amount, timestamp }, w);
}

/// Every entry gets a timestamp larger than all before it.
pub proof fn law_timestamps_increase(l: Seq<LedgerEntry>, e: LedgerEntry)
    requires
        e.timestamp == next_timestamp(l),
    ensures
        forall|i: int| 0 <= i < l.len() ==> #[trigger] l[i].timestamp < e.timestamp,
        next_timestamp(l.push(e)) == e.timestamp + 1,
{
    lemma_max_is_max(l, l.len() as int);
    lemma_push_entry(l, e, 0);
}

proof fn lemma_max_is_max(l: Seq<LedgerEntry>, n: int)
    requires
        0 <= n <= l.len(),
    ensures
        forall|i: int| 0 <= i < n ==> #[trigger] l[i].timestamp <= max_timestamp_prefix(l, n),
    decreases n,
{
    if n > 0 {
        lemma_max_is_max(l, n - 1);
    }
}

/// Lifecycle of a bounty.
#[derive(Clone, Copy, Debug, PartialEq, Eq, Structural)]
pub enum BountyStatus {
    Open,
    Claimed,
    Paid,
    Expired,
    Cancelled,
}

/// A bounty: who posted it, its reward, its state and who claimed it.
#[derive(Clone, Copy, Debug, PartialEq, Eq, Structural)]
pub struct Bounty {
    pub poster_wallet: u128,
    pub reward: i64,
    pub status: BountyStatus,
    pub claimed_by: Option<u128>,
}

/// Why a bounty request was refused.
#[derive(Clone, Copy, Debug, PartialEq, Eq, Structural)]
pub enum BountyError {
    RewardNotPositive,
    InsufficientBalance { balance: i128, reward: i64 },
    ClaimerWalletNotFound,
    BountyNotFound,
    WrongStatus(BountyStatus),
    NoClaimer,
    TimestampExhausted,
}

/// Post a bounty funded by `poster`: the reward must be positive and covered by the
/// poster's balance. The bounty starts open and unclaimed.
pub fn create_bounty(ledger: &[LedgerEntry], poster: u128, reward: i64) -> (r: Result<Bounty, BountyError>)
    ensures
        reward <= 0 ==> r == Err::<Bounty, BountyError>(BountyError::RewardNotPositive),
        reward > 0 && balance(ledger@, poster) < reward ==> r == Err::<Bounty, BountyError>(
            BountyError::InsufficientBalance { balance: balance(ledger@, poster) as i128, reward }),
        r is Ok <==> (reward > 0 && balance(ledger@, poster) >= reward),
        r matches Ok(b) ==> b == (Bounty { poster_wallet: poster, reward, status: BountyStatus::Open, claimed_by: None }),
{
    if reward <= 0 {
        return Err(BountyError::RewardNotPositive);
    }
    let bal = wallet_balance(ledger, poster);
    if bal < reward as i128 {
        return Err(BountyError::InsufficientBalance { balance: bal, reward });
    }
    Ok(Bounty { poster_wallet: poster, reward, status: BountyStatus::Open, claimed_by: None })
}

/// Claim a bounty: the claimer's wallet must exist and the bounty be found and open.
/// The bounty becomes claimed by `claimer`.
pub fn claim_bounty(wallets: &[u128], bounty: Option<Bounty>, claimer: u128) -> (r: Result<Bounty, BountyError>)
    ensures
        !wallets@.contains(claimer) ==> r == Err::<Bounty, BountyError>(BountyError::ClaimerWalletNotFound),
        wallets@.contains(claimer) && bounty is None ==> r == Err::<Bounty, BountyError>(BountyError::BountyNotFound),
        wallets@.contains(claimer) && (bounty matches Some(b) && b.status != BountyStatus::Open)
            ==> r == Err::<Bounty, BountyError>(BountyError::WrongStatus(bounty->0.status)),
        r is Ok <==> (wallets@.contains(claimer) && (bounty matches Some(b) && b.status == BountyStatus::Open)),
        r matches Ok(b) ==> b == (Bounty { status: BountyStatus::Claimed, claimed_by: Some(claimer), ..bounty->0 }),
{
    if !wallet_exists(wallets, claimer) {
        return Err(BountyError::ClaimerWalletNotFound);
    }
    match bounty {
        None => Err(BountyError::BountyNotFound),
        Some(b) => {
            if b.status != BountyStatus::Open {
                Err(BountyError::WrongStatus(b.status))
            } else {
                Ok(Bounty { status: BountyStatus::Claimed, claimed_by: Some(claimer), ..b })
            }
        },
    }
}

/// Settle a claimed bounty: the reward moves from the poster to the claimer (the poster
/// must still hold it) and the bounty becomes paid.
pub fn settle_bounty(ledger: &mut Vec<LedgerEntry>, bounty: Option<Bounty>) -> (r: Result<(Bounty, LedgerEntry), BountyError>)
    ensures
        bounty is None ==> r == Err::<(Bounty, LedgerEntry), BountyError>(BountyError::BountyNotFound),
        (bounty matches Some(b) && b.status != BountyStatus::Claimed)
            ==> r == Err::<(Bounty, LedgerEntry), BountyError>(BountyError::WrongStatus(bounty->0.status)),
        (bounty matches Some(b) && b.status == BountyStatus::Claimed && b.claimed_by is None)
            ==> r == Err::<(Bounty, LedgerEntry), BountyError>(BountyError::NoClaimer),
        (bounty matches Some(b) && b.status == BountyStatus::Claimed && b.claimed_by is Some
            && balance(old(ledger)@, b.poster_wallet) < b.reward)
            ==> r == Err::<(Bounty, LedgerEntry), BountyError>(BountyError::InsufficientBalance {
                balance: balance(old(ledger)@, bounty->0.poster_wallet) as i128, reward: bounty->0.reward }),
        r is Ok <==> (bounty matches Some(b) && b.status == BountyStatus::Claimed && b.claimed_by is Some
            && balance(old(ledger)@, b.poster_wallet) >= b.reward && next_timestamp(old(ledger)@) <= i64::MAX),
        r is Err ==> final(ledger)@ == old(ledger)@,
        r matches Ok((b, e)) ==> {
            &&& b == Bounty { status: BountyStatus::Paid, ..bounty->0 }
            &&& e == (LedgerEntry {
                from_wallet: Some(bounty->0.poster_wallet),
                to_wallet: bounty->0.claimed_by->0,
                amount: bounty->0.reward,
                timestamp: next_timestamp(old(ledger)@) as i64,
            })
            &&& final(ledger)@ == old(ledger)@.push(e)
        },
{
    let b = match bounty {
        None => return Err(BountyError::BountyNotFound),
        Some(b) => b,
    };
    if b.status != BountyStatus::Claimed {
        return Err(BountyError::WrongStatus(b.status));
    }
    let claimer = match b.claimed_by {
        None => return Err(BountyError::NoClaimer),
        Some(c) => c,
    };
    let bal = wallet_balance(ledger.as_slice(), b.poster_wallet);
    if bal < b.reward as i128 {
        return Err(BountyError::InsufficientBalance { balance: bal, reward: b.reward });
    }
    let ts = match next_ledger_timestamp(ledger.as_slice()) {
        Some(t) => t,
        None => return Err(BountyError::TimestampExhausted),
    };
    let e = LedgerEntry { from_wallet: Some(b.poster_wallet), to_wallet: claimer, amount: b.reward, timestamp: ts };
    ledger.push(e);
    Ok((Bounty { status: BountyStatus::Paid, ..b }, e))
}

} // verus!
