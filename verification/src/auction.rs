//! Dutch auctions for attestations: the price starts high, falls by a fixed
//! decrement at every tick, and the auction either settles once enough bidders
//! accept the current price or is open-sourced when the price reaches its floor.

use vstd::prelude::*;

verus! {

/// Lifecycle of an auction.
#[derive(Clone, Copy, Debug, PartialEq, Eq, Structural)]
pub enum AuctionStatus {
    Active,
    Settled,
    OpenSourced,
}

/// Why an auction request was refused.
#[derive(Clone, Copy, Debug, PartialEq, Eq, Structural)]
pub enum AuctionError {
    StartingPriceNotPositive,
    FloorPriceNegative,
    FloorNotBelowStart,
    DecrementNotPositive,
    IntervalNotPositive,
    AttestationNotOwned,
    ActiveAuctionExists,
    MaxPriceNotPositive,
    AuctionNotFound,
    /// The auction is in another state than the request needs.
    WrongStatus(AuctionStatus),
    NotEnoughBidders { qualifying: u64, min_bidders: i64 },
}

/// The state of one auction.
#[derive(Clone, Copy, Debug, PartialEq, Eq, Structural)]
pub struct Auction {
    pub starting_price: i64,
    pub floor_price: i64,
    pub current_price: i64,
    pub price_decrement: i64,
    pub decrement_interval_secs: i64,
    pub min_bidders: i64,
    pub open_delay_hours: i64,
    pub status: AuctionStatus,
    pub settled_price: Option<i64>,
}

/// A bid: the wallet that placed it and the highest price it accepts.
#[derive(Clone, Copy, Debug, PartialEq, Eq, Structural)]
pub struct Bid {
    pub bidder_wallet: u128,
    pub max_price: i64,
}

/// What one tick of the auction clock did.
#[derive(Clone, Copy, Debug, PartialEq, Eq, Structural)]
pub enum TickOutcome {
    /// The price reached the floor; the auction is open-sourced at the floor price.
    OpenSourced { current_price: i64 },
    /// Enough bidders accept the new price.
    SettlementReady { current_price: i64, qualifying_bidders: u64 },
    /// The price fell; not enough bidders accept it yet.
    PriceDecremented { current_price: i64, qualifying_bidders: u64 },
}

/// One ledger payment made at settlement.
#[derive(Clone, Copy, Debug, PartialEq, Eq, Structural)]
pub struct Payment {
    pub from_wallet: u128,
    pub amount: i64,
    pub timestamp: i64,
}

/// The result of settling an auction.
#[derive(Clone, Debug, PartialEq, Eq)]
pub struct Settlement {
    pub settled_price: i64,
    pub bidder_count: u64,
    pub total_revenue: i64,
    /// One payment per qualifying bidder, in bid order.
    pub payments: Vec<Payment>,
}

/// The parameters of a new auction are acceptable.
pub open spec fn params_ok(starting_price: int, floor_price: int, price_decrement: int, interval: int) -> bool {
    &&& starting_price > 0
    &&& floor_price >= 0
    &&& floor_price < starting_price
    &&& price_decrement > 0
    &&& interval > 0
}

/// The first parameter error of a new auction, in the order they are checked.
pub open spec fn param_check(starting_price: int, floor_price: int, price_decrement: int, interval: int) -> Result<(), AuctionError> {
    if starting_price <= 0 {
        Err(AuctionError::StartingPriceNotPositive)
    } else if floor_price < 0 {
        Err(AuctionError::FloorPriceNegative)
    } else if floor_price >= starting_price {
        Err(AuctionError::FloorNotBelowStart)
    } else if price_decrement <= 0 {
        Err(AuctionError::DecrementNotPositive)
    } else if interval <= 0 {
        Err(AuctionError::IntervalNotPositive)
    } else {
        Ok(())
    }
}

/// A new auction's parameters are accepted exactly when the starting price is positive,
/// the floor is non-negative and below the start, and the decrement and its interval are
/// positive; each refusal names the first rule broken.
pub proof fn law_auction_parameters(start: int, floor: int, dec: int, interval: int)
    ensures
        param_check(start, floor, dec, interval) is Ok
            <==> (start > 0 && 0 <= floor && floor < start && dec > 0 && interval > 0),
        start <= 0 ==> param_check(start, floor, dec, interval) == Err::<(), AuctionError>(AuctionError::StartingPriceNotPositive),
        start > 0 && floor < 0 ==> param_check(start, floor, dec, interval) == Err::<(), AuctionError>(AuctionError::FloorPriceNegative),
        start > 0 && floor >= start ==> param_check(start, floor, dec, interval) == Err::<(), AuctionError>(AuctionError::FloorNotBelowStart),
        start > 0 && 0 <= floor < start && dec <= 0 ==> param_check(start, floor, dec, interval) == Err::<(), AuctionError>(AuctionError::DecrementNotPositive),
        start > 0 && 0 <= floor < start && dec > 0 && interval <= 0 ==> param_check(start, floor, dec, interval) == Err::<(), AuctionError>(AuctionError::IntervalNotPositive),
{
}

/// An auction as creation and ticking keep it: prices ordered, positive decrement.
pub open spec fn auction_wf(a: Auction) -> bool {
    &&& 0 <= a.floor_price <= a.current_price <= a.starting_price
    &&& a.floor_price < a.starting_price
    &&& a.price_decrement > 0
    &&& a.decrement_interval_secs > 0
}

/// Number of bids among the first `n` whose maximum reaches `price`.
pub open spec fn qualifying_prefix(bids: Seq<Bid>, n: int, price: int) -> nat
    decreases n,
{
    if n <= 0 {
        0
    } else {
        qualifying_prefix(bids, n - 1, price) + (if bids[n - 1].max_price >= price { 1nat } else { 0nat })
    }
}

/// Number of bids whose maximum reaches `price`.
pub open spec fn qualifying(bids: Seq<Bid>, price: int) -> nat {
    qualifying_prefix(bids, bids.len() as int, price)
}

/// The bids among the first `n` whose maximum reaches `price`, in order.
pub open spec fn qualifying_bids_prefix(bids: Seq<Bid>, n: int, price: int) -> Seq<Bid>
    decreases n,
{
    if n <= 0 {
        Seq::empty()
    } else {
        let rest = qualifying_bids_prefix(bids, n - 1, price);
        if bids[n - 1].max_price >= price { rest.push(bids[n - 1]) } else { rest }
    }
}

/// The price after one tick: one decrement lower, but not below the floor.
pub open spec fn next_price(a: Auction) -> int {
    let p = a.current_price - a.price_decrement;
    if p > a.floor_price { p } else { a.floor_price as int }
}

/// The auction after one tick of an active auction.
pub open spec fn tick_state(a: Auction) -> Auction {
    if next_price(a) <= a.floor_price {
        Auction { current_price: a.floor_price, status: AuctionStatus::OpenSourced, ..a }
    } else {
        Auction { current_price: next_price(a) as i64, ..a }
    }
}

/// The outcome of one tick of an active auction with the given bids.
pub open spec fn tick_outcome(a: Auction, bids: Seq<Bid>) -> TickOutcome {
    let p = next_price(a);
    if p <= a.floor_price {
        TickOutcome::OpenSourced { current_price: a.floor_price }
    } else if qualifying(bids, p) >= a.min_bidders {
        TickOutcome::SettlementReady { current_price: p as i64, qualifying_bidders: qualifying(bids, p) as u64 }
    } else {
        TickOutcome::PriceDecremented { current_price: p as i64, qualifying_bidders: qualifying(bids, p) as u64 }
    }
}

/// The auction after `n` ticks (ticks after it stops being active change nothing).
pub open spec fn ticks(a: Auction, n: nat) -> Auction
    decreases n,
{
    if n == 0 {
        a
    } else {
        let b = ticks(a, (n - 1) as nat);
        if b.status == AuctionStatus::Active { tick_state(b) } else { b }
    }
}

/// How many ticks an active auction takes to reach its floor.
pub open spec fn ticks_to_floor(a: Auction) -> nat {
    if a.current_price <= a.floor_price {
        1
    } else {
        ((a.current_price - a.floor_price + a.price_decrement - 1) / (a.price_decrement as int)) as nat
    }
}

/// Check the parameters of a new auction, in the order the errors are reported.
pub fn validate_auction_params(
    starting_price: i64,
    floor_price: i64,
    price_decrement: i64,
    decrement_interval_secs: i64,
) -> (r: Result<(), AuctionError>)
    ensures
        r == param_check(starting_price as int, floor_price as int, price_decrement as int, decrement_interval_secs as int),
{
    if starting_price <= 0 {
        return Err(AuctionError::StartingPriceNotPositive);
    }
    if floor_price < 0 {
        return Err(AuctionError::FloorPriceNegative);
    }
    if floor_price >= starting_price {
        return Err(AuctionError::FloorNotBelowStart);
    }
    if price_decrement <= 0 {
        return Err(AuctionError::DecrementNotPositive);
    }
    if decrement_interval_secs <= 0 {
        return Err(AuctionError::IntervalNotPositive);
    }
    Ok(())
}

/// Create a Dutch auction. `attestation_owned` says whether the attestation exists and
/// belongs to this instance; `active_exists` whether it already has an active auction.
/// The price starts at `starting_price`. The parameters come in the order the auction
/// function takes them: start, decrement, interval, floor, bidders, delay.
pub fn create_auction(
    starting_price: i64,
    price_decrement: i64,
    decrement_interval_secs: i64,
    floor_price: i64,
    min_bidders: i64,
    open_delay_hours: i64,
    attestation_owned: bool,
    active_exists: bool,
) -> (r: Result<Auction, AuctionError>)
    ensures
        r is Ok <==> (params_ok(starting_price as int, floor_price as int, price_decrement as int, decrement_interval_secs as int)
            && attestation_owned && !active_exists),
        !params_ok(starting_price as int, floor_price as int, price_decrement as int, decrement_interval_secs as int)
            ==> r == Err::<Auction, AuctionError>(param_check(starting_price as int, floor_price as int, price_decrement as int, decrement_interval_secs as int)->Err_0),
        params_ok(starting_price as int, floor_price as int, price_decrement as int, decrement_interval_secs as int) && !attestation_owned
            ==> r == Err::<Auction, AuctionError>(AuctionError::AttestationNotOwned),
        params_ok(starting_price as int, floor_price as int, price_decrement as int, decrement_interval_secs as int) && attestation_owned && active_exists
            ==> r == Err::<Auction, AuctionError>(AuctionError::ActiveAuctionExists),
        r matches Ok(a) ==> a == (Auction {
            starting_price,
            floor_price,
            current_price: starting_price,
            price_decrement,
            decrement_interval_secs,
            min_bidders,
            open_delay_hours,
            status: AuctionStatus::Active,
            settled_price: None,
        }),
        r matches Ok(a) ==> auction_wf(a),
{
    match validate_auction_params(starting_price, floor_price, price_decrement, decrement_interval_secs) {
        Err(e) => Err(e),
        Ok(()) => {
            if !attestation_owned {
                Err(AuctionError::AttestationNotOwned)
            } else if active_exists {
                Err(AuctionError::ActiveAuctionExists)
            } else {
                Ok(Auction {
                    starting_price,
                    floor_price,
                    current_price: starting_price,
                    price_decrement,
                    decrement_interval_secs,
                    min_bidders,
                    open_delay_hours,
                    status: AuctionStatus::Active,
                    settled_price: None,
                })
            }
        },
    }
}

/// Check a bid: the price must be positive and the auction found and active.
pub fn place_bid(status: Option<AuctionStatus>, max_price: i64) -> (r: Result<(), AuctionError>)
    ensures
        r is Ok <==> (max_price > 0 && status == Some(AuctionStatus::Active)),
        max_price <= 0 ==> r == Err::<(), AuctionError>(AuctionError::MaxPriceNotPositive),
        max_price > 0 && status is None ==> r == Err::<(), AuctionError>(AuctionError::AuctionNotFound),
        max_price > 0 && (status matches Some(s) && s != AuctionStatus::Active)
            ==> r == Err::<(), AuctionError>(AuctionError::WrongStatus(status->0)),
{
    if max_price <= 0 {
        return Err(AuctionError::MaxPriceNotPositive);
    }
    match status {
        None => Err(AuctionError::AuctionNotFound),
        Some(AuctionStatus::Active) => Ok(()),
        Some(s) => Err(AuctionError::WrongStatus(s)),
    }
}

/// Count the bids whose maximum reaches `price`.
pub fn count_qualifying(bids: &[Bid], price: i64) -> (n: u64)
    ensures
        n == qualifying(bids@, price as int),
{
    let mut n: u64 = 0;
    let mut i: usize = 0;
    while i < bids.len()
        invariant
            i <= bids@.len(),
            n == qualifying_prefix(bids@, i as int, price as int),
            n <= i,
        decreases bids@.len() - i,
    {
        if bids[i].max_price >= price {
            n = n + 1;
        }
        i = i + 1;
    }
    n
}

/// Advance the auction clock by one tick: lower the price by the decrement (not below the
/// floor); at the floor the auction is open-sourced, otherwise report whether enough
/// bidders accept the new price.
pub fn tick_auction(a: &mut Auction, bids: &[Bid]) -> (r: Result<TickOutcome, AuctionError>)
    requires
        old(a).status == AuctionStatus::Active ==> i64::MIN <= old(a).current_price - old(a).price_decrement <= i64::MAX,
    ensures
        old(a).status != AuctionStatus::Active ==> r == Err::<TickOutcome, AuctionError>(AuctionError::WrongStatus(old(a).status))
            && *final(a) == *old(a),
        old(a).status == AuctionStatus::Active ==> r == Ok::<TickOutcome, AuctionError>(tick_outcome(*old(a), bids@))
            && *final(a) == tick_state(*old(a)),
{
    if a.status != AuctionStatus::Active {
        return Err(AuctionError::WrongStatus(a.status));
    }
    let lowered = a.current_price - a.price_decrement;
    let new_price = if lowered > a.floor_price { lowered } else { a.floor_price };
    if new_price <= a.floor_price {
        a.current_price = a.floor_price;
        a.status = AuctionStatus::OpenSourced;
        return Ok(TickOutcome::OpenSourced { current_price: a.floor_price });
    }
    a.current_price = new_price;
    let q = count_qualifying(bids, new_price);
    if (q as i128) >= (a.min_bidders as i128) {
        Ok(TickOutcome::SettlementReady { current_price: new_price, qualifying_bidders: q })
    } else {
        Ok(TickOutcome::PriceDecremented { current_price: new_price, qualifying_bidders: q })
    }
}

/// The payments settlement makes: the qualifying bids, each paying `price`, with
/// timestamps `lamport`, `lamport + price`, `lamport + 2 * price`, ...
pub open spec fn settlement_payments(bids: Seq<Bid>, price: int, lamport: int) -> Seq<Payment> {
    let q = qualifying_bids_prefix(bids, bids.len() as int, price);
    Seq::new(q.len(), |k: int| Payment {
        from_wallet: q[k].bidder_wallet,
        amount: price as i64,
        timestamp: (lamport + k * price) as i64,
    })
}

proof fn lemma_qualifying_len(bids: Seq<Bid>, n: int, price: int)
    requires
        0 <= n <= bids.len(),
    ensures
        qualifying_bids_prefix(bids, n, price).len() == qualifying_prefix(bids, n, price),
        qualifying_prefix(bids, n, price) <= n,
    decreases n,
{
    if n > 0 {
        lemma_qualifying_len(bids, n - 1, price);
    }
}

/// Whether `b` is one of the first `n` bids and reaches `price`.
pub open spec fn qualifying_bid_among(bids: Seq<Bid>, n: int, price: int, b: Bid) -> bool {
    exists|i: int| 0 <= i < n && #[trigger] bids[i] == b && bids[i].max_price >= price
}

proof fn lemma_qualifying_bids(bids: Seq<Bid>, n: int, price: int)
    requires
        0 <= n <= bids.len(),
    ensures
        forall|k: int| 0 <= k < qualifying_bids_prefix(bids, n, price).len() ==>
            qualifying_bid_among(bids, n, price, #[trigger] qualifying_bids_prefix(bids, n, price)[k]),
        forall|i: int| 0 <= i < n && (#[trigger] bids[i]).max_price >= price ==>
            qualifying_bids_prefix(bids, n, price).contains(bids[i]),
    decreases n,
{
    if n > 0 {
        lemma_qualifying_bids(bids, n - 1, price);
        let rest = qualifying_bids_prefix(bids, n - 1, price);
        let all = qualifying_bids_prefix(bids, n, price);
        assert forall|k: int| 0 <= k < all.len() implies qualifying_bid_among(bids, n, price, #[trigger] all[k]) by {
            if k < rest.len() {
                assert(all[k] == rest[k]);
                assert(qualifying_bid_among(bids, n - 1, price, rest[k]));
                let i = choose|i: int| 0 <= i < n - 1 && #[trigger] bids[i] == rest[k] && bids[i].max_price >= price;
                assert(0 <= i < n && bids[i] == all[k] && bids[i].max_price >= price);
            } else {
                assert(bids[n - 1].max_price >= price);
                assert(bids[n - 1] == all[k]);
                assert(0 <= n - 1 < n && bids[n - 1] == all[k] && bids[n - 1].max_price >= price);
            }
        }
        assert forall|i: int| 0 <= i < n && (#[trigger] bids[i]).max_price >= price implies all.contains(bids[i]) by {
            if i < n - 1 {
                let k = choose|k: int| 0 <= k < rest.len() && rest[k] == bids[i];
                assert(all[k] == rest[k]);
            } else {
                assert(all[all.len() - 1] == bids[i]);
            }
        }
    }
}

/// Settlement charges every bidder whose maximum reaches the price, and only those:
/// one payment of the price per qualifying bid, in bid order.
pub proof fn law_settlement_payments(bids: Seq<Bid>, price: int, lamport: int)
    ensures
        settlement_payments(bids, price, lamport).len() == qualifying(bids, price),
        forall|k: int| 0 <= k < settlement_payments(bids, price, lamport).len() ==> {
            let pay = #[trigger] settlement_payments(bids, price, lamport)[k];
            &&& pay.amount == price as i64
            &&& exists|i: int| 0 <= i < bids.len() && bids[i].bidder_wallet == pay.from_wallet && bids[i].max_price >= price
        },
        forall|i: int| 0 <= i < bids.len() && (#[trigger] bids[i]).max_price >= price ==>
            exists|k: int| 0 <= k < settlement_payments(bids, price, lamport).len()
                && settlement_payments(bids, price, lamport)[k].from_wallet == bids[i].bidder_wallet,
{
    let n = bids.len() as int;
    lemma_qualifying_len(bids, n, price);
    lemma_qualifying_bids(bids, n, price);
    let q = qualifying_bids_prefix(bids, n, price);
    let ps = settlement_payments(bids, price, lamport);
    assert forall|k: int| 0 <= k < ps.len() implies {
        let pay = #[trigger] ps[k];
        &&& pay.amount == price as i64
        &&& exists|i: int| 0 <= i < bids.len() && bids[i].bidder_wallet == pay.from_wallet && bids[i].max_price >= price
    } by {
        assert(qualifying_bid_among(bids, n, price, q[k]));
        let i = choose|i: int| 0 <= i < n && #[trigger] bids[i] == q[k] && bids[i].max_price >= price;
        assert(bids[i].bidder_wallet == ps[k].from_wallet);
    }
    assert forall|i: int| 0 <= i < bids.len() && (#[trigger] bids[i]).max_price >= price implies
        exists|k: int| 0 <= k < ps.len() && ps[k].from_wallet == bids[i].bidder_wallet by {
        let k = choose|k: int| 0 <= k < q.len() && q[k] == bids[i];
        assert(ps[k].from_wallet == bids[i].bidder_wallet);
    }
}

/// Fewer bidders accept a higher price: raising the price never adds qualifying bids.
pub proof fn law_qualifying_monotone(bids: Seq<Bid>, low: int, high: int, n: int)
    requires
        low <= high,
        0 <= n <= bids.len(),
    ensures
        qualifying_prefix(bids, n, high) <= qualifying_prefix(bids, n, low),
    decreases n,
{
    if n > 0 {
        law_qualifying_monotone(bids, low, high, n - 1);
    }
}

/// Settle an active auction: every bidder whose maximum reaches the current price pays it.
/// Refused when the auction is not active or fewer than `min_bidders` bids qualify.
pub fn settle_auction(a: &mut Auction, bids: &[Bid], lamport: i64) -> (r: Result<Settlement, AuctionError>)
    requires
        old(a).status == AuctionStatus::Active ==> {
            &&& old(a).current_price >= 0
            &&& lamport >= 0
            &&& lamport + qualifying(bids@, old(a).current_price as int) * old(a).current_price <= i64::MAX
        },
    ensures
        old(a).status != AuctionStatus::Active ==> r == Err::<Settlement, AuctionError>(AuctionError::WrongStatus(old(a).status))
            && *final(a) == *old(a),
        old(a).status == AuctionStatus::Active && qualifying(bids@, old(a).current_price as int) < old(a).min_bidders
            ==> r == Err::<Settlement, AuctionError>(AuctionError::NotEnoughBidders {
                qualifying: qualifying(bids@, old(a).current_price as int) as u64,
                min_bidders: old(a).min_bidders,
            }) && *final(a) == *old(a),
        r is Ok <==> (old(a).status == AuctionStatus::Active
            && qualifying(bids@, old(a).current_price as int) >= old(a).min_bidders),
        r matches Ok(s) ==> {
            &&& s.settled_price == old(a).current_price
            &&& s.bidder_count == qualifying(bids@, old(a).current_price as int)
            &&& s.total_revenue == s.bidder_count * s.settled_price
            &&& s.payments@ == settlement_payments(bids@, old(a).current_price as int, lamport as int)
            &&& *final(a) == Auction { status: AuctionStatus::Settled, settled_price: Some(old(a).current_price), ..*old(a) }
        },
{
    if a.status != AuctionStatus::Active {
        return Err(AuctionError::WrongStatus(a.status));
    }
    let price = a.current_price;
    let count = count_qualifying(bids, price);
    if (count as i128) < (a.min_bidders as i128) {
        return Err(AuctionError::NotEnoughBidders { qualifying: count, min_bidders: a.min_bidders });
    }
    let ghost q = qualifying_bids_prefix(bids@, bids@.len() as int, price as int);
    proof {
        lemma_qualifying_len(bids@, bids@.len() as int, price as int);
    }
    let mut payments: Vec<Payment> = Vec::new();
    let mut total: i64 = 0;
    let mut i: usize = 0;
    while i < bids.len()
        invariant
            i <= bids@.len(),
            price >= 0,
            lamport >= 0,
            lamport + qualifying(bids@, price as int) * price <= i64::MAX,
            q == qualifying_bids_prefix(bids@, bids@.len() as int, price as int),
            q.len() == qualifying(bids@, price as int),
            payments@.len() == qualifying_prefix(bids@, i as int, price as int),
            qualifying_bids_prefix(bids@, i as int, price as int).len() == payments@.len(),
            qualifying_prefix(bids@, i as int, price as int) <= qualifying(bids@, price as int),
            total == payments@.len() * price,
            forall|k: int| 0 <= k < payments@.len() ==> #[trigger] payments@[k] == (Payment {
                from_wallet: qualifying_bids_prefix(bids@, i as int, price as int)[k].bidder_wallet,
                amount: price,
                timestamp: (lamport + k * price) as i64,
            }),
        decreases bids@.len() - i,
    {
        proof {
            lemma_qualifying_len(bids@, i + 1, price as int);
            lemma_prefix_le(bids@, i + 1, bids@.len() as int, price as int);
        }
        if bids[i].max_price >= price {
            assert(payments@.len() + 1 <= qualifying(bids@, price as int));
            assert((payments@.len() + 1) * price <= qualifying(bids@, price as int) * price) by (nonlinear_arith)
                requires payments@.len() + 1 <= qualifying(bids@, price as int), price >= 0;
            assert(total + price == (payments@.len() + 1) * price) by (nonlinear_arith)
                requires total == payments@.len() * price;
            payments.push(Payment { from_wallet: bids[i].bidder_wallet, amount: price, timestamp: lamport + total });
            total = total + price;
        }
        i = i + 1;
    }
    assert(payments@ =~= settlement_payments(bids@, price as int, lamport as int));
    a.status = AuctionStatus::Settled;
    a.settled_price = Some(price);
    Ok(Settlement { settled_price: price, bidder_count: count, total_revenue: total, payments })
}

proof fn lemma_prefix_le(bids: Seq<Bid>, n: int, m: int, price: int)
    requires
        0 <= n <= m <= bids.len(),
    ensures
        qualifying_prefix(bids, n, price) <= qualifying_prefix(bids, m, price),
    decreases m - n,
{
    if n < m {
        lemma_prefix_le(bids, n, m - 1, price);
    }
}

/// Check that an auction may be open-sourced: it must exist and be settled
/// (or already open-sourced).
pub fn open_source_auction(status: Option<AuctionStatus>) -> (r: Result<(), AuctionError>)
    ensures
        r is Ok <==> (status == Some(AuctionStatus::Settled) || status == Some(AuctionStatus::OpenSourced)),
        status is None ==> r == Err::<(), AuctionError>(AuctionError::AuctionNotFound),
        status == Some(AuctionStatus::Active) ==> r == Err::<(), AuctionError>(AuctionError::WrongStatus(AuctionStatus::Active)),
{
    match status {
        None => Err(AuctionError::AuctionNotFound),
        Some(AuctionStatus::Active) => Err(AuctionError::WrongStatus(AuctionStatus::Active)),
        Some(_) => Ok(()),
    }
}

/// A tick of a well-formed active auction keeps it well-formed and never raises the
/// price nor lowers it below the floor.
pub proof fn lemma_tick_keeps_price_in_range(a: Auction)
    requires
        auction_wf(a),
        a.status == AuctionStatus::Active,
    ensures
        auction_wf(tick_state(a)),
        a.floor_price <= tick_state(a).current_price <= a.current_price,
        tick_state(a).status == AuctionStatus::Active || (tick_state(a).status == AuctionStatus::OpenSourced
            && tick_state(a).current_price == a.floor_price),
{
}

/// A tick's report agrees with settlement: after a tick that reports the auction ready,
/// settling it at the new price succeeds with the reported number of bidders; after a
/// tick that only lowers the price, settling is refused for want of bidders; after a
/// tick that reaches the floor, the auction is open-sourced and can no longer settle.
pub proof fn law_tick_report_matches_settlement(a: Auction, bids: Seq<Bid>)
    requires
        auction_wf(a),
        a.status == AuctionStatus::Active,
        bids.len() <= usize::MAX,
    ensures
        tick_outcome(a, bids) matches TickOutcome::SettlementReady { current_price, qualifying_bidders } ==> {
            &&& tick_state(a).status == AuctionStatus::Active
            &&& tick_state(a).current_price == current_price
            &&& qualifying(bids, current_price as int) >= tick_state(a).min_bidders
            &&& qualifying(bids, current_price as int) == qualifying_bidders
        },
        tick_outcome(a, bids) matches TickOutcome::PriceDecremented { current_price, .. } ==> {
            &&& tick_state(a).status == AuctionStatus::Active
            &&& tick_state(a).current_price == current_price
            &&& qualifying(bids, current_price as int) < tick_state(a).min_bidders
        },
        tick_outcome(a, bids) is OpenSourced ==> tick_state(a).status == AuctionStatus::OpenSourced,
{
    lemma_qualifying_len(bids, bids.len() as int, next_price(a));
}

proof fn lemma_ceil_div(x: int, d: int, t: int)
    requires
        x > 0,
        d > 0,
        t == (x + d - 1) / d,
    ensures
        t >= 1,
        t * d >= x,
        (t - 1) * d < x,
{
    vstd::arithmetic::div_mod::lemma_fundamental_div_mod(x + d - 1, d);
    let r = (x + d - 1) % d;
    assert(0 <= r < d) by {
        vstd::arithmetic::div_mod::lemma_mod_bound(x + d - 1, d);
    }
    assert(x + d - 1 == d * t + r);
    assert(t * d == d * t) by (nonlinear_arith);
    assert((t - 1) * d == t * d - d) by (nonlinear_arith);
    assert(t >= 1) by (nonlinear_arith)
        requires x + d - 1 == d * t + r, x > 0, r < d, d > 0;
}

proof fn lemma_ticks_before_floor(a: Auction, n: nat)
    requires
        auction_wf(a),
        a.status == AuctionStatus::Active,
        a.current_price - n * a.price_decrement > a.floor_price,
    ensures
        ticks(a, n) == (Auction { current_price: (a.current_price - n * a.price_decrement) as i64, ..a }),
    decreases n,
{
    if n > 0 {
        let m = (n - 1) as nat;
        assert(m * a.price_decrement <= n * a.price_decrement) by (nonlinear_arith)
            requires m <= n, a.price_decrement > 0;
        assert(n * a.price_decrement == m * a.price_decrement + a.price_decrement) by (nonlinear_arith)
            requires m == n - 1;
        lemma_ticks_before_floor(a, m);
        let b = ticks(a, m);
        assert(ticks(a, n) == tick_state(b));
        assert(next_price(b) == a.current_price - n * a.price_decrement);
        assert(tick_state(b) == (Auction { current_price: (a.current_price - n * a.price_decrement) as i64, ..a }));
    } else {
        assert(n * a.price_decrement == 0) by (nonlinear_arith)
            requires n == 0;
        assert(ticks(a, 0) == a);
    }
}

/// Every active, well-formed Dutch auction that nobody settles is open-sourced at its
/// floor price after exactly `ticks_to_floor(a)` ticks, and stays active before that,
/// its price falling by one decrement per tick.
pub proof fn lemma_auction_reaches_floor(a: Auction)
    requires
        auction_wf(a),
        a.status == AuctionStatus::Active,
    ensures
        ticks(a, ticks_to_floor(a)).status == AuctionStatus::OpenSourced,
        ticks(a, ticks_to_floor(a)).current_price == a.floor_price,
        forall|n: nat| n < ticks_to_floor(a) ==> #[trigger] ticks(a, n) == (Auction {
            current_price: (a.current_price - n * a.price_decrement) as i64,
            ..a
        }),
{
    let t = ticks_to_floor(a);
    let d = a.price_decrement as int;
    if a.current_price <= a.floor_price {
        assert(ticks(a, 0) == a);
        assert(ticks(a, 1) == tick_state(ticks(a, 0)));
        assert forall|n: nat| n < ticks_to_floor(a) implies #[trigger] ticks(a, n) == (Auction {
            current_price: (a.current_price - n * a.price_decrement) as i64,
            ..a
        }) by {
            assert(n == 0);
            assert(ticks(a, 0) == a);
        }
    } else {
        let x = a.current_price - a.floor_price;
        lemma_ceil_div(x, d, t as int);
        let m = (t - 1) as nat;
        assert(a.current_price - m * a.price_decrement > a.floor_price);
        lemma_ticks_before_floor(a, m);
        let b = ticks(a, m);
        assert(ticks(a, t) == tick_state(b));
        assert(m * d + d == t * d) by (nonlinear_arith)
            requires m == t - 1;
        assert forall|n: nat| n < ticks_to_floor(a) implies #[trigger] ticks(a, n) == (Auction {
            current_price: (a.current_price - n * a.price_decrement) as i64,
            ..a
        }) by {
            assert(n * d <= m * d) by (nonlinear_arith)
                requires n <= m, d > 0;
            lemma_ticks_before_floor(a, n);
        }
    }
}

} // verus!
