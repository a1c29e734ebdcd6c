use kerai::auction::{
    count_qualifying, create_auction, open_source_auction, place_bid, settle_auction, tick_auction,
    validate_auction_params, Auction, AuctionError, AuctionStatus, Bid, Payment, TickOutcome,
};

fn active(start: i64, floor: i64, dec: i64, min_bidders: i64) -> Auction {
    create_auction(start, dec, 3600, floor, min_bidders, 24, true, false).unwrap()
}

#[test]
fn auction_parameter_errors_in_order() {
    assert_eq!(validate_auction_params(0, 0, 1, 1), Err(AuctionError::StartingPriceNotPositive));
    assert_eq!(validate_auction_params(100, -1, 1, 1), Err(AuctionError::FloorPriceNegative));
    assert_eq!(validate_auction_params(100, 100, 1, 1), Err(AuctionError::FloorNotBelowStart));
    assert_eq!(validate_auction_params(100, 10, 0, 1), Err(AuctionError::DecrementNotPositive));
    assert_eq!(validate_auction_params(100, 10, 5, 0), Err(AuctionError::IntervalNotPositive));
    assert_eq!(validate_auction_params(100, 10, 5, 60), Ok(()));
}

#[test]
fn create_auction_checks_attestation_and_active() {
    assert_eq!(
        create_auction(1000, 50, 3600, 100, 1, 24, false, false),
        Err(AuctionError::AttestationNotOwned)
    );
    assert_eq!(
        create_auction(1000, 50, 3600, 100, 1, 24, true, true),
        Err(AuctionError::ActiveAuctionExists)
    );
    let a = active(1000, 100, 50, 1);
    assert_eq!(a.current_price, 1000);
    assert_eq!(a.status, AuctionStatus::Active);
    assert_eq!(a.settled_price, None);
}

#[test]
fn bids_need_positive_price_and_active_auction() {
    assert_eq!(place_bid(Some(AuctionStatus::Active), 0), Err(AuctionError::MaxPriceNotPositive));
    assert_eq!(place_bid(None, 10), Err(AuctionError::AuctionNotFound));
    assert_eq!(
        place_bid(Some(AuctionStatus::Settled), 10),
        Err(AuctionError::WrongStatus(AuctionStatus::Settled))
    );
    assert_eq!(place_bid(Some(AuctionStatus::Active), 10), Ok(()));
}

#[test]
fn tick_lowers_price_and_reports_bidders() {
    let mut a = active(1000, 100, 300, 2);
    let bids = [Bid { bidder_wallet: 1, max_price: 800 }, Bid { bidder_wallet: 2, max_price: 500 }];
    assert_eq!(count_qualifying(&bids, 700), 1);
    assert_eq!(
        tick_auction(&mut a, &bids),
        Ok(TickOutcome::PriceDecremented { current_price: 700, qualifying_bidders: 1 })
    );
    assert_eq!(
        tick_auction(&mut a, &bids),
        Ok(TickOutcome::SettlementReady { current_price: 400, qualifying_bidders: 2 })
    );
    // 400 - 300 = 100 is the floor: open-sourced
    assert_eq!(tick_auction(&mut a, &bids), Ok(TickOutcome::OpenSourced { current_price: 100 }));
    assert_eq!(a.status, AuctionStatus::OpenSourced);
    assert_eq!(a.current_price, 100);
    assert_eq!(
        tick_auction(&mut a, &bids),
        Err(AuctionError::WrongStatus(AuctionStatus::OpenSourced))
    );
}

#[test]
fn auction_reaches_floor_after_ceiling_ticks() {
    // (1000 - 100) / 250 rounded up = 4 ticks
    let mut a = active(1000, 100, 250, 5);
    let mut n = 0;
    while a.status == AuctionStatus::Active {
        tick_auction(&mut a, &[]).unwrap();
        n += 1;
    }
    assert_eq!(n, 4);
    assert_eq!(a.current_price, 100);
}

#[test]
fn settlement_pays_qualifying_bidders() {
    let mut a = active(1000, 100, 100, 2);
    tick_auction(&mut a, &[]).unwrap(); // price 900
    let bids = [
        Bid { bidder_wallet: 7, max_price: 950 },
        Bid { bidder_wallet: 8, max_price: 850 },
        Bid { bidder_wallet: 9, max_price: 900 },
    ];
    let s = settle_auction(&mut a, &bids, 10).unwrap();
    assert_eq!(s.settled_price, 900);
    assert_eq!(s.bidder_count, 2);
    assert_eq!(s.total_revenue, 1800);
    assert_eq!(
        s.payments,
        vec![
            Payment { from_wallet: 7, amount: 900, timestamp: 10 },
            Payment { from_wallet: 9, amount: 900, timestamp: 910 },
        ]
    );
    assert_eq!(a.status, AuctionStatus::Settled);
    assert_eq!(a.settled_price, Some(900));
}

#[test]
fn settlement_refused_without_enough_bidders() {
    let mut a = active(1000, 100, 100, 3);
    let bids = [Bid { bidder_wallet: 1, max_price: 2000 }];
    assert_eq!(
        settle_auction(&mut a, &bids, 1),
        Err(AuctionError::NotEnoughBidders { qualifying: 1, min_bidders: 3 })
    );
    assert_eq!(a.status, AuctionStatus::Active);
}

#[test]
fn open_source_needs_finished_auction() {
    assert_eq!(open_source_auction(Some(AuctionStatus::Settled)), Ok(()));
    assert_eq!(open_source_auction(Some(AuctionStatus::OpenSourced)), Ok(()));
    assert_eq!(open_source_auction(None), Err(AuctionError::AuctionNotFound));
    assert_eq!(
        open_source_auction(Some(AuctionStatus::Active)),
        Err(AuctionError::WrongStatus(AuctionStatus::Active))
    );
}

#[test]
fn ready_tick_then_settlement_succeeds() {
    let mut a = active(1000, 100, 100, 2);
    let bids = [Bid { bidder_wallet: 1, max_price: 900 }, Bid { bidder_wallet: 2, max_price: 950 }, Bid { bidder_wallet: 3, max_price: 500 }];
    let r = tick_auction(&mut a, &bids).unwrap();
    assert_eq!(r, TickOutcome::SettlementReady { current_price: 900, qualifying_bidders: 2 });
    let s = settle_auction(&mut a, &bids, 10).unwrap();
    assert_eq!(s.bidder_count, 2);
    assert_eq!(s.settled_price, 900);
    let mut b = active(1000, 100, 100, 3);
    let r = tick_auction(&mut b, &bids).unwrap();
    assert_eq!(r, TickOutcome::PriceDecremented { current_price: 900, qualifying_bidders: 2 });
    assert_eq!(
        settle_auction(&mut b, &bids, 10),
        Err(AuctionError::NotEnoughBidders { qualifying: 2, min_bidders: 3 })
    );
}

#[test]
fn create_auction_takes_decrement_and_interval_before_floor() {
    let a = create_auction(80000, 1000, 3600, 0, 1, 24, true, false).unwrap();
    assert_eq!(a.starting_price, 80000);
    assert_eq!(a.current_price, 80000);
    assert_eq!(a.price_decrement, 1000);
    assert_eq!(a.decrement_interval_secs, 3600);
    assert_eq!(a.floor_price, 0);
    assert_eq!(a.status, AuctionStatus::Active);
}

#[test]
fn settled_or_open_sourced_auction_cannot_settle_again() {
    let bids = [Bid { bidder_wallet: 1, max_price: 1000 }];
    let mut a = active(1000, 100, 100, 1);
    settle_auction(&mut a, &bids, 1).unwrap();
    let before = a;
    assert_eq!(settle_auction(&mut a, &bids, 2), Err(AuctionError::WrongStatus(AuctionStatus::Settled)));
    assert_eq!(a, before);
    let mut b = active(200, 100, 100, 5);
    tick_auction(&mut b, &[]).unwrap();
    assert_eq!(b.status, AuctionStatus::OpenSourced);
    assert_eq!(settle_auction(&mut b, &bids, 3), Err(AuctionError::WrongStatus(AuctionStatus::OpenSourced)));
}
