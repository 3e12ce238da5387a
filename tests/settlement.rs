use lan_bet::entities::{Bet, Wager, WagerOption};
use lan_bet::settlement::{plan_payouts, Payout, Resolution, ResolutionStep, SettlementError};

fn bet(id: &str, user: &str, val: u64) -> Bet {
    Bet { id: id.to_string(), user_id: user.to_string(), val }
}

fn option(id: &str, bets: Vec<Bet>) -> WagerOption {
    WagerOption { id: id.to_string(), name: id.to_string(), description: String::new(), bets }
}

fn example_wager() -> Wager {
    Wager {
        id: "w".to_string(),
        name: "w".to_string(),
        description: String::new(),
        pot: 200,
        options: vec![
            option("A", vec![bet("b1", "user1", 100), bet("b2", "user2", 100)]),
            option("B", vec![bet("b3", "user3", 100)]),
        ],
    }
}

#[test]
fn pool_is_shared_in_proportion_to_stakes() {
    let payouts = plan_payouts(&example_wager(), &"A".to_string()).unwrap();
    assert_eq!(
        payouts,
        vec![
            Payout { user_id: "user1".to_string(), amount: 250 },
            Payout { user_id: "user2".to_string(), amount: 250 },
        ]
    );
    assert_eq!(payouts.iter().map(|p| p.amount).sum::<u64>(), 500);
}

#[test]
fn single_winner_takes_the_pool() {
    let payouts = plan_payouts(&example_wager(), &"B".to_string()).unwrap();
    assert_eq!(payouts, vec![Payout { user_id: "user3".to_string(), amount: 500 }]);
}

#[test]
fn rounding_keeps_payouts_within_the_pool() {
    let w = Wager {
        id: "w".to_string(),
        name: "w".to_string(),
        description: String::new(),
        pot: 0,
        options: vec![option("A", vec![bet("b1", "u1", 1), bet("b2", "u2", 1), bet("b3", "u3", 1)]), option("B", vec![bet("b4", "u4", 1)])],
    };
    let payouts = plan_payouts(&w, &"A".to_string()).unwrap();
    // 4 * 1 / 3 rounds down to 1 each: 3 of the 4 units are paid.
    assert!(payouts.iter().all(|p| p.amount == 1));
    let total: u64 = payouts.iter().map(|p| p.amount).sum();
    assert!(total <= 4 && 4 - total < payouts.len() as u64);
}

#[test]
fn unknown_option_pays_nothing() {
    assert_eq!(plan_payouts(&example_wager(), &"C".to_string()), Err(SettlementError::OptionNotFound));
}

#[test]
fn option_without_stakes_pays_nothing() {
    let mut w = example_wager();
    w.options.push(option("C", vec![]));
    assert_eq!(plan_payouts(&w, &"C".to_string()), Err(SettlementError::NoStakeOnWinner));
    w.options.push(option("D", vec![bet("b9", "user9", 0)]));
    assert_eq!(plan_payouts(&w, &"D".to_string()), Err(SettlementError::NoStakeOnWinner));
}

#[test]
fn pool_too_large_is_refused() {
    let w = Wager {
        id: "w".to_string(),
        name: "w".to_string(),
        description: String::new(),
        pot: u64::MAX,
        options: vec![option("A", vec![bet("b1", "u1", 1)])],
    };
    assert_eq!(plan_payouts(&w, &"A".to_string()), Err(SettlementError::AmountOverflow));
}

#[test]
fn large_stakes_do_not_overflow() {
    let w = Wager {
        id: "w".to_string(),
        name: "w".to_string(),
        description: String::new(),
        pot: 0,
        options: vec![option("A", vec![bet("b1", "u1", u64::MAX / 2), bet("b2", "u2", u64::MAX / 2)])],
    };
    let payouts = plan_payouts(&w, &"A".to_string()).unwrap();
    assert_eq!(payouts[0].amount, u64::MAX / 2);
    assert_eq!(payouts[1].amount, u64::MAX / 2);
}

#[test]
fn resolution_makes_every_payout_in_turn() {
    let mut r = Resolution::start(Some(example_wager()), &"A".to_string()).ok().unwrap();
    match r.next_step() {
        ResolutionStep::Pay(p) => assert_eq!(p, Payout { user_id: "user1".to_string(), amount: 250 }),
        _ => panic!("expected a payout"),
    }
    assert_eq!(r.record_payout(true), None);
    match r.next_step() {
        ResolutionStep::Pay(p) => assert_eq!(p, Payout { user_id: "user2".to_string(), amount: 250 }),
        _ => panic!("expected a payout"),
    }
    assert_eq!(r.record_payout(true), None);
    assert!(matches!(r.next_step(), ResolutionStep::Finished(Ok(()))));
}

#[test]
fn refused_payout_stops_the_resolution() {
    let mut r = Resolution::start(Some(example_wager()), &"A".to_string()).ok().unwrap();
    assert_eq!(r.record_payout(true), None);
    assert_eq!(r.record_payout(false), Some(SettlementError::PayoutFailed));
}

#[test]
fn missing_wager_is_reported() {
    assert!(matches!(Resolution::start(None, &"A".to_string()), Err(SettlementError::WagerNotFound)));
    assert!(matches!(Resolution::start(Some(example_wager()), &"Z".to_string()), Err(SettlementError::OptionNotFound)));
}
