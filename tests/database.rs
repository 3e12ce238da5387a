use lan_bet::database::{Database, DatabaseReply, DatabaseRequest, StoreError};
use lan_bet::entities::{Bet, PotentialWager, User, Wager, WagerOption};
use lan_bet::settlement::Payout;

fn potential(name: &str, pot: u64) -> PotentialWager {
    PotentialWager { name: name.to_string(), description: name.to_string(), pot }
}

fn user(name: &str, balance: u64) -> User {
    User { name: name.to_string(), balance }
}

fn bet(id: &str, user_id: &str, val: u64) -> Bet {
    Bet { id: id.to_string(), user_id: user_id.to_string(), val }
}

fn s(x: &str) -> String {
    x.to_string()
}

fn balance(db: &Database, name: &str) -> u64 {
    db.get_user_by_name(&s(name)).expect("user should exist").balance
}

fn find_option(db: &Database, id: &str) -> Option<WagerOption> {
    db.get_all_bet_info().into_iter().flat_map(|w| w.options).find(|o| o.id == id)
}

fn find_bet(db: &Database, id: &str) -> Option<Bet> {
    db.get_all_bet_info().into_iter().flat_map(|w| w.options).flat_map(|o| o.bets).find(|b| b.id == id)
}

fn setup_testing_database() -> Database {
    let mut db = Database::new();
    db.add_user(user("user1", 2000)).unwrap();
    db.add_user(user("user2", 2000)).unwrap();
    db.add_wager(s("wager1"), &potential("wager1", 200)).unwrap();
    db.add_wager(s("wager2"), &potential("wager2", 200)).unwrap();
    db.add_wager_option(&s("wager1"), s("wager1_option1"), s("wager1_option1"), s("wager1_option1")).unwrap();
    db.add_wager_option(&s("wager1"), s("wager1_option2"), s("wager1_option2"), s("wager1_option2")).unwrap();
    db.add_wager_option(&s("wager2"), s("wager2_option1"), s("wager2_option1"), s("wager2_option1")).unwrap();
    db.add_wager_option(&s("wager2"), s("wager2_option2"), s("wager2_option2"), s("wager2_option2")).unwrap();
    db.add_bet(bet("bet1", "user1", 200), &s("wager1_option1")).unwrap();
    db.add_bet(bet("bet2", "user2", 200), &s("wager1_option2")).unwrap();
    db.add_bet(bet("bet3", "user1", 200), &s("wager2_option1")).unwrap();
    db.add_bet(bet("bet4", "user2", 200), &s("wager2_option2")).unwrap();
    db
}

#[test]
fn test_add_wager() {
    let mut db = Database::new();
    db.add_wager(s("w"), &PotentialWager { name: s("test"), description: s("test"), pot: 200 }).unwrap();
}

#[test]
fn test_fetch_wager() {
    let mut db = Database::new();
    db.add_wager(s("w"), &PotentialWager { name: s("test"), description: s("test"), pot: 200 }).unwrap();
    let fetched_wager = db.get_info_for_wager(&s("w")).unwrap();
    assert_eq!(fetched_wager.name, "test".to_string());
    assert_eq!(fetched_wager.description, "test".to_string());
    assert_eq!(fetched_wager.pot, 200);
}

#[test]
fn test_add_user() {
    let mut db = Database::new();
    db.add_user(user("test user", 2000)).unwrap();
}

#[test]
fn test_fetch_user() {
    let mut db = Database::new();
    db.add_user(user("test_user", 2000)).unwrap();
    let fetched_user = db.get_user_by_name(&s("test_user")).unwrap();
    assert_eq!(fetched_user.name, "test_user".to_string());
    assert_eq!(fetched_user.balance, 2000);
}

#[test]
fn test_fetch_user_by_name() {
    let mut db = Database::new();
    db.add_user(user("test_user", 2000)).unwrap();
    let fetched_user = db.get_user_by_name(&s("test_user")).unwrap();
    assert_eq!(fetched_user, user("test_user", 2000));
    assert_eq!(fetched_user.name, "test_user".to_string());
    assert_eq!(fetched_user.balance, 2000);
}

#[test]
fn test_add_wager_option() {
    let mut db = Database::new();
    db.add_wager(s("w"), &potential("test", 200)).unwrap();
    db.add_wager_option(&s("w"), s("o"), s("test wager option"), s("a test wager option")).unwrap();
    let fetched_wager = db.get_info_for_wager(&s("w")).unwrap();
    assert!(fetched_wager.options.iter().any(|o| o.id == "o"));
}

#[test]
fn test_fetch_wager_option() {
    let mut db = Database::new();
    db.add_wager(s("w"), &potential("test", 200)).unwrap();
    db.add_wager_option(&s("w"), s("o"), s("test wager option"), s("a test wager option")).unwrap();
    let fetched_wager_option = find_option(&db, "o").unwrap();
    assert_eq!(fetched_wager_option.name, "test wager option".to_string());
    assert_eq!(fetched_wager_option.bets, vec![]);
    assert_eq!(fetched_wager_option.description, "a test wager option".to_string());
}

#[test]
fn test_add_bet() {
    let mut db = Database::new();
    db.add_user(user("test_user", 2000)).unwrap();
    db.add_wager(s("w"), &potential("test", 200)).unwrap();
    db.add_wager_option(&s("w"), s("o"), s("test wager option"), s("a test wager option")).unwrap();
    db.add_bet(bet("b", "test_user", 200), &s("o")).unwrap();
    let fetched_wager_option = find_option(&db, "o").unwrap();
    assert!(fetched_wager_option.bets.iter().any(|b| b.id == "b"));
}

#[test]
fn test_remove_bet() {
    let mut db = setup_testing_database();
    db.remove_bet(&s("bet1")).expect("should be able to remove bet");
    assert_eq!(balance(&db, "user1"), 2200);
    let fetched_wager_option = find_option(&db, "wager1_option1").expect("wager option should exist");
    assert!(!fetched_wager_option.bets.iter().any(|b| b.id == "bet1"));
    assert_eq!(find_bet(&db, "bet1"), None);
}

#[test]
fn test_remove_wager_option() {
    let mut db = setup_testing_database();
    db.remove_wager_option(&s("wager1_option1")).unwrap();
    assert_eq!(balance(&db, "user1"), 2200);
    let fetched_wager = db.get_info_for_wager(&s("wager1")).expect("wager should exist");
    assert!(!fetched_wager.options.iter().any(|o| o.id == "wager1_option1"));
    assert_eq!(find_bet(&db, "bet1"), None);
    assert_eq!(find_option(&db, "wager1_option1"), None);
    // The other option of the wager, and its bet, stay.
    assert!(find_option(&db, "wager1_option2").is_some());
    assert!(find_bet(&db, "bet2").is_some());
    assert_eq!(balance(&db, "user2"), 2000);
}

#[test]
fn test_remove_wager() {
    let mut db = setup_testing_database();
    db.remove_wager(&s("wager1")).unwrap();
    assert_eq!(balance(&db, "user1"), 2200);
    assert_eq!(balance(&db, "user2"), 2200);
    assert_eq!(find_option(&db, "wager1_option1"), None);
    assert_eq!(find_option(&db, "wager1_option2"), None);
    assert_eq!(find_bet(&db, "bet1"), None);
    assert_eq!(find_bet(&db, "bet2"), None);
    assert_eq!(db.get_info_for_wager(&s("wager1")), None);
    assert!(db.get_info_for_wager(&s("wager2")).is_some());
}

#[test]
fn test_get_all_wagers() {
    let db = setup_testing_database();
    let all_fetched_wagers = db.get_all_bet_info();
    assert_eq!(all_fetched_wagers.len(), 2);
    for (id, options) in [("wager1", ["wager1_option1", "wager1_option2"]), ("wager2", ["wager2_option1", "wager2_option2"])] {
        let w: &Wager = all_fetched_wagers.iter().find(|w| w.id == id).unwrap();
        assert_eq!(w.pot, 200);
        assert_eq!(w.name, id);
        let ids: Vec<&str> = w.options.iter().map(|o| o.id.as_str()).collect();
        assert_eq!(ids, options.to_vec());
    }
}

#[test]
fn creation_refuses_duplicates_and_unknown_parents() {
    let mut db = setup_testing_database();
    assert_eq!(db.add_user(user("user1", 5)), Err(StoreError::DuplicateId));
    assert_eq!(db.add_wager(s("wager1"), &potential("again", 1)), Err(StoreError::DuplicateId));
    assert_eq!(db.add_wager_option(&s("nowhere"), s("o"), s("o"), s("o")), Err(StoreError::NotFound));
    assert_eq!(db.add_wager_option(&s("wager2"), s("wager1_option1"), s("o"), s("o")), Err(StoreError::DuplicateId));
    assert_eq!(db.add_bet(bet("b", "user1", 1), &s("nowhere")), Err(StoreError::NotFound));
    assert_eq!(db.add_bet(bet("b", "nobody", 1), &s("wager1_option1")), Err(StoreError::NotFound));
    assert_eq!(db.add_bet(bet("bet1", "user1", 1), &s("wager1_option1")), Err(StoreError::DuplicateId));
    assert_eq!(balance(&db, "user1"), 2000);
}

#[test]
fn removal_of_unknown_records_is_refused() {
    let mut db = setup_testing_database();
    assert_eq!(db.remove_wager(&s("nope")), Err(StoreError::NotFound));
    assert_eq!(db.remove_wager_option(&s("nope")), Err(StoreError::NotFound));
    assert_eq!(db.remove_bet(&s("nope")), Err(StoreError::NotFound));
}

#[test]
fn refund_that_overflows_changes_nothing() {
    let mut db = Database::new();
    db.add_user(user("rich", u64::MAX)).unwrap();
    db.add_wager(s("w"), &potential("w", 0)).unwrap();
    db.add_wager_option(&s("w"), s("o"), s("o"), s("o")).unwrap();
    db.add_bet(bet("b", "rich", 1), &s("o")).unwrap();
    assert_eq!(db.remove_wager(&s("w")), Err(StoreError::BalanceOverflow));
    assert!(db.get_info_for_wager(&s("w")).is_some());
    assert_eq!(balance(&db, "rich"), u64::MAX);
}

#[test]
fn payouts_credit_balances() {
    let mut db = setup_testing_database();
    db.provide_payout_for_bet(&Payout { user_id: s("user1"), amount: 250 }).unwrap();
    assert_eq!(balance(&db, "user1"), 2250);
    assert_eq!(db.provide_payout_for_bet(&Payout { user_id: s("ghost"), amount: 1 }), Err(StoreError::NotFound));
    assert_eq!(
        db.provide_payout_for_bet(&Payout { user_id: s("user2"), amount: u64::MAX }),
        Err(StoreError::BalanceOverflow)
    );
    assert_eq!(balance(&db, "user2"), 2000);
}

#[test]
fn storage_requests_are_routed() {
    let mut db = setup_testing_database();
    match db.handle(DatabaseRequest::GetUser { name: s("user2") }) {
        DatabaseReply::User(Some(u)) => assert_eq!(u, user("user2", 2000)),
        _ => panic!("expected a user"),
    }
    assert!(matches!(db.handle(DatabaseRequest::GetUser { name: s("ghost") }), DatabaseReply::User(None)));
    match db.handle(DatabaseRequest::GetAllWagerInfo) {
        DatabaseReply::AllWagers(ws) => assert_eq!(ws.len(), 2),
        _ => panic!("expected wagers"),
    }
    match db.handle(DatabaseRequest::GetWagerInfo { id: s("wager2") }) {
        DatabaseReply::WagerInfo(Some(w)) => assert_eq!(w.id, "wager2"),
        _ => panic!("expected a wager"),
    }
    match db.handle(DatabaseRequest::ProvidePayout { payout: Payout { user_id: s("user1"), amount: 7 } }) {
        DatabaseReply::PayoutMade(Ok(())) => {},
        _ => panic!("expected a payout"),
    }
    assert_eq!(balance(&db, "user1"), 2007);
}

#[test]
fn two_fetches_get_complete_independent_answers() {
    let mut db = setup_testing_database();
    let first = match db.handle(DatabaseRequest::GetAllWagerInfo) {
        DatabaseReply::AllWagers(ws) => ws,
        _ => panic!("expected wagers"),
    };
    let second = match db.handle(DatabaseRequest::GetAllWagerInfo) {
        DatabaseReply::AllWagers(ws) => ws,
        _ => panic!("expected wagers"),
    };
    assert_eq!(first, second);
    assert_eq!(first.len(), 2);
}

#[test]
fn test_fetch_wager_by_name() {
    let mut db = Database::new();
    db.add_wager(s("w"), &PotentialWager { name: s("test"), description: s("test"), pot: 200 }).unwrap();
    let fetched_wager = db.get_wager_by_name(&s("test")).unwrap();
    assert_eq!(fetched_wager.name, "test".to_string());
    assert_eq!(fetched_wager.description, "test".to_string());
    assert_eq!(fetched_wager.pot, 200);
}

#[test]
fn test_fetch_wager_option_by_name() {
    let mut db = Database::new();
    db.add_wager(s("w"), &potential("test", 200)).unwrap();
    db.add_wager_option(&s("w"), s("o"), s("test_wager_option"), s("a test wager option")).unwrap();
    let fetched_wager_option = db.get_wager_option_by_name(&s("test_wager_option")).unwrap();
    assert_eq!(fetched_wager_option.id, "o".to_string());
    assert_eq!(fetched_wager_option.name, "test_wager_option".to_string());
    assert_eq!(fetched_wager_option.bets, vec![]);
    assert_eq!(fetched_wager_option.description, "a test wager option".to_string());
}

#[test]
fn test_get_all_bets_for_wager() {
    let mut db = setup_testing_database();
    db.add_bet(bet("bet5", "user2", 200), &s("wager1_option1")).unwrap();
    let all_bets_for_option = vec![bet("bet1", "user1", 200), bet("bet5", "user2", 200)];
    let fetched_bets = db.get_all_bets_for_wager_option(&s("wager1_option1")).unwrap();
    assert_eq!(fetched_bets.len(), 2);
    for b in &all_bets_for_option {
        assert!(fetched_bets.contains(b));
    }
    assert_eq!(db.get_all_bets_for_wager_option(&s("nope")), None);
}

#[test]
fn test_get_all_bets_for_user() {
    let db = setup_testing_database();
    let all_bets_for_user = vec![bet("bet1", "user1", 200), bet("bet3", "user1", 200)];
    let fetched_bets = db.get_bets_by_user(&s("user1"));
    assert_eq!(fetched_bets.len(), all_bets_for_user.len());
    for b in &all_bets_for_user {
        assert!(fetched_bets.contains(b));
    }
    assert_eq!(db.get_bets_by_user(&s("nobody")), vec![]);
}

#[test]
fn options_of_a_wager_come_in_order() {
    let db = setup_testing_database();
    let options = db.get_all_wager_options_for_wager(&s("wager2")).unwrap();
    let ids: Vec<&str> = options.iter().map(|o| o.id.as_str()).collect();
    assert_eq!(ids, vec!["wager2_option1", "wager2_option2"]);
    assert_eq!(options[0].bets, vec![bet("bet3", "user1", 200)]);
    assert_eq!(db.get_all_wager_options_for_wager(&s("nope")), None);
}
