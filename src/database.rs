//! The persistent state of the service, held in memory: users, and wagers
//! with their options and bets. Removing a record removes everything under
//! it and credits every removed stake back to the user who placed it.

use vstd::prelude::*;
use crate::entities::{
    Bet, BetView, PotentialWager, User, UserView, Wager, WagerOption, WagerOptionView, WagerView, bets_view,
    copy_bets, copy_options, copy_wagers, options_view, users_view, wagers_view,
};
use crate::lookup::{
    any_index, bet_location, bet_with_id, find_user, find_wager, first_of, option_with_id, lemma_first_exists, lemma_first_of, locate_bet,
    locate_option, locate_option_named, named_option_location, option_location, user_named, wager_holding_bet,
    wager_holding_option, wager_holding_option_named, wager_named, wager_with_id, find_wager_named,
};
use crate::settlement::Payout;

verus! {

/// Why the store refused an operation. A refused operation changes nothing.
#[derive(Clone, Copy, Debug, PartialEq, Eq, Structural)]
pub enum StoreError {
    /// No record has the identifier that the operation names.
    NotFound,
    /// A record with the identifier to be created already exists.
    DuplicateId,
    /// A credit would take a balance past the largest amount a balance holds.
    BalanceOverflow,
}

/// The store: users, and wagers that hold their options and bets.
pub struct Database {
    users: Vec<User>,
    wagers: Vec<Wager>,
}

pub struct DatabaseView {
    pub users: Seq<UserView>,
    pub wagers: Seq<WagerView>,
}

impl View for Database {
    type V = DatabaseView;

    closed spec fn view(&self) -> DatabaseView {
        DatabaseView { users: users_view(self.users@), wagers: wagers_view(self.wagers@) }
    }
}

/// Sum of the stakes that user `name` placed among `bets`.
pub open spec fn stake_of_user(bets: Seq<BetView>, name: Seq<char>) -> int
    decreases bets.len(),
{
    if bets.len() == 0 {
        0
    } else {
        stake_of_user(bets.drop_last(), name) + if bets.last().user_id == name {
            bets.last().val as int
        } else {
            0
        }
    }
}

/// Sum of the stakes that user `name` placed on any of `options`.
pub open spec fn options_stake_of_user(options: Seq<WagerOptionView>, name: Seq<char>) -> int
    decreases options.len(),
{
    if options.len() == 0 {
        0
    } else {
        options_stake_of_user(options.drop_last(), name) + stake_of_user(options.last().bets, name)
    }
}

pub open spec fn bets_refund(bets: Seq<BetView>) -> spec_fn(Seq<char>) -> int {
    |name: Seq<char>| stake_of_user(bets, name)
}

pub open spec fn options_refund(options: Seq<WagerOptionView>) -> spec_fn(Seq<char>) -> int {
    |name: Seq<char>| options_stake_of_user(options, name)
}

/// Every balance still fits after each user is credited `refund` of their name.
pub open spec fn credits_fit(users: Seq<UserView>, refund: spec_fn(Seq<char>) -> int) -> bool {
    forall|i: int| 0 <= i < users.len() ==> #[trigger] users[i].balance + refund(users[i].name) <= u64::MAX
}

/// The users after each is credited `refund` of their name.
pub open spec fn credited(users: Seq<UserView>, refund: spec_fn(Seq<char>) -> int) -> Seq<UserView> {
    users.map_values(|u: UserView| UserView { name: u.name, balance: (u.balance + refund(u.name)) as u64 })
}

/// The store after the wagers become `wagers` and the users are credited `refund`.
pub open spec fn refunded(db: DatabaseView, refund: spec_fn(Seq<char>) -> int, wagers: Seq<WagerView>) -> Result<
    DatabaseView,
    StoreError,
> {
    if credits_fit(db.users, refund) {
        Ok(DatabaseView { users: credited(db.users, refund), wagers })
    } else {
        Err(StoreError::BalanceOverflow)
    }
}

/// `r` reports `outcome`, and the store went from `before` to `after` as it says.
pub open spec fn performed(
    r: Result<(), StoreError>,
    before: DatabaseView,
    after: DatabaseView,
    outcome: Result<DatabaseView, StoreError>,
) -> bool {
    match outcome {
        Ok(db) => r is Ok && after == db,
        Err(e) => r == Err::<(), StoreError>(e) && after == before,
    }
}

pub open spec fn without_option(w: WagerView, j: int) -> WagerView {
    WagerView { id: w.id, name: w.name, description: w.description, pot: w.pot, options: w.options.remove(j) }
}

pub open spec fn without_bet(w: WagerView, j: int, k: int) -> WagerView {
    let o = w.options[j];
    WagerView {
        id: w.id,
        name: w.name,
        description: w.description,
        pot: w.pot,
        options: w.options.update(
            j,
            WagerOptionView { id: o.id, name: o.name, description: o.description, bets: o.bets.remove(k) },
        ),
    }
}

/// Removing the wager `id`: the wager and all its options and bets go, and
/// every one of those stakes is credited back to its user.
pub open spec fn wager_removed(db: DatabaseView, id: Seq<char>) -> Result<DatabaseView, StoreError> {
    if !any_index(db.wagers, wager_with_id(id)) {
        Err(StoreError::NotFound)
    } else {
        let i = first_of(db.wagers, wager_with_id(id));
        refunded(db, options_refund(db.wagers[i].options), db.wagers.remove(i))
    }
}

/// Removing the option `id`: the option and its bets go, every one of those
/// stakes is credited back, and the other options of its wager stay.
pub open spec fn option_removed(db: DatabaseView, id: Seq<char>) -> Result<DatabaseView, StoreError> {
    if !any_index(db.wagers, wager_holding_option(id)) {
        Err(StoreError::NotFound)
    } else {
        let (i, j) = option_location(db.wagers, id);
        refunded(
            db,
            bets_refund(db.wagers[i].options[j].bets),
            db.wagers.update(i, without_option(db.wagers[i], j)),
        )
    }
}

/// Removing the bet `id`: the bet goes and its stake is credited back.
pub open spec fn bet_removed(db: DatabaseView, id: Seq<char>) -> Result<DatabaseView, StoreError> {
    if !any_index(db.wagers, wager_holding_bet(id)) {
        Err(StoreError::NotFound)
    } else {
        let (i, j, k) = bet_location(db.wagers, id);
        refunded(
            db,
            bets_refund(seq![db.wagers[i].options[j].bets[k]]),
            db.wagers.update(i, without_bet(db.wagers[i], j, k)),
        )
    }
}

/// Registering `u`: refused where a user of that name exists.
pub open spec fn user_added(db: DatabaseView, u: UserView) -> Result<DatabaseView, StoreError> {
    if any_index(db.users, user_named(u.name)) {
        Err(StoreError::DuplicateId)
    } else {
        Ok(DatabaseView { users: db.users.push(u), wagers: db.wagers })
    }
}

/// Opening a wager with no options yet: refused where the identifier is taken.
pub open spec fn wager_added(db: DatabaseView, w: WagerView) -> Result<DatabaseView, StoreError> {
    if any_index(db.wagers, wager_with_id(w.id)) {
        Err(StoreError::DuplicateId)
    } else {
        Ok(DatabaseView { users: db.users, wagers: db.wagers.push(w) })
    }
}

pub open spec fn with_option(w: WagerView, o: WagerOptionView) -> WagerView {
    WagerView { id: w.id, name: w.name, description: w.description, pot: w.pot, options: w.options.push(o) }
}

pub open spec fn with_bet(w: WagerView, j: int, b: BetView) -> WagerView {
    let o = w.options[j];
    WagerView {
        id: w.id,
        name: w.name,
        description: w.description,
        pot: w.pot,
        options: w.options.update(
            j,
            WagerOptionView { id: o.id, name: o.name, description: o.description, bets: o.bets.push(b) },
        ),
    }
}

/// Adding option `o` to the wager `wager_id`: refused where that wager does not
/// exist, or where some wager already has an option with `o`'s identifier.
pub open spec fn option_added(db: DatabaseView, wager_id: Seq<char>, o: WagerOptionView) -> Result<
    DatabaseView,
    StoreError,
> {
    if !any_index(db.wagers, wager_with_id(wager_id)) {
        Err(StoreError::NotFound)
    } else if any_index(db.wagers, wager_holding_option(o.id)) {
        Err(StoreError::DuplicateId)
    } else {
        let i = first_of(db.wagers, wager_with_id(wager_id));
        Ok(DatabaseView { users: db.users, wagers: db.wagers.update(i, with_option(db.wagers[i], o)) })
    }
}

/// Placing bet `b` on the option `option_id`: refused where the option or the
/// betting user does not exist, or where the bet's identifier is taken.
pub open spec fn bet_added(db: DatabaseView, b: BetView, option_id: Seq<char>) -> Result<DatabaseView, StoreError> {
    if !any_index(db.wagers, wager_holding_option(option_id)) || !any_index(db.users, user_named(b.user_id)) {
        Err(StoreError::NotFound)
    } else if any_index(db.wagers, wager_holding_bet(b.id)) {
        Err(StoreError::DuplicateId)
    } else {
        let (i, j) = option_location(db.wagers, option_id);
        Ok(DatabaseView { users: db.users, wagers: db.wagers.update(i, with_bet(db.wagers[i], j, b)) })
    }
}

/// Crediting `amount` to the user `user_id`.
pub open spec fn payout_applied(db: DatabaseView, user_id: Seq<char>, amount: int) -> Result<DatabaseView, StoreError> {
    if !any_index(db.users, user_named(user_id)) {
        Err(StoreError::NotFound)
    } else {
        let i = first_of(db.users, user_named(user_id));
        if db.users[i].balance + amount > u64::MAX {
            Err(StoreError::BalanceOverflow)
        } else {
            Ok(
                DatabaseView {
                    users: db.users.update(i, UserView { name: user_id, balance: (db.users[i].balance + amount) as u64 }),
                    wagers: db.wagers,
                },
            )
        }
    }
}

/// The bets of user `name` among `bets`, in order.
pub open spec fn user_bets(bets: Seq<BetView>, name: Seq<char>) -> Seq<BetView>
    decreases bets.len(),
{
    if bets.len() == 0 {
        seq![]
    } else if bets.last().user_id == name {
        user_bets(bets.drop_last(), name).push(bets.last())
    } else {
        user_bets(bets.drop_last(), name)
    }
}

/// The bets of user `name` on any of `options`, option by option.
pub open spec fn options_user_bets(options: Seq<WagerOptionView>, name: Seq<char>) -> Seq<BetView>
    decreases options.len(),
{
    if options.len() == 0 {
        seq![]
    } else {
        options_user_bets(options.drop_last(), name) + user_bets(options.last().bets, name)
    }
}

/// The bets of user `name` on any wager, wager by wager.
pub open spec fn wagers_user_bets(wagers: Seq<WagerView>, name: Seq<char>) -> Seq<BetView>
    decreases wagers.len(),
{
    if wagers.len() == 0 {
        seq![]
    } else {
        wagers_user_bets(wagers.drop_last(), name) + options_user_bets(wagers.last().options, name)
    }
}

/// Removing a wager takes it out with every option and bet under it, leaves
/// the other wagers as they were, and credits each user with exactly the
/// stakes they had placed on the removed wager.
pub proof fn lemma_cascade_delete(db: DatabaseView, id: Seq<char>)
    requires
        wager_removed(db, id) is Ok,
    ensures
        ({
            let after = wager_removed(db, id)->Ok_0;
            let i = first_of(db.wagers, wager_with_id(id));
            &&& 0 <= i < db.wagers.len()
            &&& db.wagers[i].id == id
            &&& after.wagers == db.wagers.remove(i)
            &&& after.users.len() == db.users.len()
            &&& forall|k: int|
                0 <= k < db.users.len() ==> (#[trigger] after.users[k]).name == db.users[k].name
                    && after.users[k].balance == db.users[k].balance + options_stake_of_user(
                    db.wagers[i].options,
                    db.users[k].name,
                )
        }),
{
    lemma_first_exists(db.wagers, wager_with_id(id));
    let i = first_of(db.wagers, wager_with_id(id));
    let after = wager_removed(db, id)->Ok_0;
    let refund = options_refund(db.wagers[i].options);
    assert(credits_fit(db.users, refund));
    assert(after.users == credited(db.users, refund));
    assert forall|k: int| 0 <= k < db.users.len() implies (#[trigger] after.users[k]).name == db.users[k].name
        && after.users[k].balance == db.users[k].balance + options_stake_of_user(
        db.wagers[i].options,
        db.users[k].name,
    ) by {
        assert(db.users[k].balance + refund(db.users[k].name) <= u64::MAX);
        assert(refund(db.users[k].name) == options_stake_of_user(db.wagers[i].options, db.users[k].name));
        lemma_options_stake_nonneg(db.wagers[i].options, db.users[k].name);
        assert(after.users[k] == (UserView {
            name: db.users[k].name,
            balance: (db.users[k].balance + refund(db.users[k].name)) as u64,
        }));
    }
}

/// Removing an option takes it out with its bets, keeps every other option of
/// its wager and every other wager, and credits each user with exactly the
/// stakes they had placed on the removed option.
pub proof fn lemma_option_delete(db: DatabaseView, id: Seq<char>)
    requires
        option_removed(db, id) is Ok,
    ensures
        ({
            let after = option_removed(db, id)->Ok_0;
            let (i, j) = option_location(db.wagers, id);
            &&& 0 <= i < db.wagers.len()
            &&& 0 <= j < db.wagers[i].options.len()
            &&& db.wagers[i].options[j].id == id
            &&& after.wagers.len() == db.wagers.len()
            &&& forall|m: int| 0 <= m < db.wagers.len() && m != i ==> after.wagers[m] == db.wagers[m]
            &&& after.wagers[i].options == db.wagers[i].options.remove(j)
            &&& forall|k: int|
                0 <= k < db.users.len() ==> (#[trigger] after.users[k]).name == db.users[k].name
                    && after.users[k].balance == db.users[k].balance + stake_of_user(
                    db.wagers[i].options[j].bets,
                    db.users[k].name,
                )
        }),
{
    lemma_first_exists(db.wagers, wager_holding_option(id));
    let i = first_of(db.wagers, wager_holding_option(id));
    lemma_first_exists(db.wagers[i].options, option_with_id(id));
    let j = first_of(db.wagers[i].options, option_with_id(id));
    let after = option_removed(db, id)->Ok_0;
    let refund = bets_refund(db.wagers[i].options[j].bets);
    assert(credits_fit(db.users, refund));
    assert(after.users == credited(db.users, refund));
    assert forall|k: int| 0 <= k < db.users.len() implies (#[trigger] after.users[k]).name == db.users[k].name
        && after.users[k].balance == db.users[k].balance + stake_of_user(
        db.wagers[i].options[j].bets,
        db.users[k].name,
    ) by {
        assert(db.users[k].balance + refund(db.users[k].name) <= u64::MAX);
        assert(refund(db.users[k].name) == stake_of_user(db.wagers[i].options[j].bets, db.users[k].name));
        lemma_user_stake_nonneg(db.wagers[i].options[j].bets, db.users[k].name);
        assert(after.users[k] == (UserView {
            name: db.users[k].name,
            balance: (db.users[k].balance + refund(db.users[k].name)) as u64,
        }));
    }
}

proof fn lemma_user_stake_prefix(bets: Seq<BetView>, name: Seq<char>, k: int)
    requires
        0 <= k <= bets.len(),
    ensures
        0 <= stake_of_user(bets.take(k), name) <= stake_of_user(bets, name),
    decreases bets.len(),
{
    if k == bets.len() {
        assert(bets.take(k) =~= bets);
        lemma_user_stake_nonneg(bets, name);
    } else {
        lemma_user_stake_prefix(bets.drop_last(), name, k);
        assert(bets.drop_last().take(k) =~= bets.take(k));
    }
}

proof fn lemma_user_stake_nonneg(bets: Seq<BetView>, name: Seq<char>)
    ensures
        stake_of_user(bets, name) >= 0,
    decreases bets.len(),
{
    if bets.len() > 0 {
        lemma_user_stake_nonneg(bets.drop_last(), name);
    }
}

proof fn lemma_options_stake_nonneg(options: Seq<WagerOptionView>, name: Seq<char>)
    ensures
        options_stake_of_user(options, name) >= 0,
    decreases options.len(),
{
    if options.len() > 0 {
        lemma_options_stake_nonneg(options.drop_last(), name);
        lemma_user_stake_nonneg(options.last().bets, name);
    }
}

proof fn lemma_options_stake_prefix(options: Seq<WagerOptionView>, name: Seq<char>, k: int)
    requires
        0 <= k <= options.len(),
    ensures
        0 <= options_stake_of_user(options.take(k), name) <= options_stake_of_user(options, name),
    decreases options.len(),
{
    if k == options.len() {
        assert(options.take(k) =~= options);
        lemma_options_stake_nonneg(options, name);
    } else {
        lemma_options_stake_prefix(options.drop_last(), name, k);
        assert(options.drop_last().take(k) =~= options.take(k));
        lemma_user_stake_nonneg(options.last().bets, name);
    }
}

proof fn lemma_option_stake_within(options: Seq<WagerOptionView>, name: Seq<char>, j: int)
    requires
        0 <= j < options.len(),
    ensures
        stake_of_user(options[j].bets, name) <= options_stake_of_user(options, name),
    decreases options.len(),
{
    if j == options.len() - 1 {
        lemma_options_stake_nonneg(options.drop_last(), name);
    } else {
        lemma_option_stake_within(options.drop_last(), name, j);
        lemma_user_stake_nonneg(options.last().bets, name);
    }
}

/// Stake that user `name` placed among `bets`, or `None` where it does not fit in a `u64`.
fn user_stake(name: &String, bets: &Vec<Bet>) -> (r: Option<u64>)
    ensures
        match r {
            Some(t) => t == stake_of_user(bets_view(bets@), name@),
            None => stake_of_user(bets_view(bets@), name@) > u64::MAX,
        },
{
    let ghost s = bets_view(bets@);
    let mut total: u64 = 0;
    let mut i: usize = 0;
    while i < bets.len()
        invariant
            i <= bets@.len(),
            s == bets_view(bets@),
            total == stake_of_user(s.take(i as int), name@),
        decreases bets@.len() - i,
    {
        assert(s.take(i + 1).drop_last() =~= s.take(i as int));
        assert(s.take(i + 1).last() == bets@[i as int]@);
        if bets[i].user_id == *name {
            match total.checked_add(bets[i].val) {
                Some(t) => {
                    total = t;
                },
                None => {
                    proof {
                        lemma_user_stake_prefix(s, name@, i + 1);
                    }
                    return None;
                },
            }
        }
        i += 1;
    }
    assert(s.take(i as int) =~= s);
    Some(total)
}

/// Stake that user `name` placed on any of `options`, or `None` where it does not fit.
fn user_stake_in_options(name: &String, options: &Vec<WagerOption>) -> (r: Option<u64>)
    ensures
        match r {
            Some(t) => t == options_stake_of_user(options_view(options@), name@),
            None => options_stake_of_user(options_view(options@), name@) > u64::MAX,
        },
{
    let ghost s = options_view(options@);
    let mut total: u64 = 0;
    let mut i: usize = 0;
    while i < options.len()
        invariant
            i <= options@.len(),
            s == options_view(options@),
            total == options_stake_of_user(s.take(i as int), name@),
        decreases options@.len() - i,
    {
        assert(s.take(i + 1).drop_last() =~= s.take(i as int));
        assert(s.take(i + 1).last() == options@[i as int]@);
        match user_stake(name, &options[i].bets) {
            Some(st) => match total.checked_add(st) {
                Some(t) => {
                    total = t;
                },
                None => {
                    proof {
                        lemma_options_stake_prefix(s, name@, i + 1);
                    }
                    return None;
                },
            },
            None => {
                proof {
                    lemma_option_stake_within(s, name@, i as int);
                }
                return None;
            },
        }
        i += 1;
    }
    assert(s.take(i as int) =~= s);
    Some(total)
}

/// The users credited with their stakes among `bets`, or `None` where a balance would overflow.
fn credit_for_bets(users: &Vec<User>, bets: &Vec<Bet>) -> (r: Option<Vec<User>>)
    ensures
        match r {
            Some(u) => credits_fit(users_view(users@), bets_refund(bets_view(bets@))) && users_view(u@)
                == credited(users_view(users@), bets_refund(bets_view(bets@))),
            None => !credits_fit(users_view(users@), bets_refund(bets_view(bets@))),
        },
{
    let ghost us = users_view(users@);
    let ghost refund = bets_refund(bets_view(bets@));
    let mut out: Vec<User> = Vec::new();
    let mut i: usize = 0;
    while i < users.len()
        invariant
            i <= users@.len(),
            us == users_view(users@),
            refund == bets_refund(bets_view(bets@)),
            out@.len() == i,
            forall|k: int| 0 <= k < i ==> #[trigger] us[k].balance + refund(us[k].name) <= u64::MAX,
            forall|k: int|
                0 <= k < i ==> (#[trigger] out@[k])@ == (UserView {
                    name: us[k].name,
                    balance: (us[k].balance + refund(us[k].name)) as u64,
                }),
        decreases users@.len() - i,
    {
        let user = &users[i];
        assert(us[i as int] == users@[i as int]@);
        let stake = match user_stake(&user.name, bets) {
            Some(st) => st,
            None => {
                assert(us[i as int].balance + refund(us[i as int].name) > u64::MAX);
                return None;
            },
        };
        let balance = match user.balance.checked_add(stake) {
            Some(b) => b,
            None => {
                assert(us[i as int].balance + refund(us[i as int].name) > u64::MAX);
                return None;
            },
        };
        out.push(User { name: user.name.clone(), balance });
        i += 1;
    }
    assert(users_view(out@) =~= credited(us, refund));
    Some(out)
}

/// The users credited with their stakes on any of `options`, or `None` where a balance would overflow.
fn credit_for_options(users: &Vec<User>, options: &Vec<WagerOption>) -> (r: Option<Vec<User>>)
    ensures
        match r {
            Some(u) => credits_fit(users_view(users@), options_refund(options_view(options@))) && users_view(u@)
                == credited(users_view(users@), options_refund(options_view(options@))),
            None => !credits_fit(users_view(users@), options_refund(options_view(options@))),
        },
{
    let ghost us = users_view(users@);
    let ghost refund = options_refund(options_view(options@));
    let mut out: Vec<User> = Vec::new();
    let mut i: usize = 0;
    while i < users.len()
        invariant
            i <= users@.len(),
            us == users_view(users@),
            refund == options_refund(options_view(options@)),
            out@.len() == i,
            forall|k: int| 0 <= k < i ==> #[trigger] us[k].balance + refund(us[k].name) <= u64::MAX,
            forall|k: int|
                0 <= k < i ==> (#[trigger] out@[k])@ == (UserView {
                    name: us[k].name,
                    balance: (us[k].balance + refund(us[k].name)) as u64,
                }),
        decreases users@.len() - i,
    {
        let user = &users[i];
        assert(us[i as int] == users@[i as int]@);
        let stake = match user_stake_in_options(&user.name, options) {
            Some(st) => st,
            None => {
                assert(us[i as int].balance + refund(us[i as int].name) > u64::MAX);
                return None;
            },
        };
        let balance = match user.balance.checked_add(stake) {
            Some(b) => b,
            None => {
                assert(us[i as int].balance + refund(us[i as int].name) > u64::MAX);
                return None;
            },
        };
        out.push(User { name: user.name.clone(), balance });
        i += 1;
    }
    assert(users_view(out@) =~= credited(us, refund));
    Some(out)
}

/// Appends the bets of user `name` among `bets`.
fn collect_user_bets(out: &mut Vec<Bet>, bets: &Vec<Bet>, name: &String)
    ensures
        bets_view(final(out)@) == bets_view(old(out)@) + user_bets(bets_view(bets@), name@),
{
    let ghost s = bets_view(bets@);
    let ghost start = bets_view(out@);
    let mut i: usize = 0;
    while i < bets.len()
        invariant
            i <= bets@.len(),
            s == bets_view(bets@),
            bets_view(out@) == start + user_bets(s.take(i as int), name@),
        decreases bets@.len() - i,
    {
        assert(s.take(i + 1).drop_last() =~= s.take(i as int));
        assert(s.take(i + 1).last() == bets@[i as int]@);
        if bets[i].user_id == *name {
            let ghost before = out@;
            out.push(bets[i].copy());
            assert(bets_view(out@) =~= bets_view(before).push(bets@[i as int]@));
        }
        i += 1;
    }
    assert(s.take(i as int) =~= s);
}

/// Appends the bets of user `name` on any of `options`.
fn collect_user_bets_in_options(out: &mut Vec<Bet>, options: &Vec<WagerOption>, name: &String)
    ensures
        bets_view(final(out)@) == bets_view(old(out)@) + options_user_bets(options_view(options@), name@),
{
    let ghost s = options_view(options@);
    let ghost start = bets_view(out@);
    let mut i: usize = 0;
    while i < options.len()
        invariant
            i <= options@.len(),
            s == options_view(options@),
            bets_view(out@) == start + options_user_bets(s.take(i as int), name@),
        decreases options@.len() - i,
    {
        assert(s.take(i + 1).drop_last() =~= s.take(i as int));
        assert(s.take(i + 1).last() == options@[i as int]@);
        collect_user_bets(out, &options[i].bets, name);
        assert(bets_view(out@) =~= start + options_user_bets(s.take(i + 1), name@));
        i += 1;
    }
    assert(s.take(i as int) =~= s);
}

impl Database {
    /// An empty store.
    pub fn new() -> (r: Database)
        ensures
            r@.users.len() == 0,
            r@.wagers.len() == 0,
    {
        Database { users: Vec::new(), wagers: Vec::new() }
    }

    /// Removes the wager `wager_id` with all its options and bets, crediting
    /// every removed stake back to its user.
    pub fn remove_wager(&mut self, wager_id: &String) -> (r: Result<(), StoreError>)
        ensures
            performed(r, old(self)@, final(self)@, wager_removed(old(self)@, wager_id@)),
    {
        let ghost before = self@;
        let i = match find_wager(&self.wagers, wager_id) {
            Some(i) => i,
            None => {
                return Err(StoreError::NotFound);
            },
        };
        proof {
            lemma_first_of(before.wagers, wager_with_id(wager_id@), i as int);
        }
        let credited_users = match credit_for_options(&self.users, &self.wagers[i].options) {
            Some(u) => u,
            None => {
                return Err(StoreError::BalanceOverflow);
            },
        };
        self.users = credited_users;
        self.wagers.remove(i);
        assert(self@.wagers =~= before.wagers.remove(i as int));
        Ok(())
    }
    /// Removes the option `option_id` with its bets, crediting every removed
    /// stake back to its user; the other options of its wager stay as they are.
    pub fn remove_wager_option(&mut self, option_id: &String) -> (r: Result<(), StoreError>)
        ensures
            performed(r, old(self)@, final(self)@, option_removed(old(self)@, option_id@)),
    {
        let ghost before = self@;
        let (i, j) = match locate_option(&self.wagers, option_id) {
            Some(loc) => loc,
            None => {
                return Err(StoreError::NotFound);
            },
        };
        let credited_users = match credit_for_bets(&self.users, &self.wagers[i].options[j].bets) {
            Some(u) => u,
            None => {
                return Err(StoreError::BalanceOverflow);
            },
        };
        self.users = credited_users;
        let ghost old_wager = self.wagers@[i as int];
        self.wagers[i].options.remove(j);
        proof {
            let w = self.wagers@[i as int];
            assert(options_view(w.options@) =~= options_view(old_wager.options@).remove(j as int));
            assert(w@ == without_option(old_wager@, j as int));
            assert(self@.wagers =~= before.wagers.update(i as int, without_option(before.wagers[i as int], j as int)));
        }
        Ok(())
    }

    /// Removes the bet `bet_id`, crediting its stake back to its user.
    pub fn remove_bet(&mut self, bet_id: &String) -> (r: Result<(), StoreError>)
        ensures
            performed(r, old(self)@, final(self)@, bet_removed(old(self)@, bet_id@)),
    {
        let ghost before = self@;
        let (i, j, k) = match locate_bet(&self.wagers, bet_id) {
            Some(loc) => loc,
            None => {
                return Err(StoreError::NotFound);
            },
        };
        let removed = vec![self.wagers[i].options[j].bets[k].copy()];
        assert(bets_view(removed@) =~= seq![before.wagers[i as int].options[j as int].bets[k as int]]);
        let credited_users = match credit_for_bets(&self.users, &removed) {
            Some(u) => u,
            None => {
                return Err(StoreError::BalanceOverflow);
            },
        };
        self.users = credited_users;
        let ghost old_wager = self.wagers@[i as int];
        let ghost old_option = old_wager.options@[j as int];
        self.wagers[i].options[j].bets.remove(k);
        proof {
            let w = self.wagers@[i as int];
            let o = w.options@[j as int];
            assert(bets_view(o.bets@) =~= bets_view(old_option.bets@).remove(k as int));
            assert(options_view(w.options@) =~= options_view(old_wager.options@).update(
                j as int,
                WagerOptionView {
                    id: old_option.id@,
                    name: old_option.name@,
                    description: old_option.description@,
                    bets: bets_view(old_option.bets@).remove(k as int),
                },
            ));
            assert(w@ == without_bet(old_wager@, j as int, k as int));
            assert(self@.wagers =~= before.wagers.update(i as int, without_bet(before.wagers[i as int], j as int, k as int)));
        }
        Ok(())
    }
    /// Registers a user.
    pub fn add_user(&mut self, user: User) -> (r: Result<(), StoreError>)
        ensures
            performed(r, old(self)@, final(self)@, user_added(old(self)@, user@)),
    {
        let ghost before = self@;
        if find_user(&self.users, &user.name).is_some() {
            return Err(StoreError::DuplicateId);
        }
        self.users.push(user);
        assert(self@.users =~= before.users.push(user@));
        Ok(())
    }

    /// Opens the wager `wager` under the identifier `id`, with no options yet.
    pub fn add_wager(&mut self, id: String, wager: &PotentialWager) -> (r: Result<(), StoreError>)
        ensures
            performed(
                r,
                old(self)@,
                final(self)@,
                wager_added(
                    old(self)@,
                    WagerView {
                        id: id@,
                        name: wager.name@,
                        description: wager.description@,
                        pot: wager.pot,
                        options: seq![],
                    },
                ),
            ),
    {
        let ghost before = self@;
        if find_wager(&self.wagers, &id).is_some() {
            return Err(StoreError::DuplicateId);
        }
        let created = Wager {
            id,
            name: wager.name.clone(),
            description: wager.description.clone(),
            pot: wager.pot,
            options: Vec::new(),
        };
        assert(options_view(created.options@) =~= seq![]);
        self.wagers.push(created);
        assert(self@.wagers =~= before.wagers.push(created@));
        Ok(())
    }

    /// Adds an option without bets, identified by `option_id`, to the wager `wager_id`.
    pub fn add_wager_option(&mut self, wager_id: &String, option_id: String, name: String, description: String) -> (r:
        Result<(), StoreError>)
        ensures
            performed(
                r,
                old(self)@,
                final(self)@,
                option_added(
                    old(self)@,
                    wager_id@,
                    WagerOptionView { id: option_id@, name: name@, description: description@, bets: seq![] },
                ),
            ),
    {
        let ghost before = self@;
        let i = match find_wager(&self.wagers, wager_id) {
            Some(i) => i,
            None => {
                return Err(StoreError::NotFound);
            },
        };
        if locate_option(&self.wagers, &option_id).is_some() {
            return Err(StoreError::DuplicateId);
        }
        proof {
            lemma_first_of(before.wagers, wager_with_id(wager_id@), i as int);
        }
        let option = WagerOption { id: option_id, name, description, bets: Vec::new() };
        assert(bets_view(option.bets@) =~= seq![]);
        let ghost old_wager = self.wagers@[i as int];
        self.wagers[i].options.push(option);
        proof {
            let w = self.wagers@[i as int];
            assert(options_view(w.options@) =~= options_view(old_wager.options@).push(option@));
            assert(w@ == with_option(old_wager@, option@));
            assert(self@.wagers =~= before.wagers.update(i as int, with_option(before.wagers[i as int], option@)));
        }
        Ok(())
    }

    /// Places `bet` on the option `wager_option_id`.
    pub fn add_bet(&mut self, bet: Bet, wager_option_id: &String) -> (r: Result<(), StoreError>)
        ensures
            performed(r, old(self)@, final(self)@, bet_added(old(self)@, bet@, wager_option_id@)),
    {
        let ghost before = self@;
        let (i, j) = match locate_option(&self.wagers, wager_option_id) {
            Some(loc) => loc,
            None => {
                return Err(StoreError::NotFound);
            },
        };
        if find_user(&self.users, &bet.user_id).is_none() {
            return Err(StoreError::NotFound);
        }
        if locate_bet(&self.wagers, &bet.id).is_some() {
            return Err(StoreError::DuplicateId);
        }
        let ghost old_wager = self.wagers@[i as int];
        let ghost old_option = old_wager.options@[j as int];
        let ghost b = bet@;
        self.wagers[i].options[j].bets.push(bet);
        proof {
            let w = self.wagers@[i as int];
            let o = w.options@[j as int];
            assert(bets_view(o.bets@) =~= bets_view(old_option.bets@).push(b));
            assert(options_view(w.options@) =~= options_view(old_wager.options@).update(
                j as int,
                WagerOptionView {
                    id: old_option.id@,
                    name: old_option.name@,
                    description: old_option.description@,
                    bets: bets_view(old_option.bets@).push(b),
                },
            ));
            assert(w@ == with_bet(old_wager@, j as int, b));
            assert(self@.wagers =~= before.wagers.update(i as int, with_bet(before.wagers[i as int], j as int, b)));
        }
        Ok(())
    }

    /// The user named `name`.
    pub fn get_user_by_name(&self, name: &String) -> (r: Option<User>)
        ensures
            match r {
                Some(u) => any_index(self@.users, user_named(name@)) && u@ == self@.users[first_of(
                    self@.users,
                    user_named(name@),
                )],
                None => !any_index(self@.users, user_named(name@)),
            },
    {
        match find_user(&self.users, name) {
            Some(i) => {
                proof {
                    lemma_first_of(self@.users, user_named(name@), i as int);
                }
                let u = &self.users[i];
                Some(User { name: u.name.clone(), balance: u.balance })
            },
            None => None,
        }
    }

    /// Every wager, each with its options and their bets.
    pub fn get_all_bet_info(&self) -> (r: Vec<Wager>)
        ensures
            wagers_view(r@) == self@.wagers,
    {
        copy_wagers(&self.wagers)
    }

    /// The wager `wager_id`, with its options and their bets.
    pub fn get_info_for_wager(&self, wager_id: &String) -> (r: Option<Wager>)
        ensures
            match r {
                Some(w) => any_index(self@.wagers, wager_with_id(wager_id@)) && w@ == self@.wagers[first_of(
                    self@.wagers,
                    wager_with_id(wager_id@),
                )],
                None => !any_index(self@.wagers, wager_with_id(wager_id@)),
            },
    {
        match find_wager(&self.wagers, wager_id) {
            Some(i) => {
                proof {
                    lemma_first_of(self@.wagers, wager_with_id(wager_id@), i as int);
                }
                Some(self.wagers[i].copy())
            },
            None => None,
        }
    }

    /// The options of the wager `wager_id`, each with its bets.
    pub fn get_all_wager_options_for_wager(&self, wager_id: &String) -> (r: Option<Vec<WagerOption>>)
        ensures
            match r {
                Some(os) => any_index(self@.wagers, wager_with_id(wager_id@)) && options_view(os@)
                    == self@.wagers[first_of(self@.wagers, wager_with_id(wager_id@))].options,
                None => !any_index(self@.wagers, wager_with_id(wager_id@)),
            },
    {
        match find_wager(&self.wagers, wager_id) {
            Some(i) => {
                proof {
                    lemma_first_of(self@.wagers, wager_with_id(wager_id@), i as int);
                }
                Some(copy_options(&self.wagers[i].options))
            },
            None => None,
        }
    }

    /// The first wager named `name`, with its options and their bets.
    pub fn get_wager_by_name(&self, name: &String) -> (r: Option<Wager>)
        ensures
            match r {
                Some(w) => any_index(self@.wagers, wager_named(name@)) && w@ == self@.wagers[first_of(
                    self@.wagers,
                    wager_named(name@),
                )],
                None => !any_index(self@.wagers, wager_named(name@)),
            },
    {
        match find_wager_named(&self.wagers, name) {
            Some(i) => {
                proof {
                    lemma_first_of(self@.wagers, wager_named(name@), i as int);
                }
                Some(self.wagers[i].copy())
            },
            None => None,
        }
    }

    /// The first option named `name`, with its bets.
    pub fn get_wager_option_by_name(&self, name: &String) -> (r: Option<WagerOption>)
        ensures
            match r {
                Some(o) => any_index(self@.wagers, wager_holding_option_named(name@)) && o@ == self@.wagers[named_option_location(
                    self@.wagers,
                    name@,
                ).0].options[named_option_location(self@.wagers, name@).1],
                None => !any_index(self@.wagers, wager_holding_option_named(name@)),
            },
    {
        match locate_option_named(&self.wagers, name) {
            Some((i, j)) => {
                assert(self@.wagers[i as int].options[j as int] == self.wagers@[i as int].options@[j as int]@);
                Some(self.wagers[i].options[j].copy())
            },
            None => None,
        }
    }

    /// The bets placed on the option `option_id`.
    pub fn get_all_bets_for_wager_option(&self, option_id: &String) -> (r: Option<Vec<Bet>>)
        ensures
            match r {
                Some(bets) => any_index(self@.wagers, wager_holding_option(option_id@)) && bets_view(bets@)
                    == self@.wagers[option_location(self@.wagers, option_id@).0].options[option_location(
                    self@.wagers,
                    option_id@,
                ).1].bets,
                None => !any_index(self@.wagers, wager_holding_option(option_id@)),
            },
    {
        match locate_option(&self.wagers, option_id) {
            Some((i, j)) => {
                assert(self@.wagers[i as int].options[j as int] == self.wagers@[i as int].options@[j as int]@);
                Some(copy_bets(&self.wagers[i].options[j].bets))
            },
            None => None,
        }
    }

    /// Every bet that user `name` placed, wager by wager and option by option.
    pub fn get_bets_by_user(&self, name: &String) -> (r: Vec<Bet>)
        ensures
            bets_view(r@) == wagers_user_bets(self@.wagers, name@),
    {
        let ghost s = self@.wagers;
        let mut out: Vec<Bet> = Vec::new();
        assert(bets_view(out@) =~= Seq::<BetView>::empty());
        let mut i: usize = 0;
        while i < self.wagers.len()
            invariant
                i <= self.wagers@.len(),
                s == wagers_view(self.wagers@),
                bets_view(out@) == wagers_user_bets(s.take(i as int), name@),
            decreases self.wagers@.len() - i,
        {
            assert(s.take(i + 1).drop_last() =~= s.take(i as int));
            assert(s.take(i + 1).last() == self.wagers@[i as int]@);
            collect_user_bets_in_options(&mut out, &self.wagers[i].options, name);
            i += 1;
        }
        assert(s.take(i as int) =~= s);
        out
    }

    /// Credits `payout.amount` to the balance of the user `payout.user_id`.
    pub fn provide_payout_for_bet(&mut self, payout: &Payout) -> (r: Result<(), StoreError>)
        ensures
            performed(r, old(self)@, final(self)@, payout_applied(old(self)@, payout.user_id@, payout.amount as int)),
    {
        let ghost before = self@;
        let i = match find_user(&self.users, &payout.user_id) {
            Some(i) => i,
            None => {
                return Err(StoreError::NotFound);
            },
        };
        proof {
            lemma_first_of(before.users, user_named(payout.user_id@), i as int);
        }
        let balance = match self.users[i].balance.checked_add(payout.amount) {
            Some(b) => b,
            None => {
                return Err(StoreError::BalanceOverflow);
            },
        };
        self.users[i].balance = balance;
        assert(self@.users =~= before.users.update(
            i as int,
            UserView { name: payout.user_id@, balance: (before.users[i as int].balance + payout.amount) as u64 },
        ));
        Ok(())
    }
}

/// A request to the storage task.
pub enum DatabaseRequest {
    GetUser { name: String },
    GetAllWagerInfo,
    GetWagerInfo { id: String },
    ProvidePayout { payout: Payout },
}

/// The storage task's answer to a request.
pub enum DatabaseReply {
    User(Option<User>),
    AllWagers(Vec<Wager>),
    WagerInfo(Option<Wager>),
    PayoutMade(Result<(), StoreError>),
}

impl Database {
    /// Serves one request: reads leave the store as it was, and a payout
    /// changes it as `provide_payout_for_bet` does.
    pub fn handle(&mut self, request: DatabaseRequest) -> (r: DatabaseReply)
        ensures
            match request {
                DatabaseRequest::GetUser { name } => final(self)@ == old(self)@ && match r {
                    DatabaseReply::User(Some(u)) => any_index(old(self)@.users, user_named(name@)) && u@
                        == old(self)@.users[first_of(old(self)@.users, user_named(name@))],
                    DatabaseReply::User(None) => !any_index(old(self)@.users, user_named(name@)),
                    _ => false,
                },
                DatabaseRequest::GetAllWagerInfo => final(self)@ == old(self)@ && match r {
                    DatabaseReply::AllWagers(ws) => wagers_view(ws@) == old(self)@.wagers,
                    _ => false,
                },
                DatabaseRequest::GetWagerInfo { id } => final(self)@ == old(self)@ && match r {
                    DatabaseReply::WagerInfo(Some(w)) => any_index(old(self)@.wagers, wager_with_id(id@)) && w@
                        == old(self)@.wagers[first_of(old(self)@.wagers, wager_with_id(id@))],
                    DatabaseReply::WagerInfo(None) => !any_index(old(self)@.wagers, wager_with_id(id@)),
                    _ => false,
                },
                DatabaseRequest::ProvidePayout { payout } => match r {
                    DatabaseReply::PayoutMade(res) => performed(
                        res,
                        old(self)@,
                        final(self)@,
                        payout_applied(old(self)@, payout.user_id@, payout.amount as int),
                    ),
                    _ => false,
                },
            },
    {
        match request {
            DatabaseRequest::GetUser { name } => DatabaseReply::User(self.get_user_by_name(&name)),
            DatabaseRequest::GetAllWagerInfo => DatabaseReply::AllWagers(self.get_all_bet_info()),
            DatabaseRequest::GetWagerInfo { id } => DatabaseReply::WagerInfo(self.get_info_for_wager(&id)),
            DatabaseRequest::ProvidePayout { payout } => DatabaseReply::PayoutMade(
                self.provide_payout_for_bet(&payout),
            ),
        }
    }
}

} // verus!
