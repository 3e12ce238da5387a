//! The records that travel between the store, the settlement logic and clients.

use vstd::prelude::*;

verus! {

/// A registered user: the name identifies them.
#[derive(Clone, Debug, PartialEq, Eq)]
pub struct User {
    pub name: String,
    pub balance: u64,
}

/// One stake placed by a user on an option.
#[derive(Clone, Debug, PartialEq, Eq)]
pub struct Bet {
    pub id: String,
    pub user_id: String,
    pub val: u64,
}

/// One outcome of a wager, together with the bets placed on it.
#[derive(Clone, Debug, PartialEq, Eq)]
pub struct WagerOption {
    pub id: String,
    pub name: String,
    pub description: String,
    pub bets: Vec<Bet>,
}

/// A wager with its options, each expanded with its bets.
#[derive(Clone, Debug, PartialEq, Eq)]
pub struct Wager {
    pub id: String,
    pub name: String,
    pub description: String,
    pub pot: u64,
    pub options: Vec<WagerOption>,
}

/// What is needed to open a new wager, before it has an identifier.
#[derive(Clone, Debug, PartialEq, Eq)]
pub struct PotentialWager {
    pub name: String,
    pub description: String,
    pub pot: u64,
}

/// A `User` as the contracts see it.
pub struct UserView {
    pub name: Seq<char>,
    pub balance: u64,
}

/// A `Bet` as the contracts see it.
pub struct BetView {
    pub id: Seq<char>,
    pub user_id: Seq<char>,
    pub val: u64,
}

/// A `WagerOption` as the contracts see it.
pub struct WagerOptionView {
    pub id: Seq<char>,
    pub name: Seq<char>,
    pub description: Seq<char>,
    pub bets: Seq<BetView>,
}

/// A `Wager` as the contracts see it.
pub struct WagerView {
    pub id: Seq<char>,
    pub name: Seq<char>,
    pub description: Seq<char>,
    pub pot: u64,
    pub options: Seq<WagerOptionView>,
}

impl View for User {
    type V = UserView;

    open spec fn view(&self) -> UserView {
        UserView { name: self.name@, balance: self.balance }
    }
}

pub open spec fn users_view(users: Seq<User>) -> Seq<UserView> {
    users.map_values(|u: User| u@)
}

impl View for Bet {
    type V = BetView;

    open spec fn view(&self) -> BetView {
        BetView { id: self.id@, user_id: self.user_id@, val: self.val }
    }
}

pub open spec fn bets_view(bets: Seq<Bet>) -> Seq<BetView> {
    bets.map_values(|b: Bet| b@)
}

impl View for WagerOption {
    type V = WagerOptionView;

    open spec fn view(&self) -> WagerOptionView {
        WagerOptionView {
            id: self.id@,
            name: self.name@,
            description: self.description@,
            bets: bets_view(self.bets@),
        }
    }
}

pub open spec fn options_view(options: Seq<WagerOption>) -> Seq<WagerOptionView> {
    options.map_values(|o: WagerOption| o@)
}

impl View for Wager {
    type V = WagerView;

    open spec fn view(&self) -> WagerView {
        WagerView {
            id: self.id@,
            name: self.name@,
            description: self.description@,
            pot: self.pot,
            options: options_view(self.options@),
        }
    }
}

pub open spec fn wagers_view(wagers: Seq<Wager>) -> Seq<WagerView> {
    wagers.map_values(|w: Wager| w@)
}

impl Bet {
    /// A copy, field for field.
    pub fn copy(&self) -> (r: Bet)
        ensures
            r@ == self@,
    {
        Bet { id: self.id.clone(), user_id: self.user_id.clone(), val: self.val }
    }
}

/// Copies of every bet, in order.
pub fn copy_bets(bets: &Vec<Bet>) -> (r: Vec<Bet>)
    ensures
        bets_view(r@) == bets_view(bets@),
{
    let mut r: Vec<Bet> = Vec::new();
    let mut i: usize = 0;
    while i < bets.len()
        invariant
            i <= bets@.len(),
            r@.len() == i,
            forall|j: int| 0 <= j < i ==> (#[trigger] r@[j])@ == bets@[j]@,
        decreases bets@.len() - i,
    {
        r.push(bets[i].copy());
        i += 1;
    }
    assert(bets_view(r@) =~= bets_view(bets@));
    r
}

impl WagerOption {
    /// A copy, with copies of its bets.
    pub fn copy(&self) -> (r: WagerOption)
        ensures
            r@ == self@,
    {
        WagerOption {
            id: self.id.clone(),
            name: self.name.clone(),
            description: self.description.clone(),
            bets: copy_bets(&self.bets),
        }
    }
}

/// Copies of every option, in order.
pub fn copy_options(options: &Vec<WagerOption>) -> (r: Vec<WagerOption>)
    ensures
        options_view(r@) == options_view(options@),
{
    let mut r: Vec<WagerOption> = Vec::new();
    let mut i: usize = 0;
    while i < options.len()
        invariant
            i <= options@.len(),
            r@.len() == i,
            forall|j: int| 0 <= j < i ==> (#[trigger] r@[j])@ == options@[j]@,
        decreases options@.len() - i,
    {
        r.push(options[i].copy());
        i += 1;
    }
    assert(options_view(r@) =~= options_view(options@));
    r
}

impl Wager {
    /// A copy, with copies of its options and bets.
    pub fn copy(&self) -> (r: Wager)
        ensures
            r@ == self@,
    {
        Wager {
            id: self.id.clone(),
            name: self.name.clone(),
            description: self.description.clone(),
            pot: self.pot,
            options: copy_options(&self.options),
        }
    }
}

/// Copies of every wager, in order.
pub fn copy_wagers(wagers: &Vec<Wager>) -> (r: Vec<Wager>)
    ensures
        wagers_view(r@) == wagers_view(wagers@),
{
    let mut r: Vec<Wager> = Vec::new();
    let mut i: usize = 0;
    while i < wagers.len()
        invariant
            i <= wagers@.len(),
            r@.len() == i,
            forall|j: int| 0 <= j < i ==> (#[trigger] r@[j])@ == wagers@[j]@,
        decreases wagers@.len() - i,
    {
        r.push(wagers[i].copy());
        i += 1;
    }
    assert(wagers_view(r@) =~= wagers_view(wagers@));
    r
}

} // verus!
