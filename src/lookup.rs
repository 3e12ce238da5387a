//! Lookups by identifier. Every lookup answers with the first match, in the
//! order in which the records are held.

use vstd::prelude::*;
use crate::entities::{
    Bet, BetView, User, UserView, Wager, WagerOption, WagerOptionView, WagerView, bets_view, options_view,
    users_view, wagers_view,
};

verus! {

/// Some element of `s` satisfies `p`.
pub open spec fn any_index<A>(s: Seq<A>, p: spec_fn(A) -> bool) -> bool {
    exists|i: int| 0 <= i < s.len() && p(#[trigger] s[i])
}

/// `i` is the position of the first element of `s` that satisfies `p`.
pub open spec fn first_index<A>(s: Seq<A>, p: spec_fn(A) -> bool, i: int) -> bool {
    &&& 0 <= i < s.len()
    &&& p(s[i])
    &&& forall|j: int| 0 <= j < i ==> !p(#[trigger] s[j])
}

/// The position of the first element of `s` that satisfies `p`, where there is one.
pub open spec fn first_of<A>(s: Seq<A>, p: spec_fn(A) -> bool) -> int {
    choose|i: int| first_index(s, p, i)
}

pub proof fn lemma_first_of<A>(s: Seq<A>, p: spec_fn(A) -> bool, i: int)
    requires
        first_index(s, p, i),
    ensures
        first_of(s, p) == i,
        any_index(s, p),
{
    let c = first_of(s, p);
    assert(first_index(s, p, c));
    if c < i {
        assert(!p(s[c]));
    } else if i < c {
        assert(!p(s[i]));
    }
}

/// Where some element satisfies `p`, there is a first one.
pub proof fn lemma_first_exists<A>(s: Seq<A>, p: spec_fn(A) -> bool)
    requires
        any_index(s, p),
    ensures
        first_index(s, p, first_of(s, p)),
    decreases s.len(),
{
    let w = choose|i: int| 0 <= i < s.len() && p(#[trigger] s[i]);
    if p(s[0]) {
        assert(first_index(s, p, 0));
    } else {
        let t = s.drop_first();
        assert(t[w - 1] == s[w]);
        assert(any_index(t, p));
        lemma_first_exists(t, p);
        let j = first_of(t, p);
        assert forall|k: int| 0 <= k < j + 1 implies !p(#[trigger] s[k]) by {
            if k > 0 {
                assert(s[k] == t[k - 1]);
            }
        }
        assert(s[j + 1] == t[j]);
        assert(first_index(s, p, j + 1));
    }
}

pub open spec fn user_named(name: Seq<char>) -> spec_fn(UserView) -> bool {
    |u: UserView| u.name == name
}

pub open spec fn wager_with_id(id: Seq<char>) -> spec_fn(WagerView) -> bool {
    |w: WagerView| w.id == id
}

pub open spec fn option_with_id(id: Seq<char>) -> spec_fn(WagerOptionView) -> bool {
    |o: WagerOptionView| o.id == id
}

pub open spec fn bet_with_id(id: Seq<char>) -> spec_fn(BetView) -> bool {
    |b: BetView| b.id == id
}

/// The wager has an option with identifier `id`.
pub open spec fn wager_holding_option(id: Seq<char>) -> spec_fn(WagerView) -> bool {
    |w: WagerView| any_index(w.options, option_with_id(id))
}

/// The option has a bet with identifier `id`.
pub open spec fn option_holding_bet(id: Seq<char>) -> spec_fn(WagerOptionView) -> bool {
    |o: WagerOptionView| any_index(o.bets, bet_with_id(id))
}

/// One of the wager's options has a bet with identifier `id`.
pub open spec fn wager_holding_bet(id: Seq<char>) -> spec_fn(WagerView) -> bool {
    |w: WagerView| any_index(w.options, option_holding_bet(id))
}

/// Where the first option with identifier `id` stands: the wager's position,
/// then the option's position within it.
pub open spec fn option_location(wagers: Seq<WagerView>, id: Seq<char>) -> (int, int) {
    let i = first_of(wagers, wager_holding_option(id));
    (i, first_of(wagers[i].options, option_with_id(id)))
}

/// Where the first bet with identifier `id` stands: wager, option, bet.
pub open spec fn bet_location(wagers: Seq<WagerView>, id: Seq<char>) -> (int, int, int) {
    let i = first_of(wagers, wager_holding_bet(id));
    let j = first_of(wagers[i].options, option_holding_bet(id));
    (i, j, first_of(wagers[i].options[j].bets, bet_with_id(id)))
}

pub fn find_user(users: &Vec<User>, name: &String) -> (r: Option<usize>)
    ensures
        match r {
            Some(i) => first_index(users_view(users@), user_named(name@), i as int),
            None => !any_index(users_view(users@), user_named(name@)),
        },
{
    let ghost s = users_view(users@);
    let mut i: usize = 0;
    while i < users.len()
        invariant
            i <= users@.len(),
            s == users_view(users@),
            forall|j: int| 0 <= j < i ==> !user_named(name@)(#[trigger] s[j]),
        decreases users@.len() - i,
    {
        if users[i].name == *name {
            return Some(i);
        }
        i += 1;
    }
    None
}

pub fn find_wager(wagers: &Vec<Wager>, id: &String) -> (r: Option<usize>)
    ensures
        match r {
            Some(i) => first_index(wagers_view(wagers@), wager_with_id(id@), i as int),
            None => !any_index(wagers_view(wagers@), wager_with_id(id@)),
        },
{
    let ghost s = wagers_view(wagers@);
    let mut i: usize = 0;
    while i < wagers.len()
        invariant
            i <= wagers@.len(),
            s == wagers_view(wagers@),
            forall|j: int| 0 <= j < i ==> !wager_with_id(id@)(#[trigger] s[j]),
        decreases wagers@.len() - i,
    {
        if wagers[i].id == *id {
            return Some(i);
        }
        i += 1;
    }
    None
}

pub fn find_option(options: &Vec<WagerOption>, id: &String) -> (r: Option<usize>)
    ensures
        match r {
            Some(i) => first_index(options_view(options@), option_with_id(id@), i as int),
            None => !any_index(options_view(options@), option_with_id(id@)),
        },
{
    let ghost s = options_view(options@);
    let mut i: usize = 0;
    while i < options.len()
        invariant
            i <= options@.len(),
            s == options_view(options@),
            forall|j: int| 0 <= j < i ==> !option_with_id(id@)(#[trigger] s[j]),
        decreases options@.len() - i,
    {
        if options[i].id == *id {
            return Some(i);
        }
        i += 1;
    }
    None
}

pub fn find_bet(bets: &Vec<Bet>, id: &String) -> (r: Option<usize>)
    ensures
        match r {
            Some(i) => first_index(bets_view(bets@), bet_with_id(id@), i as int),
            None => !any_index(bets_view(bets@), bet_with_id(id@)),
        },
{
    let ghost s = bets_view(bets@);
    let mut i: usize = 0;
    while i < bets.len()
        invariant
            i <= bets@.len(),
            s == bets_view(bets@),
            forall|j: int| 0 <= j < i ==> !bet_with_id(id@)(#[trigger] s[j]),
        decreases bets@.len() - i,
    {
        if bets[i].id == *id {
            return Some(i);
        }
        i += 1;
    }
    None
}

/// The position of the first option with identifier `id` among all wagers.
pub fn locate_option(wagers: &Vec<Wager>, id: &String) -> (r: Option<(usize, usize)>)
    ensures
        match r {
            Some((i, j)) => {
                &&& any_index(wagers_view(wagers@), wager_holding_option(id@))
                &&& option_location(wagers_view(wagers@), id@) == (i as int, j as int)
                &&& i < wagers@.len()
                &&& j < wagers@[i as int].options@.len()
            },
            None => !any_index(wagers_view(wagers@), wager_holding_option(id@)),
        },
{
    let ghost s = wagers_view(wagers@);
    let mut i: usize = 0;
    while i < wagers.len()
        invariant
            i <= wagers@.len(),
            s == wagers_view(wagers@),
            forall|k: int| 0 <= k < i ==> !wager_holding_option(id@)(#[trigger] s[k]),
        decreases wagers@.len() - i,
    {
        match find_option(&wagers[i].options, id) {
            Some(j) => {
                proof {
                    assert(s[i as int].options == options_view(wagers@[i as int].options@));
                    assert(wager_holding_option(id@)(s[i as int]));
                    assert(first_index(s, wager_holding_option(id@), i as int));
                    lemma_first_of(s, wager_holding_option(id@), i as int);
                    lemma_first_of(s[i as int].options, option_with_id(id@), j as int);
                }
                return Some((i, j));
            },
            None => {
                assert(s[i as int].options == options_view(wagers@[i as int].options@));
            },
        }
        i += 1;
    }
    None
}

/// The position of the first bet with identifier `id` among all wagers.
pub fn locate_bet(wagers: &Vec<Wager>, id: &String) -> (r: Option<(usize, usize, usize)>)
    ensures
        match r {
            Some((i, j, k)) => {
                &&& any_index(wagers_view(wagers@), wager_holding_bet(id@))
                &&& bet_location(wagers_view(wagers@), id@) == (i as int, j as int, k as int)
                &&& i < wagers@.len()
                &&& j < wagers@[i as int].options@.len()
                &&& k < wagers@[i as int].options@[j as int].bets@.len()
            },
            None => !any_index(wagers_view(wagers@), wager_holding_bet(id@)),
        },
{
    let ghost s = wagers_view(wagers@);
    let mut i: usize = 0;
    while i < wagers.len()
        invariant
            i <= wagers@.len(),
            s == wagers_view(wagers@),
            forall|m: int| 0 <= m < i ==> !wager_holding_bet(id@)(#[trigger] s[m]),
        decreases wagers@.len() - i,
    {
        let options = &wagers[i].options;
        let ghost os = options_view(options@);
        assert(s[i as int].options == os);
        let mut j: usize = 0;
        while j < options.len()
            invariant
                i < wagers@.len(),
                options == &wagers@[i as int].options,
                os == options_view(options@),
                s == wagers_view(wagers@),
                s[i as int].options == os,
                forall|m: int| 0 <= m < i ==> !wager_holding_bet(id@)(#[trigger] s[m]),
                j <= options@.len(),
                forall|m: int| 0 <= m < j ==> !option_holding_bet(id@)(#[trigger] os[m]),
            decreases options@.len() - j,
        {
            match find_bet(&options[j].bets, id) {
                Some(k) => {
                    proof {
                        assert(os[j as int].bets == bets_view(options@[j as int].bets@));
                        assert(option_holding_bet(id@)(os[j as int]));
                        assert(first_index(os, option_holding_bet(id@), j as int));
                        lemma_first_of(os, option_holding_bet(id@), j as int);
                        assert(wager_holding_bet(id@)(s[i as int]));
                        assert(first_index(s, wager_holding_bet(id@), i as int));
                        lemma_first_of(s, wager_holding_bet(id@), i as int);
                        lemma_first_of(os[j as int].bets, bet_with_id(id@), k as int);
                    }
                    return Some((i, j, k));
                },
                None => {
                    assert(os[j as int].bets == bets_view(options@[j as int].bets@));
                },
            }
            j += 1;
        }
        assert(!wager_holding_bet(id@)(s[i as int]));
        i += 1;
    }
    None
}

pub open spec fn wager_named(name: Seq<char>) -> spec_fn(WagerView) -> bool {
    |w: WagerView| w.name == name
}

pub open spec fn option_named(name: Seq<char>) -> spec_fn(WagerOptionView) -> bool {
    |o: WagerOptionView| o.name == name
}

/// The wager has an option named `name`.
pub open spec fn wager_holding_option_named(name: Seq<char>) -> spec_fn(WagerView) -> bool {
    |w: WagerView| any_index(w.options, option_named(name))
}

/// Where the first option named `name` stands: wager, then option.
pub open spec fn named_option_location(wagers: Seq<WagerView>, name: Seq<char>) -> (int, int) {
    let i = first_of(wagers, wager_holding_option_named(name));
    (i, first_of(wagers[i].options, option_named(name)))
}

pub fn find_wager_named(wagers: &Vec<Wager>, name: &String) -> (r: Option<usize>)
    ensures
        match r {
            Some(i) => first_index(wagers_view(wagers@), wager_named(name@), i as int),
            None => !any_index(wagers_view(wagers@), wager_named(name@)),
        },
{
    let ghost s = wagers_view(wagers@);
    let mut i: usize = 0;
    while i < wagers.len()
        invariant
            i <= wagers@.len(),
            s == wagers_view(wagers@),
            forall|j: int| 0 <= j < i ==> !wager_named(name@)(#[trigger] s[j]),
        decreases wagers@.len() - i,
    {
        if wagers[i].name == *name {
            return Some(i);
        }
        i += 1;
    }
    None
}

pub fn find_option_named(options: &Vec<WagerOption>, name: &String) -> (r: Option<usize>)
    ensures
        match r {
            Some(i) => first_index(options_view(options@), option_named(name@), i as int),
            None => !any_index(options_view(options@), option_named(name@)),
        },
{
    let ghost s = options_view(options@);
    let mut i: usize = 0;
    while i < options.len()
        invariant
            i <= options@.len(),
            s == options_view(options@),
            forall|j: int| 0 <= j < i ==> !option_named(name@)(#[trigger] s[j]),
        decreases options@.len() - i,
    {
        if options[i].name == *name {
            return Some(i);
        }
        i += 1;
    }
    None
}

/// The position of the first option named `name` among all wagers.
pub fn locate_option_named(wagers: &Vec<Wager>, name: &String) -> (r: Option<(usize, usize)>)
    ensures
        match r {
            Some((i, j)) => {
                &&& any_index(wagers_view(wagers@), wager_holding_option_named(name@))
                &&& named_option_location(wagers_view(wagers@), name@) == (i as int, j as int)
                &&& i < wagers@.len()
                &&& j < wagers@[i as int].options@.len()
            },
            None => !any_index(wagers_view(wagers@), wager_holding_option_named(name@)),
        },
{
    let ghost s = wagers_view(wagers@);
    let mut i: usize = 0;
    while i < wagers.len()
        invariant
            i <= wagers@.len(),
            s == wagers_view(wagers@),
            forall|k: int| 0 <= k < i ==> !wager_holding_option_named(name@)(#[trigger] s[k]),
        decreases wagers@.len() - i,
    {
        match find_option_named(&wagers[i].options, name) {
            Some(j) => {
                proof {
                    assert(s[i as int].options == options_view(wagers@[i as int].options@));
                    assert(wager_holding_option_named(name@)(s[i as int]));
                    assert(first_index(s, wager_holding_option_named(name@), i as int));
                    lemma_first_of(s, wager_holding_option_named(name@), i as int);
                    lemma_first_of(s[i as int].options, option_named(name@), j as int);
                }
                return Some((i, j));
            },
            None => {
                assert(s[i as int].options == options_view(wagers@[i as int].options@));
            },
        }
        i += 1;
    }
    None
}

} // verus!
