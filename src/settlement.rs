//! Resolution of a wager: the whole pool, pot and every stake, goes to the
//! bettors of the winning option in proportion to their stakes.

use vstd::prelude::*;
use crate::entities::{Bet, BetView, Wager, WagerOptionView, WagerView, bets_view, options_view};
use crate::lookup::{any_index, find_option, first_of, lemma_first_of, option_with_id};

verus! {

/// Why a resolution did not pay out in full.
#[derive(Clone, Copy, Debug, PartialEq, Eq, Structural)]
pub enum SettlementError {
    /// The store holds no wager with the requested identifier.
    WagerNotFound,
    /// The wager has no option with the declared winning identifier.
    OptionNotFound,
    /// Nobody staked anything on the winning option: there is nobody to pay.
    NoStakeOnWinner,
    /// The pool does not fit in a balance.
    AmountOverflow,
    /// The store failed while the wager was being read.
    StoreFailed,
    /// A payout was refused by the store; payouts made before it stay made.
    PayoutFailed,
}

/// A credit to be made to a user's balance.
#[derive(Clone, Debug, PartialEq, Eq)]
pub struct Payout {
    pub user_id: String,
    pub amount: u64,
}

pub struct PayoutView {
    pub user_id: Seq<char>,
    pub amount: int,
}

impl View for Payout {
    type V = PayoutView;

    open spec fn view(&self) -> PayoutView {
        PayoutView { user_id: self.user_id@, amount: self.amount as int }
    }
}

pub open spec fn payouts_view(payouts: Seq<Payout>) -> Seq<PayoutView> {
    payouts.map_values(|p: Payout| p@)
}

/// Sum of the stakes of a list of bets.
pub open spec fn stake_total(bets: Seq<BetView>) -> int
    decreases bets.len(),
{
    if bets.len() == 0 {
        0
    } else {
        stake_total(bets.drop_last()) + bets.last().val
    }
}

/// Sum of the stakes over every option.
pub open spec fn staked_on_options(options: Seq<WagerOptionView>) -> int
    decreases options.len(),
{
    if options.len() == 0 {
        0
    } else {
        staked_on_options(options.drop_last()) + stake_total(options.last().bets)
    }
}

/// Everything that is paid out when the wager is resolved: its pot and all stakes.
pub open spec fn pool_total(w: WagerView) -> int {
    w.pot + staked_on_options(w.options)
}

/// The option that resolving `w` in favour of `id` pays: the first with that identifier.
pub open spec fn winning_option(w: WagerView, id: Seq<char>) -> WagerOptionView {
    w.options[first_of(w.options, option_with_id(id))]
}

/// A winning stake of `val` receives `val * pool / winning_stake`, rounded down.
pub open spec fn payout_amount(val: u64, pool: int, winning_stake: int) -> int {
    (val * pool) / winning_stake
}

/// The payouts that resolving `w` in favour of option `id` makes, one per
/// winning bet and in the order of the bets, or the reason it makes none.
pub open spec fn planned_payouts(w: WagerView, id: Seq<char>) -> Result<Seq<PayoutView>, SettlementError> {
    if !any_index(w.options, option_with_id(id)) {
        Err(SettlementError::OptionNotFound)
    } else if stake_total(winning_option(w, id).bets) == 0 {
        Err(SettlementError::NoStakeOnWinner)
    } else if pool_total(w) > u64::MAX {
        Err(SettlementError::AmountOverflow)
    } else {
        let winners = winning_option(w, id).bets;
        Ok(
            winners.map_values(
                |b: BetView|
                    PayoutView {
                        user_id: b.user_id,
                        amount: payout_amount(b.val, pool_total(w), stake_total(winners)),
                    },
            ),
        )
    }
}

pub open spec fn plan_view(r: Result<Vec<Payout>, SettlementError>) -> Result<Seq<PayoutView>, SettlementError> {
    match r {
        Ok(v) => Ok(payouts_view(v@)),
        Err(e) => Err(e),
    }
}

proof fn lemma_stake_prefix(bets: Seq<BetView>, k: int)
    requires
        0 <= k <= bets.len(),
    ensures
        0 <= stake_total(bets.take(k)) <= stake_total(bets),
    decreases bets.len(),
{
    if k == bets.len() {
        assert(bets.take(k) =~= bets);
        lemma_stake_nonneg(bets);
    } else {
        lemma_stake_prefix(bets.drop_last(), k);
        assert(bets.drop_last().take(k) =~= bets.take(k));
    }
}

proof fn lemma_stake_nonneg(bets: Seq<BetView>)
    ensures
        stake_total(bets) >= 0,
    decreases bets.len(),
{
    if bets.len() > 0 {
        lemma_stake_nonneg(bets.drop_last());
    }
}

proof fn lemma_bet_within_stake(bets: Seq<BetView>, j: int)
    requires
        0 <= j < bets.len(),
    ensures
        bets[j].val <= stake_total(bets),
    decreases bets.len(),
{
    if j == bets.len() - 1 {
        lemma_stake_nonneg(bets.drop_last());
    } else {
        lemma_bet_within_stake(bets.drop_last(), j);
    }
}

proof fn lemma_staked_nonneg(options: Seq<WagerOptionView>)
    ensures
        staked_on_options(options) >= 0,
    decreases options.len(),
{
    if options.len() > 0 {
        lemma_staked_nonneg(options.drop_last());
        lemma_stake_nonneg(options.last().bets);
    }
}

proof fn lemma_staked_prefix(options: Seq<WagerOptionView>, k: int)
    requires
        0 <= k <= options.len(),
    ensures
        0 <= staked_on_options(options.take(k)) <= staked_on_options(options),
    decreases options.len(),
{
    if k == options.len() {
        assert(options.take(k) =~= options);
        lemma_staked_nonneg(options);
    } else {
        lemma_staked_prefix(options.drop_last(), k);
        assert(options.drop_last().take(k) =~= options.take(k));
        lemma_stake_nonneg(options.last().bets);
    }
}

proof fn lemma_option_within_staked(options: Seq<WagerOptionView>, j: int)
    requires
        0 <= j < options.len(),
    ensures
        stake_total(options[j].bets) <= staked_on_options(options),
    decreases options.len(),
{
    if j == options.len() - 1 {
        lemma_staked_nonneg(options.drop_last());
    } else {
        lemma_option_within_staked(options.drop_last(), j);
        lemma_stake_nonneg(options.last().bets);
    }
}

/// Sum of the amounts of a list of payouts.
pub open spec fn payout_sum(payouts: Seq<PayoutView>) -> int
    decreases payouts.len(),
{
    if payouts.len() == 0 {
        0
    } else {
        payout_sum(payouts.drop_last()) + payouts.last().amount
    }
}

proof fn lemma_rounded_shares(bets: Seq<BetView>, ps: Seq<PayoutView>, pool: int, stake: int)
    requires
        stake > 0,
        pool >= 0,
        ps.len() == bets.len(),
        forall|k: int| 0 <= k < ps.len() ==> #[trigger] ps[k].amount == (bets[k].val * pool) / stake,
    ensures
        stake * payout_sum(ps) <= pool * stake_total(bets),
        ps.len() > 0 ==> stake * payout_sum(ps) + stake * ps.len() > pool * stake_total(bets),
        (forall|k: int| 0 <= k < bets.len() ==> (#[trigger] bets[k].val * pool) % stake == 0)
            ==> stake * payout_sum(ps) == pool * stake_total(bets),
    decreases ps.len(),
{
    if ps.len() > 0 {
        let bd = bets.drop_last();
        let pd = ps.drop_last();
        assert forall|k: int| 0 <= k < pd.len() implies #[trigger] pd[k].amount == (bd[k].val * pool) / stake by {
            assert(pd[k] == ps[k]);
            assert(bd[k] == bets[k]);
        }
        lemma_rounded_shares(bd, pd, pool, stake);
        let n = ps.len() - 1;
        let x = bets[n].val * pool;
        let q = x / stake;
        assert(ps.last().amount == q);
        assert(x >= 0) by (nonlinear_arith)
            requires
                x == bets[n].val * pool,
                pool >= 0,
        ;
        vstd::arithmetic::div_mod::lemma_fundamental_div_mod(x, stake);
        vstd::arithmetic::div_mod::lemma_mod_bound(x, stake);
        let s0 = payout_sum(pd);
        let v0 = stake_total(bd);
        assert(payout_sum(ps) == s0 + q);
        assert(stake_total(bets) == v0 + bets[n].val);
        assert(stake * (s0 + q) == stake * s0 + stake * q) by (nonlinear_arith);
        assert(pool * (v0 + bets[n].val) == pool * v0 + x) by (nonlinear_arith)
            requires
                x == bets[n].val * pool,
        ;
        assert(stake * (ps.len() as int) == stake * n + stake) by (nonlinear_arith)
            requires
                n == ps.len() - 1,
        ;
        if n > 0 {
            assert(stake * s0 + stake * n > pool * v0);
        } else {
            assert(pd.len() == 0);
            assert(s0 == 0 && v0 == 0);
            assert(stake * s0 == 0) by (nonlinear_arith)
                requires
                    s0 == 0,
            ;
            assert(pool * v0 == 0) by (nonlinear_arith)
                requires
                    v0 == 0,
            ;
            assert(stake * n == 0) by (nonlinear_arith)
                requires
                    n == 0,
            ;
        }
        if forall|k: int| 0 <= k < bets.len() ==> (#[trigger] bets[k].val * pool) % stake == 0 {
            assert forall|k: int| 0 <= k < bd.len() implies (#[trigger] bd[k].val * pool) % stake == 0 by {
                assert(bd[k] == bets[k]);
            }
            assert(x % stake == 0);
        }
    }
}

/// Resolving a wager shares out its whole pool among the winning bets: each
/// receives its stake times the pool over the winning stake, rounded down; the
/// payouts together never exceed the pool, fall short of it by less than one
/// unit per winning bet, and add up to the pool exactly where no share is rounded.
pub proof fn lemma_payouts_share_pool(w: WagerView, id: Seq<char>)
    requires
        planned_payouts(w, id) is Ok,
    ensures
        ({
            let ps = planned_payouts(w, id)->Ok_0;
            let winners = winning_option(w, id).bets;
            let pool = pool_total(w);
            &&& ps.len() == winners.len()
            &&& forall|k: int|
                0 <= k < ps.len() ==> #[trigger] ps[k].amount == (winners[k].val * pool) / stake_total(winners)
            &&& payout_sum(ps) <= pool
            &&& pool - payout_sum(ps) < ps.len()
            &&& (forall|k: int| 0 <= k < winners.len() ==> (#[trigger] winners[k].val * pool) % stake_total(winners) == 0)
                ==> payout_sum(ps) == pool
        }),
{
    let ps = planned_payouts(w, id)->Ok_0;
    let winners = winning_option(w, id).bets;
    let pool = pool_total(w);
    let stake = stake_total(winners);
    lemma_staked_nonneg(w.options);
    lemma_stake_nonneg(winners);
    assert(stake > 0);
    assert(pool >= 0);
    lemma_rounded_shares(winners, ps, pool, stake);
    let sum = payout_sum(ps);
    assert(sum <= pool) by (nonlinear_arith)
        requires
            stake * sum <= pool * stake,
            stake > 0,
    ;
    if ps.len() > 0 {
        assert(pool - sum < ps.len()) by (nonlinear_arith)
            requires
                stake * sum + stake * ps.len() > pool * stake,
                stake > 0,
        ;
    } else {
        assert(winners.len() == 0);
        assert(stake == 0);
    }
    if forall|k: int| 0 <= k < winners.len() ==> (#[trigger] winners[k].val * pool) % stake == 0 {
        assert(sum == pool) by (nonlinear_arith)
            requires
                stake * sum == pool * stake,
                stake > 0,
        ;
    }
}

/// Total stake of a list of bets, or `None` where it does not fit in a `u64`.
fn stake_of(bets: &Vec<Bet>) -> (r: Option<u64>)
    ensures
        match r {
            Some(t) => t == stake_total(bets_view(bets@)),
            None => stake_total(bets_view(bets@)) > u64::MAX,
        },
{
    let ghost s = bets_view(bets@);
    let mut total: u64 = 0;
    let mut i: usize = 0;
    while i < bets.len()
        invariant
            i <= bets@.len(),
            s == bets_view(bets@),
            total == stake_total(s.take(i as int)),
        decreases bets@.len() - i,
    {
        assert(s.take(i + 1).drop_last() =~= s.take(i as int));
        assert(s.take(i + 1).last() == bets@[i as int]@);
        match total.checked_add(bets[i].val) {
            Some(t) => {
                total = t;
            },
            None => {
                proof {
                    lemma_stake_prefix(s, i + 1);
                }
                return None;
            },
        }
        i += 1;
    }
    assert(s.take(i as int) =~= s);
    Some(total)
}

/// Pot plus every stake of the wager, or `None` where it does not fit in a `u64`.
fn pool_of(wager: &Wager) -> (r: Option<u64>)
    ensures
        match r {
            Some(t) => t == pool_total(wager@),
            None => pool_total(wager@) > u64::MAX,
        },
{
    let ghost s = options_view(wager.options@);
    let mut total: u64 = wager.pot;
    let mut i: usize = 0;
    while i < wager.options.len()
        invariant
            i <= wager.options@.len(),
            s == options_view(wager.options@),
            s == wager@.options,
            total == wager.pot + staked_on_options(s.take(i as int)),
        decreases wager.options@.len() - i,
    {
        assert(s.take(i + 1).drop_last() =~= s.take(i as int));
        assert(s.take(i + 1).last() == wager.options@[i as int]@);
        let stake = stake_of(&wager.options[i].bets);
        match stake {
            Some(st) => match total.checked_add(st) {
                Some(t) => {
                    total = t;
                },
                None => {
                    proof {
                        lemma_staked_prefix(s, i + 1);
                    }
                    return None;
                },
            },
            None => {
                proof {
                    lemma_option_within_staked(s, i as int);
                }
                return None;
            },
        }
        i += 1;
    }
    assert(s.take(i as int) =~= s);
    Some(total)
}

/// Computes the payouts that resolve `wager` in favour of the option
/// `winning_option_id`: every bet on that option receives its stake times the
/// ratio of the pool to the option's total stake, rounded down.
pub fn plan_payouts(wager: &Wager, winning_option_id: &String) -> (r: Result<Vec<Payout>, SettlementError>)
    ensures
        plan_view(r) == planned_payouts(wager@, winning_option_id@),
{
    let ghost w = wager@;
    let ghost id = winning_option_id@;
    let found = find_option(&wager.options, winning_option_id);
    let idx = match found {
        Some(i) => i,
        None => {
            return Err(SettlementError::OptionNotFound);
        },
    };
    proof {
        lemma_first_of(w.options, option_with_id(id), idx as int);
        lemma_option_within_staked(w.options, idx as int);
        lemma_staked_nonneg(w.options);
    }
    let winners = &wager.options[idx].bets;
    let ghost wb = bets_view(winners@);
    let winning_stake: u64 = match stake_of(winners) {
        Some(t) => {
            if t == 0 {
                return Err(SettlementError::NoStakeOnWinner);
            }
            t
        },
        None => {
            return Err(SettlementError::AmountOverflow);
        },
    };
    let pool: u64 = match pool_of(wager) {
        Some(p) => p,
        None => {
            return Err(SettlementError::AmountOverflow);
        },
    };
    let mut payouts: Vec<Payout> = Vec::new();
    let mut j: usize = 0;
    while j < winners.len()
        invariant
            j <= winners@.len(),
            wb == bets_view(winners@),
            wb == winning_option(w, id).bets,
            winning_stake == stake_total(wb),
            winning_stake > 0,
            pool == pool_total(w),
            payouts@.len() == j,
            forall|k: int|
                0 <= k < j ==> (#[trigger] payouts@[k])@ == (PayoutView {
                    user_id: wb[k].user_id,
                    amount: payout_amount(wb[k].val, pool as int, winning_stake as int),
                }),
        decreases winners@.len() - j,
    {
        let bet = &winners[j];
        proof {
            lemma_bet_within_stake(wb, j as int);
            assert(bet.val * pool <= u64::MAX * u64::MAX) by (nonlinear_arith)
                requires
                    bet.val <= u64::MAX,
                    pool <= u64::MAX,
            ;
        }
        let wide: u128 = bet.val as u128 * pool as u128;
        let amount: u128 = wide / winning_stake as u128;
        proof {
            assert(bet.val * pool <= winning_stake * pool) by (nonlinear_arith)
                requires
                    bet.val <= winning_stake,
            ;
            assert((bet.val * pool) / (winning_stake as int) <= pool) by (nonlinear_arith)
                requires
                    bet.val * pool <= winning_stake * pool,
                    winning_stake > 0,
            ;
        }
        payouts.push(Payout { user_id: bet.user_id.clone(), amount: amount as u64 });
        j += 1;
    }
    assert(payouts_view(payouts@) =~= wb.map_values(
        |b: BetView|
            PayoutView {
                user_id: b.user_id,
                amount: payout_amount(b.val, pool_total(w), stake_total(wb)),
            },
    ));
    Ok(payouts)
}

/// A resolution under way: its payouts, and how many of them the store has made.
pub struct Resolution {
    payouts: Vec<Payout>,
    paid: usize,
}

/// What the settlement task does next for a resolution.
pub enum ResolutionStep {
    /// Ask the store to make this payout, and report whether it did.
    Pay(Payout),
    /// The resolution is over, with this outcome.
    Finished(Result<(), SettlementError>),
}

pub struct ResolutionView {
    pub payouts: Seq<PayoutView>,
    pub paid: int,
}

impl View for Resolution {
    type V = ResolutionView;

    closed spec fn view(&self) -> ResolutionView {
        ResolutionView { payouts: payouts_view(self.payouts@), paid: self.paid as int }
    }
}

impl Resolution {
    pub closed spec fn wf(&self) -> bool {
        self.paid <= self.payouts@.len()
    }

    /// Starts resolving the wager that the store returned (`None` where it
    /// has none of the requested identifier) in favour of `winning_option_id`.
    pub fn start(wager: Option<Wager>, winning_option_id: &String) -> (r: Result<Resolution, SettlementError>)
        ensures
            match wager {
                None => r == Err::<Resolution, SettlementError>(SettlementError::WagerNotFound),
                Some(w) => match planned_payouts(w@, winning_option_id@) {
                    Ok(ps) => r matches Ok(res) && res.wf() && res@.payouts == ps && res@.paid == 0,
                    Err(e) => r == Err::<Resolution, SettlementError>(e),
                },
            },
    {
        match wager {
            None => Err(SettlementError::WagerNotFound),
            Some(w) => match plan_payouts(&w, winning_option_id) {
                Ok(payouts) => Ok(Resolution { payouts, paid: 0 }),
                Err(e) => Err(e),
            },
        }
    }

    /// The next payout to make, or the end of a resolution whose payouts were all made.
    pub fn next_step(&self) -> (r: ResolutionStep)
        requires
            self.wf(),
        ensures
            self@.paid < self@.payouts.len() ==> (r matches ResolutionStep::Pay(p) && p@ == self@.payouts[self@.paid]),
            self@.paid >= self@.payouts.len() ==> r matches ResolutionStep::Finished(Ok(())),
    {
        if self.paid < self.payouts.len() {
            let p = &self.payouts[self.paid];
            ResolutionStep::Pay(Payout { user_id: p.user_id.clone(), amount: p.amount })
        } else {
            ResolutionStep::Finished(Ok(()))
        }
    }

    /// Records whether the store made the payout that `next_step` asked for.
    /// A refused payout ends the resolution; those made before it stay made.
    pub fn record_payout(&mut self, made: bool) -> (r: Option<SettlementError>)
        requires
            old(self).wf(),
            old(self)@.paid < old(self)@.payouts.len(),
        ensures
            final(self).wf(),
            final(self)@.payouts == old(self)@.payouts,
            made ==> r is None && final(self)@.paid == old(self)@.paid + 1,
            !made ==> r == Some(SettlementError::PayoutFailed) && final(self)@.paid == old(self)@.paid,
    {
        let n = self.payouts.len();
        assert(self.paid < n);
        if made {
            self.paid = self.paid + 1;
            None
        } else {
            Some(SettlementError::PayoutFailed)
        }
    }
}

} // verus!
