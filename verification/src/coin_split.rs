//! The arithmetic of splitting large gas coins into coins of about a target
//! balance.
//!
//! A coin is split by one transaction that creates `split_count - 1` new
//! coins of equal balance and keeps the rest, less the gas spent, in the coin
//! itself. Coins that are still large are split again.

use vstd::prelude::*;
use crate::base_types::{GasCoin, ObjectRef};
use crate::gas_store::balance_sum;

verus! {

/// A coin whose balance is above the target balance times this factor is
/// taken as a new coin, to be split.
pub const NEW_COIN_BALANCE_FACTOR_THRESHOLD: u64 = 200;

/// The most coins one split makes: a transaction mutates at most 2048 objects.
pub const MAX_SPLIT_COUNT: u64 = 2000;

/// The balance above which a sponsor's coins are split: every coin on the
/// first run, and new coins afterwards.
pub open spec fn spec_balance_threshold(target_init_balance: u64, force_init: bool) -> int {
    if force_init { 0 } else { target_init_balance * NEW_COIN_BALANCE_FACTOR_THRESHOLD }
}

/// The balance above which coins are split.
pub fn balance_threshold(target_init_balance: u64, force_init: bool) -> (r: u64)
    requires
        force_init || target_init_balance * NEW_COIN_BALANCE_FACTOR_THRESHOLD <= u64::MAX,
    ensures
        r == spec_balance_threshold(target_init_balance, force_init),
{
    if force_init {
        0
    } else {
        target_init_balance * NEW_COIN_BALANCE_FACTOR_THRESHOLD
    }
}

/// How to split one coin.
#[derive(Clone, Copy, Debug, PartialEq, Eq, Structural)]
pub struct SplitPlan {
    /// How many coins the split leaves, the coin itself included.
    pub split_count: u64,
    /// The gas budget of the split transaction.
    pub budget: u64,
}

/// What a split gives: coins to keep, and coins large enough to split again.
pub struct SplitOutcome {
    pub kept: Vec<GasCoin>,
    pub to_split: Vec<GasCoin>,
}

/// The parameters of splitting: the balance aimed at and the gas one new coin
/// costs.
#[derive(Clone, Copy, Debug, PartialEq, Eq, Structural)]
pub struct CoinSplitEnv {
    pub target_init_coin_balance: u64,
    pub gas_cost_per_object: u64,
}

impl CoinSplitEnv {
    /// The cost and balance of one new coin.
    pub open spec fn unit(self) -> int {
        self.gas_cost_per_object + self.target_init_coin_balance
    }

    /// A coin is split when its balance is more than two units.
    pub open spec fn spec_needs_split(self, balance: u64) -> bool {
        balance > 2 * self.unit()
    }

    /// The number of coins a split of `balance` leaves: as many units as the
    /// balance holds, at most `MAX_SPLIT_COUNT`.
    pub open spec fn spec_split_count(self, balance: u64) -> int {
        let n = balance as int / self.unit();
        if n < MAX_SPLIT_COUNT { n } else { MAX_SPLIT_COUNT as int }
    }

    /// Whether a coin is split further rather than kept: its balance is more
    /// than two units.
    pub fn needs_split(&self, coin: &GasCoin) -> (r: bool)
        ensures
            r == self.spec_needs_split(coin.balance),
    {
        let unit: u128 = self.gas_cost_per_object as u128 + self.target_init_coin_balance as u128;
        coin.balance as u128 > unit * 2
    }

    /// How to split a coin of `balance`: into as many units as it holds (at
    /// most `MAX_SPLIT_COUNT`), with a budget of the gas cost of each.
    pub fn split_plan(&self, balance: u64) -> (r: SplitPlan)
        requires
            self.unit() > 0,
            self.spec_needs_split(balance),
        ensures
            r.split_count == self.spec_split_count(balance),
            r.budget == self.gas_cost_per_object * r.split_count,
            2 <= r.split_count <= MAX_SPLIT_COUNT,
            r.budget <= balance,
    {
        let unit: u128 = self.gas_cost_per_object as u128 + self.target_init_coin_balance as u128;
        let n: u128 = balance as u128 / unit;
        let split_count: u64 = if n < MAX_SPLIT_COUNT as u128 { n as u64 } else { MAX_SPLIT_COUNT };
        proof {
            let u = self.unit();
            let b = balance as int;
            assert(u > 0);
            assert(b / u >= 2) by (nonlinear_arith)
                requires
                    u > 0,
                    b > 2 * u,
            ;
            assert(split_count * u <= b) by (nonlinear_arith)
                requires
                    u > 0,
                    split_count <= b / u,
                    b >= 0,
            ;
            assert(self.gas_cost_per_object * split_count <= split_count * u) by (nonlinear_arith)
                requires
                    u == self.gas_cost_per_object + self.target_init_coin_balance,
                    split_count >= 0,
                    self.target_init_coin_balance >= 0,
            ;
        }
        let budget: u64 = self.gas_cost_per_object * split_count;
        SplitPlan { split_count, budget }
    }

    /// The balance of each new coin when a coin of `balance` (read again after
    /// any retry) is split by `plan`.
    pub fn new_coin_balance(&self, plan: &SplitPlan, balance: u64) -> (r: u64)
        requires
            plan.split_count > 0,
            plan.budget <= balance,
        ensures
            r == (balance - plan.budget) / (plan.split_count as int),
    {
        (balance - plan.budget) / plan.split_count
    }

    /// The balance left in the split coin itself: what the new coins did not
    /// take, less the net gas the split used. It is computed as a signed
    /// number and read back as unsigned; nothing is given when the signed
    /// subtraction overflows.
    pub fn remaining_coin_balance(&self, plan: &SplitPlan, balance: u64, new_balance: u64, net_gas_usage: i64) -> (r: Option<u64>)
        requires
            plan.split_count > 0,
            new_balance * (plan.split_count - 1) <= balance,
        ensures
            i64::MIN <= ((balance - new_balance * (plan.split_count - 1)) as i64) - net_gas_usage <= i64::MAX
                ==> r == Some(((((balance - new_balance * (plan.split_count - 1)) as i64) - net_gas_usage) as i64) as u64),
            !(i64::MIN <= ((balance - new_balance * (plan.split_count - 1)) as i64) - net_gas_usage <= i64::MAX)
                ==> r is None,
    {
        let kept: u64 = balance - new_balance * (plan.split_count - 1);
        match (kept as i64).checked_sub(net_gas_usage) {
            Some(signed) => Some(signed as u64),
            None => None,
        }
    }

    /// The coins a split gives: a coin of `new_balance` for each created
    /// object, then the split coin with `remaining` balance; each is kept
    /// unless it is large enough to split again.
    pub fn split_results(&self, created: &[ObjectRef], new_balance: u64, gas_object: ObjectRef, remaining: u64)
        -> (r: SplitOutcome)
        ensures
            r.kept@.len() + r.to_split@.len() == created@.len() + 1,
            forall|i: int| 0 <= i < r.kept@.len() ==> !self.spec_needs_split((#[trigger] r.kept@[i]).balance),
            forall|i: int| 0 <= i < r.to_split@.len() ==> self.spec_needs_split((#[trigger] r.to_split@[i]).balance),
            r.kept@ == split_coins(created@, new_balance, gas_object, remaining).filter(|c: GasCoin| !self.spec_needs_split(c.balance)),
            r.to_split@ == split_coins(created@, new_balance, gas_object, remaining).filter(|c: GasCoin| self.spec_needs_split(c.balance)),
    {
        let ghost all = split_coins(created@, new_balance, gas_object, remaining);
        let mut kept: Vec<GasCoin> = Vec::new();
        let mut to_split: Vec<GasCoin> = Vec::new();
        let mut i: usize = 0;
        while i < created.len()
            invariant
                i <= created@.len(),
                all == split_coins(created@, new_balance, gas_object, remaining),
                all.len() == created@.len() + 1,
                kept@ == all.take(i as int).filter(|c: GasCoin| !self.spec_needs_split(c.balance)),
                to_split@ == all.take(i as int).filter(|c: GasCoin| self.spec_needs_split(c.balance)),
                kept@.len() + to_split@.len() == i,
            decreases created.len() - i,
        {
            let coin = GasCoin { object_ref: created[i], balance: new_balance };
            self.sort_coin(coin, &mut kept, &mut to_split, Ghost(all), Ghost(i as int));
            i = i + 1;
        }
        let coin = GasCoin { object_ref: gas_object, balance: remaining };
        self.sort_coin(coin, &mut kept, &mut to_split, Ghost(all), Ghost(i as int));
        proof {
            assert(all.take(i as int + 1) =~= all);
            assert forall|k: int| 0 <= k < kept@.len() implies !self.spec_needs_split((#[trigger] kept@[k]).balance) by {
                all.filter_lemma(|c: GasCoin| !self.spec_needs_split(c.balance));
            }
            assert forall|k: int| 0 <= k < to_split@.len() implies self.spec_needs_split((#[trigger] to_split@[k]).balance) by {
                all.filter_lemma(|c: GasCoin| self.spec_needs_split(c.balance));
            }
        }
        SplitOutcome { kept, to_split }
    }
}

impl CoinSplitEnv {
    /// Puts `coin`, the coin at index `i` of `all`, with the kept coins or with
    /// those to split again.
    fn sort_coin(&self, coin: GasCoin, kept: &mut Vec<GasCoin>, to_split: &mut Vec<GasCoin>, Ghost(all): Ghost<Seq<GasCoin>>, Ghost(i): Ghost<int>)
        requires
            0 <= i < all.len(),
            all[i] == coin,
            old(kept)@ == all.take(i).filter(|c: GasCoin| !self.spec_needs_split(c.balance)),
            old(to_split)@ == all.take(i).filter(|c: GasCoin| self.spec_needs_split(c.balance)),
            old(kept)@.len() + old(to_split)@.len() == i,
        ensures
            final(kept)@ == all.take(i + 1).filter(|c: GasCoin| !self.spec_needs_split(c.balance)),
            final(to_split)@ == all.take(i + 1).filter(|c: GasCoin| self.spec_needs_split(c.balance)),
            final(kept)@.len() + final(to_split)@.len() == i + 1,
    {
        proof {
            assert(all.take(i + 1).drop_last() =~= all.take(i));
            assert(all.take(i + 1).last() == coin);
            reveal(Seq::filter);
        }
        if self.needs_split(&coin) {
            to_split.push(coin);
        } else {
            kept.push(coin);
        }
    }
}

/// The coins a split leaves: a coin of `new_balance` for each created object,
/// then the split coin with `remaining` balance.
pub open spec fn split_coins(created: Seq<ObjectRef>, new_balance: u64, gas_object: ObjectRef, remaining: u64) -> Seq<GasCoin> {
    new_coins(created, new_balance).push(GasCoin { object_ref: gas_object, balance: remaining })
}

/// A coin of `new_balance` for each created object.
pub open spec fn new_coins(created: Seq<ObjectRef>, new_balance: u64) -> Seq<GasCoin> {
    created.map_values(|r: ObjectRef| GasCoin { object_ref: r, balance: new_balance })
}

proof fn lemma_sum_of_equal(created: Seq<ObjectRef>, new_balance: u64)
    ensures
        balance_sum(new_coins(created, new_balance)) == created.len() * new_balance,
    decreases created.len(),
{
    if created.len() > 0 {
        let d = created.drop_last();
        lemma_sum_of_equal(d, new_balance);
        let s = new_coins(created, new_balance);
        assert(s.drop_last() =~= new_coins(d, new_balance));
        assert(s.last().balance == new_balance);
        assert(balance_sum(s) == balance_sum(s.drop_last()) + s.last().balance);
        assert(d.len() * new_balance + new_balance == created.len() * new_balance) by (nonlinear_arith)
            requires
                d.len() + 1 == created.len(),
        ;
    } else {
        assert(new_coins(created, new_balance).len() == 0);
        assert(created.len() * new_balance == 0) by (nonlinear_arith)
            requires
                created.len() == 0,
        ;
    }
}

/// Splitting yields coins of at least the target balance: each new coin of a
/// split planned by `split_plan` gets at least `target_init_coin_balance`.
pub proof fn law_split_coins_reach_target(env: CoinSplitEnv, balance: u64, split_count: u64)
    requires
        env.unit() > 0,
        env.spec_needs_split(balance),
        split_count == env.spec_split_count(balance),
    ensures
        split_count > 0,
        env.gas_cost_per_object * split_count <= balance,
        (balance - env.gas_cost_per_object * split_count) / (split_count as int) >= env.target_init_coin_balance,
{
    let u = env.unit();
    let b = balance as int;
    let g = env.gas_cost_per_object as int;
    let t = env.target_init_coin_balance as int;
    let n = split_count as int;
    assert(b / u >= 2) by (nonlinear_arith)
        requires
            u > 0,
            b > 2 * u,
    ;
    assert(n * u <= b) by (nonlinear_arith)
        requires
            u > 0,
            n <= b / u,
            b >= 0,
    ;
    assert(g * n <= n * u) by (nonlinear_arith)
        requires
            u == g + t,
            n >= 0,
            t >= 0,
    ;
    assert((b - g * n) / n >= t) by (nonlinear_arith)
        requires
            n > 0,
            n * u <= b,
            u == g + t,
            g >= 0,
            t >= 0,
    ;
}

/// A split spends exactly its net gas: when the split coin keeps what the
/// `split_count - 1` new coins do not take, less the net gas used (and that
/// is neither negative nor beyond a signed 64-bit number), the coins a split
/// leaves hold the coin's balance less the net gas used.
pub proof fn law_split_conserves_balance(
    env: CoinSplitEnv,
    created: Seq<ObjectRef>,
    balance: u64,
    new_balance: u64,
    gas_object: ObjectRef,
    net_gas_usage: i64,
)
    requires
        new_balance * created.len() <= balance,
        0 <= balance - new_balance * created.len() - net_gas_usage,
        balance - new_balance * created.len() <= i64::MAX,
        balance - new_balance * created.len() - net_gas_usage <= i64::MAX,
    ensures
        balance_sum(split_coins(created, new_balance, gas_object,
            (((balance - new_balance * created.len()) as i64 - net_gas_usage) as i64) as u64))
            == balance - net_gas_usage,
{
    let x = balance - new_balance * created.len();
    assert((x as i64) as int == x);
    let v = (x as i64) - net_gas_usage;
    assert((v as i64) as int == v);
    assert(((v as i64) as u64) as int == v);
    let remaining = (v as i64) as u64;
    let all = split_coins(created, new_balance, gas_object, remaining);
    lemma_sum_of_equal(created, new_balance);
    assert(all.drop_last() =~= new_coins(created, new_balance));
    assert(created.len() * new_balance == new_balance * created.len()) by (nonlinear_arith);
}

} // verus!
