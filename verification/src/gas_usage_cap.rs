//! A cap on the gas a sponsor spends per local day.

use vstd::prelude::*;
use crate::clock::local_today;

verus! {

#[derive(Clone, Copy, Debug, PartialEq, Eq, Structural)]
pub enum GasUsageError {
    /// The gas used today has reached the daily cap.
    ExceedsDailyCap,
}

/// The cap, as specification: the cap, the gas used on the current day, and
/// that day (in days since the first day of the common era).
pub struct GasUsageView {
    pub daily_cap: u64,
    pub cur_daily_usage: i64,
    pub cur_date: i32,
}

impl GasUsageView {
    /// The usage counted on `today`: a new day starts from zero.
    pub open spec fn usage_on(self, today: i32) -> i64 {
        if self.cur_date != today { 0 } else { self.cur_daily_usage }
    }

    /// Whether the usage counted on `today` has reached the cap. The cap is
    /// compared as a signed number, as `daily_cap as i64`.
    pub open spec fn exceeded_on(self, today: i32) -> bool {
        self.usage_on(today) >= self.daily_cap as i64
    }
}

pub struct GasUsageCap {
    daily_cap: u64,
    cur_daily_usage: i64,
    cur_date: i32,
}

impl View for GasUsageCap {
    type V = GasUsageView;

    closed spec fn view(&self) -> GasUsageView {
        GasUsageView { daily_cap: self.daily_cap, cur_daily_usage: self.cur_daily_usage, cur_date: self.cur_date }
    }
}

impl GasUsageCap {
    /// A cap of `daily_cap` with nothing used on `today`.
    pub fn new_on(daily_cap: u64, today: i32) -> (r: Self)
        ensures
            r@ == (GasUsageView { daily_cap, cur_daily_usage: 0, cur_date: today }),
    {
        GasUsageCap { daily_cap, cur_daily_usage: 0, cur_date: today }
    }

    /// A cap of `daily_cap` with nothing used today, by the local date.
    pub fn new(daily_cap: u64) -> (r: Self)
        ensures
            r@.daily_cap == daily_cap,
            r@.cur_daily_usage == 0,
    {
        Self::new_on(daily_cap, local_today())
    }

    /// The daily cap.
    pub fn daily_cap(&self) -> (r: u64)
        ensures
            r == self@.daily_cap,
    {
        self.daily_cap
    }

    /// The gas used on the current day.
    pub fn cur_daily_usage(&self) -> (r: i64)
        ensures
            r == self@.cur_daily_usage,
    {
        self.cur_daily_usage
    }

    /// Starts a new day when `today` is not the current day.
    fn reset_date_maybe(&mut self, today: i32)
        ensures
            final(self)@ == (GasUsageView { daily_cap: old(self)@.daily_cap, cur_daily_usage: old(self)@.usage_on(today), cur_date: today }),
    {
        if self.cur_date != today {
            self.cur_date = today;
            self.cur_daily_usage = 0;
        }
    }

    /// Refuses when the gas used on `today` has reached the daily cap.
    pub fn check_usage_on(&mut self, today: i32) -> (r: Result<(), GasUsageError>)
        ensures
            final(self)@ == (GasUsageView { daily_cap: old(self)@.daily_cap, cur_daily_usage: old(self)@.usage_on(today), cur_date: today }),
            r is Err <==> old(self)@.exceeded_on(today),
    {
        self.reset_date_maybe(today);
        if self.cur_daily_usage >= self.daily_cap as i64 {
            return Err(GasUsageError::ExceedsDailyCap);
        }
        Ok(())
    }

    /// Refuses when the gas used today, by the local date, has reached the
    /// daily cap.
    pub fn check_usage(&mut self) -> (r: Result<(), GasUsageError>)
        ensures
            exists|today: i32| {
                &&& final(self)@ == (GasUsageView { daily_cap: old(self)@.daily_cap, cur_daily_usage: old(self)@.usage_on(today), cur_date: today })
                &&& (r is Err <==> #[trigger] old(self)@.exceeded_on(today))
            },
    {
        let today = local_today();
        self.check_usage_on(today)
    }

    /// Adds `usage` to the gas used on `today` and gives the new total.
    pub fn update_usage_on(&mut self, usage: i64, today: i32) -> (r: i64)
        requires
            i64::MIN <= old(self)@.usage_on(today) + usage <= i64::MAX,
        ensures
            r == old(self)@.usage_on(today) + usage,
            final(self)@ == (GasUsageView { daily_cap: old(self)@.daily_cap, cur_daily_usage: r, cur_date: today }),
    {
        self.reset_date_maybe(today);
        self.cur_daily_usage = self.cur_daily_usage + usage;
        self.cur_daily_usage
    }

    /// Adds `usage` to the gas used today, by the local date, and gives the
    /// new total. The date is read here, so the sum must fit on whatever day
    /// it is.
    pub fn update_usage(&mut self, usage: i64) -> (r: i64)
        requires
            forall|today: i32| i64::MIN <= #[trigger] old(self)@.usage_on(today) + usage <= i64::MAX,
        ensures
            exists|today: i32| {
                &&& r == #[trigger] old(self)@.usage_on(today) + usage
                &&& final(self)@ == (GasUsageView { daily_cap: old(self)@.daily_cap, cur_daily_usage: r, cur_date: today })
            },
    {
        let today = local_today();
        self.update_usage_on(usage, today)
    }
}

/// A day's usage starts from zero: on a day other than the current one, the
/// cap refuses only when it is zero or, read as a signed number, negative.
pub proof fn law_new_day_resets_usage(v: GasUsageView, today: i32)
    requires
        v.cur_date != today,
    ensures
        v.usage_on(today) == 0,
        v.exceeded_on(today) <==> (v.daily_cap as i64) <= 0,
{
}

/// Usage adds up within a day: after adding `a` then `b` on the same day, the
/// usage counted is the day's usage plus `a + b`, and the cap is checked against it.
pub proof fn law_usage_accumulates(v: GasUsageView, today: i32, a: i64, b: i64)
    requires
        i64::MIN <= v.usage_on(today) + a <= i64::MAX,
        i64::MIN <= v.usage_on(today) + a + b <= i64::MAX,
    ensures
        ({
            let v1 = GasUsageView { daily_cap: v.daily_cap, cur_daily_usage: (v.usage_on(today) + a) as i64, cur_date: today };
            let v2 = GasUsageView { daily_cap: v.daily_cap, cur_daily_usage: (v1.usage_on(today) + b) as i64, cur_date: today };
            &&& v2.usage_on(today) == v.usage_on(today) + a + b
            &&& v2.exceeded_on(today) <==> v.usage_on(today) + a + b >= v.daily_cap as i64
        }),
{
}

} // verus!
