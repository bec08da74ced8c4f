//! Times of day, held as milliseconds since midnight on a 24-hour circle.
use vstd::prelude::*;

verus! {

/// Milliseconds in one day.
pub const MILLIS_PER_DAY: u32 = 86_400_000;

/// A time of day with millisecond resolution. Adding a span wraps around
/// midnight.
#[derive(Clone, Copy, Debug, PartialEq, Eq, Structural)]
pub struct TimeOfDay {
    pub millis: u32,
}

/// The time `x` milliseconds after midnight, taken around the 24-hour circle.
pub open spec fn wrap_day(x: int) -> int {
    x % (MILLIS_PER_DAY as int)
}

impl TimeOfDay {
    pub open spec fn wf(self) -> bool {
        self.millis < MILLIS_PER_DAY
    }

    /// The time `d` milliseconds later, around the 24-hour circle.
    pub open spec fn add_millis_spec(self, d: int) -> TimeOfDay {
        TimeOfDay { millis: wrap_day(self.millis + d) as u32 }
    }

    /// Midnight.
    pub fn midnight() -> (r: TimeOfDay)
        ensures
            r.millis == 0,
    {
        TimeOfDay { millis: 0 }
    }

    /// The time `h:m:s.ms`, or `None` where a component is out of range.
    pub fn from_hms_milli(h: u32, m: u32, s: u32, ms: u32) -> (r: Option<TimeOfDay>)
        ensures
            r.is_some() <==> (h < 24 && m < 60 && s < 60 && ms < 1000),
            r.is_some() ==> r.unwrap().wf() && r.unwrap().millis == ((h * 60 + m) * 60 + s) * 1000
                + ms,
    {
        if h < 24 && m < 60 && s < 60 && ms < 1000 {
            Some(TimeOfDay { millis: ((h * 60 + m) * 60 + s) * 1000 + ms })
        } else {
            None
        }
    }

    /// The time `ms` milliseconds after midnight, or `None` past the day.
    pub fn from_millis(ms: u32) -> (r: Option<TimeOfDay>)
        ensures
            r.is_some() <==> ms < MILLIS_PER_DAY,
            r.is_some() ==> r.unwrap().millis == ms,
    {
        if ms < MILLIS_PER_DAY {
            Some(TimeOfDay { millis: ms })
        } else {
            None
        }
    }

    /// The time `d` milliseconds later (earlier, for negative `d`), around
    /// midnight where it passes it.
    pub fn add_millis(self, d: i64) -> (r: TimeOfDay)
        requires
            self.wf(),
        ensures
            r.wf(),
            r.millis == wrap_day(self.millis + d),
            r == self.add_millis_spec(d as int),
    {
        let day: u64 = MILLIS_PER_DAY as u64;
        if d >= 0 {
            let q: u64 = (d as u64) % day;
            let mut v: u64 = self.millis as u64 + q;
            if v >= day {
                v = v - day;
            }
            assert(v as int == wrap_day(self.millis + d)) by {
                lemma_wrap_shift(self.millis as int, d as int, q as int, v as int);
            }
            TimeOfDay { millis: v as u32 }
        } else {
            let a: u64 = ((-(d + 1)) as u64) + 1;
            let q: u64 = a % day;
            let mut v: u64 = self.millis as u64 + day - q;
            if v >= day {
                v = v - day;
            }
            assert(v as int == wrap_day(self.millis + d)) by {
                lemma_wrap_shift_back(self.millis as int, a as int, q as int, v as int);
            }
            TimeOfDay { millis: v as u32 }
        }
    }

    pub fn hour(self) -> (r: u32)
        ensures
            r == self.millis / 3_600_000,
    {
        self.millis / 3_600_000
    }

    pub fn minute(self) -> (r: u32)
        ensures
            r == (self.millis / 60_000) % 60,
    {
        (self.millis / 60_000) % 60
    }

    pub fn second(self) -> (r: u32)
        ensures
            r == (self.millis / 1000) % 60,
    {
        (self.millis / 1000) % 60
    }

    pub fn millisecond(self) -> (r: u32)
        ensures
            r == self.millis % 1000,
    {
        self.millis % 1000
    }
}

proof fn lemma_wrap_shift(t: int, d: int, q: int, v: int)
    requires
        0 <= t < MILLIS_PER_DAY,
        d >= 0,
        q == d % (MILLIS_PER_DAY as int),
        v == (if t + q >= MILLIS_PER_DAY { t + q - MILLIS_PER_DAY } else { t + q }),
    ensures
        v == wrap_day(t + d),
{
    let n = MILLIS_PER_DAY as int;
    vstd::arithmetic::div_mod::lemma_fundamental_div_mod(d, n);
    let k = d / n;
    assert(t + d == k * n + (t + q));
    vstd::arithmetic::div_mod::lemma_mod_multiples_vanish(k, t + q, n);
    vstd::arithmetic::div_mod::lemma_mod_self_0(n);
    if t + q >= n {
        vstd::arithmetic::div_mod::lemma_mod_sub_multiples_vanish(t + q, n);
        vstd::arithmetic::div_mod::lemma_small_mod((t + q - n) as nat, n as nat);
    } else {
        vstd::arithmetic::div_mod::lemma_small_mod((t + q) as nat, n as nat);
    }
}

proof fn lemma_wrap_shift_back(t: int, a: int, q: int, v: int)
    requires
        0 <= t < MILLIS_PER_DAY,
        a >= 1,
        q == a % (MILLIS_PER_DAY as int),
        v == (if t + MILLIS_PER_DAY - q >= MILLIS_PER_DAY { t - q } else { t + MILLIS_PER_DAY
            - q }),
    ensures
        v == wrap_day(t - a),
{
    let n = MILLIS_PER_DAY as int;
    vstd::arithmetic::div_mod::lemma_fundamental_div_mod(a, n);
    let k = a / n;
    assert(t - a == (-k - 1) * n + (t + n - q)) by (nonlinear_arith)
        requires
            a == n * k + q,
    ;
    vstd::arithmetic::div_mod::lemma_mod_multiples_vanish(-k - 1, t + n - q, n);
    if t + n - q >= n {
        vstd::arithmetic::div_mod::lemma_mod_sub_multiples_vanish(t + n - q, n);
        vstd::arithmetic::div_mod::lemma_small_mod((t - q) as nat, n as nat);
    } else {
        vstd::arithmetic::div_mod::lemma_small_mod((t + n - q) as nat, n as nat);
    }
}

} // verus!
