//! Watches: standing questions with knowledge horizons.
//!
//! A watch names an entity's slot and a threshold — "fire when the
//! entropy of `villa_1.price` exceeds 5 bits". Because erosion is
//! deterministic, absent new evidence the moment a watch will fire is
//! computable in advance: its **knowledge horizon**. This module holds
//! the search for that moment, over any test of "has the threshold been
//! crossed at this time".

use vstd::prelude::*;

verus! {

/// How far ahead the horizon scan looks, in days (10 years). A watch that
/// decay cannot trigger within this window reports no horizon.
pub const DEFAULT_HORIZON_DAYS: u32 = 3650;

/// Seconds per day.
pub const DAY: i64 = 86_400;

/// The scan's next day after `day`: daily for two weeks, weekly to half a
/// year, monthly after that.
pub open spec fn next_scan_day(day: int) -> int {
    day + if day < 14 {
        1int
    } else if day < 182 {
        7int
    } else {
        30int
    }
}

/// The `k`-th day that the horizon scan tests (the first is day 1).
pub open spec fn scan_day(k: nat) -> int
    decreases k,
{
    if k == 0 {
        1
    } else {
        next_scan_day(scan_day((k - 1) as nat))
    }
}

/// The time `d` days after `from`.
pub open spec fn day_time(from: i64, d: int) -> i64 {
    (from + d * 86_400) as i64
}

proof fn lemma_scan_day_grows(j: nat, k: nat)
    requires
        j < k,
    ensures
        scan_day(j) < scan_day(k),
    decreases k,
{
    if j < k - 1 {
        lemma_scan_day_grows(j, (k - 1) as nat);
    }
}

/// Bisection between day `lo`, where the answers `c` say "not crossed",
/// and day `hi`, where they say "crossed": halve the days in between, keep
/// the half whose ends disagree, stop at adjacent days; the day returned is
/// the later one.
pub open spec fn bisect_day(c: spec_fn(i64) -> bool, from: i64, lo: int, hi: int) -> int
    decreases hi - lo,
{
    if hi - lo <= 1 {
        hi
    } else {
        let mid = lo + (hi - lo) / 2;
        if c(day_time(from, mid)) {
            bisect_day(c, from, lo, mid)
        } else {
            bisect_day(c, from, mid, hi)
        }
    }
}

/// The scan from the `k`-th scanned day on, `prev` being the day scanned
/// before it (0 at the start): the first scanned day up to `within` where
/// `c` says "crossed", refined by bisection from `prev`; `None` when there
/// is none.
pub open spec fn scan_from(c: spec_fn(i64) -> bool, from: i64, within: int, k: nat, prev: int) -> Option<i64>
    decreases within + 31 - scan_day(k),
{
    let day = scan_day(k);
    if day > within {
        None
    } else if c(day_time(from, day)) {
        Some(day_time(from, bisect_day(c, from, prev, day)))
    } else {
        proof {
            assert(scan_day(k + 1) == next_scan_day(day));
        }
        scan_from(c, from, within, k + 1, day)
    }
}

/// The knowledge horizon that the answers `c` of a crossing test give:
/// scan, then bisect.
pub open spec fn horizon_of(c: spec_fn(i64) -> bool, from: i64, within: int) -> Option<i64> {
    scan_from(c, from, within, 0, 0)
}

/// The test gives one answer per point in time (whenever it is asked).
pub open spec fn answers_consistently<F: Fn(i64) -> bool>(f: F) -> bool {
    forall|t: i64, a: bool, b: bool|
        #![trigger call_ensures(f, (t,), a), call_ensures(f, (t,), b)]
        call_ensures(f, (t,), a) && call_ensures(f, (t,), b) ==> a == b
}

/// When the threshold is first seen crossed: a forward scan (daily for two
/// weeks, weekly to half a year, monthly to `within_days`), refined by
/// bisection to a day. A plain bisection would assume that crossing is
/// monotone in time; contradicting claims with different half-lives can
/// make entropy dip before it rises, so the scan comes first.
///
/// Returns the time of day `d`, where the test said "crossed" at day `d`,
/// "not crossed" at day `d - 1` (unless `d` is the first day), and "not
/// crossed" at every scanned day before `d`; `d` lies after the last scanned
/// day before the first scanned day that said "crossed", and no later than
/// that day. `None` when every scanned day up to `within_days` said "not
/// crossed". A test that answers consistently gets exactly `horizon_of` its
/// answers.
#[verifier::rlimit(30)]
pub fn horizon<F: Fn(i64) -> bool>(crossed: F, from: i64, within_days: u32) -> (r: Option<i64>)
    requires
        forall|t: i64| call_requires(crossed, (t,)),
        from + within_days * 86_400 <= i64::MAX,
    ensures
        r matches Some(h) ==> exists|d: int|
            #![trigger day_time(from, d)]
            1 <= d <= within_days && h == day_time(from, d) && call_ensures(
                crossed,
                (h,),
                true,
            ) && (d == 1 || call_ensures(crossed, (day_time(from, d - 1),), false)) && (forall|k: nat|
                scan_day(k) < d ==> call_ensures(crossed, (#[trigger] day_time(from, scan_day(k)),), false))
                && exists|k: nat|
                #![trigger scan_day(k)]
                d <= scan_day(k) <= within_days && (k == 0 || scan_day((k - 1) as nat) < d)
                    && call_ensures(crossed, (day_time(from, scan_day(k)),), true),
        r is None ==> forall|k: nat|
            scan_day(k) <= within_days ==> call_ensures(
                crossed,
                (#[trigger] day_time(from, scan_day(k)),),
                false,
            ),
        answers_consistently(crossed) ==> r == horizon_of(
            |t: i64| call_ensures(crossed, (t,), true),
            from,
            within_days as int,
        ),
{
    let ghost c = |t: i64| call_ensures(crossed, (t,), true);
    let within = within_days as i64;
    let mut prev: i64 = 0;
    let mut day: i64 = 1;
    let ghost mut k: nat = 0;
    while day <= within
        invariant
            forall|t: i64| call_requires(crossed, (t,)),
            from + within * 86_400 <= i64::MAX,
            within == within_days,
            day == scan_day(k),
            k == 0 ==> prev == 0,
            k > 0 ==> prev == scan_day((k - 1) as nat),
            0 <= prev < day <= within + 30,
            forall|j: nat| j < k ==> call_ensures(crossed, (#[trigger] day_time(from, scan_day(j)),), false),
            c == (|t: i64| call_ensures(crossed, (t,), true)),
            answers_consistently(crossed) ==> horizon_of(c, from, within as int) == scan_from(
                c,
                from,
                within as int,
                k,
                prev as int,
            ),
        decreases within + 30 - day,
    {
        let t = from + day * DAY;
        assert(t == day_time(from, day as int));
        let ans = crossed(t);
        proof {
            if answers_consistently(crossed) {
                if !ans && c(t) {
                    assert(call_ensures(crossed, (t,), true));
                }
                assert(c(t) == ans);
            }
        }
        if ans {
            let mut lo: i64 = prev;
            let mut hi: i64 = day;
            while hi - lo > 1
                invariant
                    forall|t: i64| call_requires(crossed, (t,)),
                    from + within * 86_400 <= i64::MAX,
                    0 <= prev <= lo < hi <= day <= within,
                    within == within_days,
                    call_ensures(crossed, (day_time(from, hi as int),), true),
                    call_ensures(crossed, (day_time(from, day as int),), true),
                    day == scan_day(k),
                    lo == prev || call_ensures(crossed, (day_time(from, lo as int),), false),
                    k == 0 ==> prev == 0,
                    k > 0 ==> prev == scan_day((k - 1) as nat),
                    c == (|t: i64| call_ensures(crossed, (t,), true)),
                    answers_consistently(crossed) ==> bisect_day(c, from, lo as int, hi as int)
                        == bisect_day(c, from, prev as int, day as int),
                decreases hi - lo,
            {
                let mid = lo + (hi - lo) / 2;
                let tm = from + mid * DAY;
                assert(tm == day_time(from, mid as int));
                let am = crossed(tm);
                proof {
                    if answers_consistently(crossed) {
                        if !am && c(tm) {
                            assert(call_ensures(crossed, (tm,), true));
                        }
                        assert(c(tm) == am);
                    }
                }
                if am {
                    hi = mid;
                } else {
                    lo = mid;
                }
            }
            proof {
                let d = hi as int;
                assert(lo == d - 1);
                if d != 1 && lo == prev {
                    assert(k > 0);
                    assert(call_ensures(crossed, (day_time(from, scan_day((k - 1) as nat)),), false));
                }
                assert forall|j: nat| scan_day(j) < d implies call_ensures(
                    crossed,
                    (#[trigger] day_time(from, scan_day(j)),),
                    false,
                ) by {
                    if j >= k {
                        if j > k {
                            lemma_scan_day_grows(k, j);
                        }
                    }
                }
                assert(1 <= d <= within_days && from + hi * DAY == day_time(from, d));
                assert(d <= scan_day(k) <= within_days && (k == 0 || scan_day((k - 1) as nat) < d));
            }
            return Some(from + hi * DAY);
        }
        prev = day;
        day = day + if day < 14 {
            1
        } else if day < 182 {
            7
        } else {
            30
        };
        proof {
            k = k + 1;
        }
    }
    proof {
        assert forall|j: nat| scan_day(j) <= within_days implies call_ensures(
            crossed,
            (#[trigger] day_time(from, scan_day(j)),),
            false,
        ) by {
            if j >= k {
                if j > k {
                    lemma_scan_day_grows(k, j);
                }
            }
        }
    }
    None
}

/// A change of a watch's state between two evaluations, as pushed to
/// event-stream subscribers.
#[derive(Clone, Copy, Debug, PartialEq, Eq, Structural)]
pub enum Transition {
    /// The watch fires now and did not fire at the last evaluation (or was
    /// not evaluated before).
    Triggered,
    /// The watch fired at the last evaluation and does not fire now.
    Recovered,
}

impl Transition {
    /// The event name of the transition on the stream.
    pub fn event(&self) -> (s: &'static str)
        ensures
            s@ == match self {
                Transition::Triggered => "triggered"@,
                Transition::Recovered => "recovered"@,
            },
    {
        match self {
            Transition::Triggered => "triggered",
            Transition::Recovered => "recovered",
        }
    }
}

/// What a new evaluation of a watch announces, given whether it fired at
/// the last evaluation (`None`: not evaluated before).
pub fn transition(was: Option<bool>, triggered: bool) -> (t: Option<Transition>)
    ensures
        t == (if triggered && was != Some(true) {
            Some(Transition::Triggered)
        } else if !triggered && was == Some(true) {
            Some(Transition::Recovered)
        } else {
            None
        }),
{
    if triggered && was != Some(true) {
        Some(Transition::Triggered)
    } else if !triggered && was == Some(true) {
        Some(Transition::Recovered)
    } else {
        None
    }
}

} // verus!
