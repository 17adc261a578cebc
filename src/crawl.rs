//! Which archives a crawl asks the DWD server for.
use vstd::prelude::*;

verus! {

/// How far back a crawl reaches: 48 hours.
pub const LOOKBACK_SECONDS: i64 = 172800;

/// Archives are published every 15 minutes.
pub const CRAWL_STEP_SECONDS: i64 = 900;

/// The first archive time of a crawl at `now`: 48 hours back, rounded down
/// to a quarter hour.
pub open spec fn crawl_start(now: int) -> int {
    ((now - LOOKBACK_SECONDS) / (CRAWL_STEP_SECONDS as int)) * CRAWL_STEP_SECONDS
}

/// The archive times of a crawl at `now`, UNIX seconds: every quarter hour
/// from the crawl start up to, not including, `now`.
pub fn crawl_times(now: i64) -> (r: Vec<i64>)
    requires
        now >= i64::MIN + LOOKBACK_SECONDS + CRAWL_STEP_SECONDS,
    ensures
        r@.len() > 0,
        forall|i: int|
            0 <= i < r@.len() ==> #[trigger] r@[i] == crawl_start(now as int) + CRAWL_STEP_SECONDS
                * i,
        r@.last() < now,
        crawl_start(now as int) + CRAWL_STEP_SECONDS * r@.len() >= now,
{
    let back = now - LOOKBACK_SECONDS;
    let start = (back / CRAWL_STEP_SECONDS - if back % CRAWL_STEP_SECONDS < 0 {
        1
    } else {
        0
    }) * CRAWL_STEP_SECONDS;
    assert(start == crawl_start(now as int)) by {
        vstd::arithmetic::div_mod::lemma_fundamental_div_mod(back as int, CRAWL_STEP_SECONDS as int);
        vstd::arithmetic::div_mod::lemma_mod_bound(back as int, CRAWL_STEP_SECONDS as int);
        vstd::arithmetic::div_mod::lemma_fundamental_div_mod_converse(
            back as int,
            CRAWL_STEP_SECONDS as int,
            back as int / CRAWL_STEP_SECONDS as int,
            back as int % CRAWL_STEP_SECONDS as int,
        );
    }
    let mut r: Vec<i64> = Vec::new();
    let mut t = start;
    r.push(t);
    while t < now - CRAWL_STEP_SECONDS
        invariant
            start == crawl_start(now as int),
            start <= t < now,
            r@.len() > 0,
            t == start + CRAWL_STEP_SECONDS * (r@.len() - 1),
            forall|i: int| 0 <= i < r@.len() ==> #[trigger] r@[i] == start + CRAWL_STEP_SECONDS * i,
        decreases now - t,
    {
        t = t + CRAWL_STEP_SECONDS;
        r.push(t);
    }
    r
}

} // verus!
