use vstd::prelude::*;

verus! {

/// What the fruiting trigger decided on one attempt: whether to spawn a fruit
/// body (and whether as a fallback spawn, which also enriches the site), and
/// the failed-attempt count to record if no body ends up spawned.
#[derive(Clone, Copy, Debug, PartialEq, Eq, Structural)]
pub struct FruitingPlan {
    pub spawn: Option<bool>,
    pub attempts: Option<u32>,
}

/// The failed-attempt count after one more failure, saturating at `u32::MAX`.
pub open spec fn bumped(failed: u32) -> u32 {
    if failed == u32::MAX {
        u32::MAX
    } else {
        (failed + 1) as u32
    }
}

/// The decision of one fruiting attempt, given the failed attempts so far,
/// how many failures make a fallback spawn due (`limit`), whether the chosen
/// site qualifies (its nutrient clears the spawn threshold, or the relaxed
/// one with a lucky draw), and whether the network is large or rich enough
/// for a fallback spawn.
pub open spec fn plan_spec(failed: u32, limit: u32, site_ok: bool, fallback_allowed: bool) -> FruitingPlan {
    if site_ok {
        FruitingPlan { spawn: Some(false), attempts: None }
    } else {
        let attempts = bumped(failed);
        let cap: u32 = if limit >= 1 {
            limit
        } else {
            1
        };
        FruitingPlan {
            spawn: if attempts >= limit && fallback_allowed {
                Some(true)
            } else {
                None
            },
            attempts: Some(
                if attempts <= cap {
                    attempts
                } else {
                    cap
                },
            ),
        }
    }
}

/// Decides one fruiting attempt (see `plan_spec`).
pub fn plan_fruiting(failed: u32, limit: u32, site_ok: bool, fallback_allowed: bool) -> (r: FruitingPlan)
    ensures
        r == plan_spec(failed, limit, site_ok, fallback_allowed),
{
    if site_ok {
        return FruitingPlan { spawn: Some(false), attempts: None };
    }
    let attempts = failed.saturating_add(1);
    let cap: u32 = if limit >= 1 { limit } else { 1 };
    let spawn = if attempts >= limit && fallback_allowed { Some(true) } else { None };
    FruitingPlan { spawn, attempts: Some(if attempts <= cap { attempts } else { cap }) }
}

/// Whether the relaxed-threshold draw is needed: only when the site misses
/// the spawn threshold but clears the relaxed one.
pub fn needs_luck(meets_threshold: bool, meets_relaxed: bool) -> (r: bool)
    ensures
        r == (!meets_threshold && meets_relaxed),
{
    !meets_threshold && meets_relaxed
}

/// The failed-attempt count after an attempt: reset when a body was spawned,
/// else the planned count, else unchanged.
pub fn settle_attempts(failed: u32, plan: FruitingPlan, spawned: bool) -> (r: u32)
    ensures
        spawned ==> r == 0,
        !spawned && plan.attempts is Some ==> r == plan.attempts->0,
        !spawned && plan.attempts is None ==> r == failed,
{
    if spawned {
        0
    } else {
        match plan.attempts {
            Some(a) => a,
            None => failed,
        }
    }
}

} // verus!
