//! How a cooldown runs down, and what a lockout file may hold.
use crate::lockout::{
    clean, cooldown_left, cooldown_ms, cooldowns_grow, decision, failed, recorded, state_bytes,
    LockoutPolicy, LockoutState,
};
use vstd::arithmetic::power2::*;
use vstd::prelude::*;

verus! {

/// A cooldown runs down with the clock: what is left after a while is what was left less that
/// while, and nothing once that is all.
pub proof fn cooldowns_run_down(
    state: LockoutState,
    policy: LockoutPolicy,
    now_ms: u64,
    while_ms: u64,
)
    requires
        state.last_failure_unix_ms <= now_ms,
        now_ms + while_ms <= u64::MAX,
    ensures
        ({
            let later_ms = (now_ms + while_ms) as u64;
            match cooldown_left(state, policy, now_ms) {
                Some(left) => if while_ms < left {
                    cooldown_left(state, policy, later_ms) == Some((left - while_ms) as u64)
                } else {
                    cooldown_left(state, policy, later_ms) is None
                },
                None => cooldown_left(state, policy, later_ms) is None,
            }
        }),
{
    lemma_cooldown_fits(state.failures, policy);
}

proof fn lemma_cooldown_fits(failures: u32, policy: LockoutPolicy)
    ensures
        failures >= policy.threshold ==> 0 <= cooldown_ms(failures, policy) <= policy.max_delay_ms,
{
    if failures >= policy.threshold {
        cooldowns_grow(policy, failures, failures);
        cooldowns_grow(policy, policy.threshold, failures);
    }
}

/// Right after a failure at the threshold or past it, the whole cooldown is left, also while the
/// clock shows a time before the failure.
pub proof fn cooldowns_start_whole(state: LockoutState, policy: LockoutPolicy, now_ms: u64)
    requires
        policy.threshold <= state.failures,
        now_ms <= state.last_failure_unix_ms,
    ensures
        cooldown_left(state, policy, now_ms) matches Some(left) ==> left == cooldown_ms(
            state.failures,
            policy,
        ),
        cooldown_left(state, policy, now_ms) is None ==> cooldown_ms(state.failures, policy) == 0,
        cooldown_left(state, policy, now_ms) == cooldown_left(
            state,
            policy,
            state.last_failure_unix_ms,
        ),
{
    lemma_cooldown_fits(state.failures, policy);
}

/// Each failure past the threshold doubles the cooldown up to the ceiling, for twenty failures;
/// after that it stays.
pub proof fn cooldowns_double(policy: LockoutPolicy, failures: u32)
    requires
        policy.threshold <= failures < u32::MAX,
    ensures
        ({
            let next = cooldown_ms((failures + 1) as u32, policy);
            let doubled = 2 * cooldown_ms(failures, policy);
            if failures - policy.threshold >= 20 {
                next == cooldown_ms(failures, policy)
            } else if doubled < policy.max_delay_ms {
                next == doubled
            } else {
                next == policy.max_delay_ms
            }
        }),
{
    let past = failures - policy.threshold;
    if past < 20 {
        lemma_pow2_unfold((past + 1) as nat);
        let p = pow2(past as nat);
        let b = policy.base_delay_ms;
        assert(b * (2 * p) == 2 * (b * p)) by (nonlinear_arith);
        assert(0 <= b * p) by (nonlinear_arith);
    }
}

/// A refused attempt is told the failures and the rest of the cooldown, and sleeps for the
/// shorter of that rest and the policy's tarpit; whoever is not in a cooldown is not refused.
pub proof fn refusals_tell_what_is_left(state: LockoutState, policy: LockoutPolicy, now_ms: u64)
    ensures
        decision(state, policy, now_ms) is Some <==> cooldown_left(state, policy, now_ms) is Some,
        decision(state, policy, now_ms) matches Some(l) ==> {
            &&& l.failures == state.failures
            &&& cooldown_left(state, policy, now_ms) == Some(l.remaining_ms)
            &&& l.tarpit_ms == l.remaining_ms || l.tarpit_ms == policy.max_tarpit_ms
            &&& l.tarpit_ms <= l.remaining_ms
            &&& l.tarpit_ms <= policy.max_tarpit_ms
        },
{
}

/// A failure adds one to the count, which never wraps around, and moves the time; everything
/// else that the file held is forgotten.
pub proof fn failures_count_up(state: LockoutState, now_ms: u64)
    ensures
        failed(state, now_ms).last_failure_unix_ms == now_ms,
        failed(state, now_ms).failures > state.failures || failed(state, now_ms).failures
            == u32::MAX,
        failed(state, now_ms).failures <= state.failures + 1,
{
}

/// A lockout file has 16 bytes: the number 1, the failures and the time, each with its lowest
/// byte first.
pub proof fn lockout_files_have_sixteen_bytes(state: LockoutState)
    ensures
        ({
            let b = state_bytes(state);
            &&& b.len() == 16
            &&& b[0] == 1 && b[1] == 0 && b[2] == 0 && b[3] == 0
            &&& b[4] + 0x100 * b[5] + 0x1_0000 * b[6] + 0x100_0000 * b[7] == state.failures
            &&& b[8] + 0x100 * b[9] + 0x1_0000 * b[10] + 0x100_0000 * b[11] + 0x1_0000_0000 * (b[12]
                + 0x100 * b[13] + 0x1_0000 * b[14] + 0x100_0000 * b[15])
                == state.last_failure_unix_ms
        }),
{
}

/// A file that is missing, shorter than 16 bytes or begins with another number than 1 says that
/// there were no failures. What follows the first 16 bytes of a file does not matter.
pub proof fn other_files_say_nothing(bytes: Seq<u8>, rest: Seq<u8>)
    ensures
        recorded(None) == clean(),
        recorded(None).failures == 0,
        bytes.len() < 16 ==> recorded(Some(bytes)) == clean(),
        bytes.len() >= 16 && !(bytes[0] == 1 && bytes[1] == 0 && bytes[2] == 0 && bytes[3] == 0)
            ==> recorded(Some(bytes)) == clean(),
        bytes.len() >= 16 && bytes[0] == 1 && bytes[1] == 0 && bytes[2] == 0 && bytes[3] == 0
            ==> recorded(Some(bytes)).failures == bytes[4] + 0x100 * bytes[5] + 0x1_0000 * bytes[6]
            + 0x100_0000 * bytes[7],
        bytes.len() >= 16 ==> recorded(Some(bytes + rest)) == recorded(Some(bytes)),
{
}

} // verus!
