//! Backoff after repeated face-match failures.
//!
//! Each attempt runs in a process of its own, so the failures are counted in a small file per
//! user. Only the face factor is throttled: a cooldown never stalls the fallback to a
//! password for long, and a missing or damaged file only resets the count.
use crate::codec::{
    read_u32, read_u64, u32_at, u32_bytes, u64_at, u64_bytes, write_u32, write_u64,
    written_u32_reads_back, written_u64_reads_back,
};
use crate::paths::{join_path, joined};
use vstd::arithmetic::mul::*;
use vstd::arithmetic::power2::*;
use vstd::prelude::*;

verus! {

pub const LOCKOUT_VERSION: u32 = 1;

/// The failures of a user since the last success.
#[derive(Debug, Clone, Copy, PartialEq, Eq, Structural)]
pub struct LockoutState {
    pub failures: u32,
    pub last_failure_unix_ms: u64,
}

#[derive(Debug, Clone, Copy, PartialEq, Eq, Structural)]
pub struct LockoutPolicy {
    /// Consecutive failures allowed before any cooldown is applied.
    pub threshold: u32,
    /// Cooldown applied on the first failure past `threshold`; doubles per failure after.
    pub base_delay_ms: u64,
    /// Ceiling on the computed cooldown window.
    pub max_delay_ms: u64,
    /// Ceiling on how long a single attempt sleeps while locked out.
    pub max_tarpit_ms: u64,
}

impl Default for LockoutPolicy {
    fn default() -> (r: LockoutPolicy)
        ensures
            r.threshold == 5,
            r.base_delay_ms == 2_000,
            r.max_delay_ms == 300_000,
            r.max_tarpit_ms == 3_000,
    {
        LockoutPolicy {
            threshold: 5,
            base_delay_ms: 2_000,
            max_delay_ms: 300_000,
            max_tarpit_ms: 3_000,
        }
    }
}

/// No failures.
pub open spec fn clean() -> LockoutState {
    LockoutState { failures: 0, last_failure_unix_ms: 0 }
}

impl Default for LockoutState {
    fn default() -> (r: LockoutState)
        ensures
            r == clean(),
    {
        LockoutState { failures: 0, last_failure_unix_ms: 0 }
    }
}

/// What a lockout file says. A file that is missing, too short or of another version says
/// that there were no failures.
pub open spec fn recorded(file: Option<Seq<u8>>) -> LockoutState {
    match file {
        Some(bytes) if bytes.len() >= 16 && u32_at(bytes, 0) == LOCKOUT_VERSION => LockoutState {
            failures: u32_at(bytes, 4),
            last_failure_unix_ms: u64_at(bytes, 8),
        },
        _ => clean(),
    }
}

/// The contents of an optional file.
pub open spec fn contents(file: Option<&Vec<u8>>) -> Option<Seq<u8>> {
    match file {
        Some(bytes) => Some(bytes@),
        None => None,
    }
}

/// The lockout file for a state.
pub open spec fn state_bytes(state: LockoutState) -> Seq<u8> {
    u32_bytes(LOCKOUT_VERSION) + u32_bytes(state.failures) + u64_bytes(
        state.last_failure_unix_ms,
    )
}

impl LockoutState {
    /// Where a user's lockout file lies.
    pub fn path(user: &str, embeddings_dir: &str) -> (r: String)
        ensures
            r@ == joined(joined(embeddings_dir@, user@), "lockout.bin"@),
    {
        join_path(join_path(embeddings_dir, user).as_str(), "lockout.bin")
    }

    /// Reads a lockout file; `None` stands for one that cannot be opened.
    pub fn load(file: Option<&Vec<u8>>) -> (r: LockoutState)
        ensures
            r == recorded(contents(file)),
    {
        let bytes: &Vec<u8> = match file {
            Some(bytes) => bytes,
            None => {
                return LockoutState::default();
            },
        };
        let version: u32 = match read_u32(bytes, 0) {
            Some(v) => v,
            None => {
                return LockoutState::default();
            },
        };
        if version != LOCKOUT_VERSION {
            return LockoutState::default();
        }
        let failures: u32 = match read_u32(bytes, 4) {
            Some(n) => n,
            None => {
                return LockoutState::default();
            },
        };
        match read_u64(bytes, 8) {
            Some(last_failure_unix_ms) => LockoutState { failures, last_failure_unix_ms },
            None => LockoutState::default(),
        }
    }

    /// The lockout file for this state.
    pub fn save(&self) -> (r: Vec<u8>)
        ensures
            r@ == state_bytes(*self),
    {
        let mut out: Vec<u8> = Vec::new();
        write_u32(&mut out, LOCKOUT_VERSION);
        write_u32(&mut out, self.failures);
        write_u64(&mut out, self.last_failure_unix_ms);
        assert(out@ =~= state_bytes(*self));
        out
    }
}

/// The cooldown after `failures` failures, counted from the last one: the base delay, doubled
/// for each failure past the threshold (20 times at most), up to the ceiling.
pub open spec fn cooldown_ms(failures: u32, policy: LockoutPolicy) -> int {
    let past = failures - policy.threshold;
    let doublings = if past < 20 {
        past
    } else {
        20
    };
    let delay = policy.base_delay_ms * pow2(doublings as nat);
    if delay < policy.max_delay_ms {
        delay
    } else {
        policy.max_delay_ms as int
    }
}

/// How much of the cooldown is left at `now_ms`, if any.
pub open spec fn cooldown_left(state: LockoutState, policy: LockoutPolicy, now_ms: u64) -> Option<
    u64,
> {
    let elapsed = if now_ms < state.last_failure_unix_ms {
        0
    } else {
        now_ms - state.last_failure_unix_ms
    };
    if state.failures < policy.threshold || elapsed >= cooldown_ms(state.failures, policy) {
        None
    } else {
        Some((cooldown_ms(state.failures, policy) - elapsed) as u64)
    }
}

/// Cooldown remaining at `now_ms`, in milliseconds, if the failure count is at or past the
/// policy's threshold and less than the computed backoff has passed since the last failure.
/// A last failure in the future counts as one right now.
pub fn remaining_cooldown(state: &LockoutState, policy: &LockoutPolicy, now_ms: u64) -> (r: Option<
    u64,
>)
    ensures
        r == cooldown_left(*state, *policy, now_ms),
{
    if state.failures < policy.threshold {
        return None;
    }
    let past: u32 = state.failures - policy.threshold;
    let doublings: u32 = if past < 20 {
        past
    } else {
        20
    };
    let mut factor: u64 = 1;
    let mut i: u32 = 0;
    proof {
        lemma2_to64();
    }
    while i < doublings
        invariant
            i <= doublings <= 20,
            factor == pow2(i as nat),
            factor <= 0x10_0000,
        decreases doublings - i,
    {
        proof {
            lemma_pow2_unfold((i + 1) as nat);
            lemma2_to64();
            if i + 1 < 20 {
                lemma_pow2_strictly_increases((i + 1) as nat, 20);
            }
        }
        factor = factor * 2;
        i = i + 1;
    }
    proof {
        assert(0 <= policy.base_delay_ms * factor < 0x10_0000_0000_0000_0000_0000)
            by (nonlinear_arith)
            requires
                0 <= policy.base_delay_ms <= 0xffff_ffff_ffff_ffff,
                0 <= factor <= 0x10_0000,
        ;
    }
    let scaled: u128 = policy.base_delay_ms as u128 * factor as u128;
    let delay: u64 = if scaled < policy.max_delay_ms as u128 {
        scaled as u64
    } else {
        policy.max_delay_ms
    };
    let elapsed: u64 = if now_ms < state.last_failure_unix_ms {
        0
    } else {
        now_ms - state.last_failure_unix_ms
    };
    if elapsed >= delay {
        return None;
    }
    Some(delay - elapsed)
}

/// An attempt that is refused.
#[derive(Debug, Clone, Copy, PartialEq, Eq, Structural)]
pub struct Lockout {
    pub failures: u32,
    /// What is left of the cooldown.
    pub remaining_ms: u64,
    /// How long to sleep before falling back to the password.
    pub tarpit_ms: u64,
}

/// What is decided about an attempt.
pub open spec fn decision(state: LockoutState, policy: LockoutPolicy, now_ms: u64) -> Option<
    Lockout,
> {
    match cooldown_left(state, policy, now_ms) {
        None => None,
        Some(remaining_ms) => Some(
            Lockout {
                failures: state.failures,
                remaining_ms,
                tarpit_ms: if remaining_ms < policy.max_tarpit_ms {
                    remaining_ms
                } else {
                    policy.max_tarpit_ms
                },
            },
        ),
    }
}

/// Whether the user of a lockout file is in a cooldown. If so, the attempt is to sleep for a
/// bounded delay (never the full cooldown, so that the fallback to a password is never stalled
/// for long) and to be refused. `None` means to go on with a normal attempt.
pub fn check(file: Option<&Vec<u8>>, policy: &LockoutPolicy, now_ms: u64) -> (r: Option<Lockout>)
    ensures
        r == decision(recorded(contents(file)), *policy, now_ms),
{
    let state = LockoutState::load(file);
    match remaining_cooldown(&state, policy, now_ms) {
        None => None,
        Some(remaining_ms) => {
            let tarpit_ms: u64 = if remaining_ms < policy.max_tarpit_ms {
                remaining_ms
            } else {
                policy.max_tarpit_ms
            };
            Some(Lockout { failures: state.failures, remaining_ms, tarpit_ms })
        },
    }
}

/// The state after one more failure.
pub open spec fn failed(state: LockoutState, now_ms: u64) -> LockoutState {
    LockoutState {
        failures: if state.failures < u32::MAX {
            (state.failures + 1) as u32
        } else {
            u32::MAX
        },
        last_failure_unix_ms: now_ms,
    }
}

/// The lockout file after a failed attempt (a completed scan that did not match, not a capture
/// error), given the file before.
pub fn record_failure(file: Option<&Vec<u8>>, now_ms: u64) -> (r: Vec<u8>)
    ensures
        r@ == state_bytes(failed(recorded(contents(file)), now_ms)),
{
    let mut state = LockoutState::load(file);
    if state.failures < u32::MAX {
        state.failures = state.failures + 1;
    }
    state.last_failure_unix_ms = now_ms;
    state.save()
}

/// The lockout file after a successful match: no failures.
pub fn record_success() -> (r: Vec<u8>)
    ensures
        r@ == state_bytes(clean()),
{
    LockoutState::default().save()
}

/// The lockout file after an attempt that came to a result: a match forgets the failures, and
/// anything else counts as one more. An attempt that ended in an error came to no result and
/// leaves the file as it is.
pub fn after_attempt(file: Option<&Vec<u8>>, recognized: bool, now_ms: u64) -> (r: Vec<u8>)
    ensures
        r@ == state_bytes(
            if recognized {
                clean()
            } else {
                failed(recorded(contents(file)), now_ms)
            },
        ),
{
    if recognized {
        record_success()
    } else {
        record_failure(file, now_ms)
    }
}

/// A recorded state is read back.
pub proof fn recorded_states_read_back(state: LockoutState)
    ensures
        recorded(Some(state_bytes(state))) == state,
{
    let bytes = state_bytes(state);
    assert(bytes.subrange(0, 4) =~= u32_bytes(LOCKOUT_VERSION));
    assert(bytes.subrange(4, 8) =~= u32_bytes(state.failures));
    assert(bytes.subrange(8, 16) =~= u64_bytes(state.last_failure_unix_ms));
    written_u32_reads_back(bytes, 0, LOCKOUT_VERSION);
    written_u32_reads_back(bytes, 4, state.failures);
    written_u64_reads_back(bytes, 8, state.last_failure_unix_ms);
}

/// A cooldown lasts at most as long as the ceiling and ends: once enough time has passed there
/// is none, and there is none later either.
pub proof fn cooldowns_end(state: LockoutState, policy: LockoutPolicy, now_ms: u64, later_ms: u64)
    requires
        now_ms <= later_ms,
    ensures
        cooldown_left(state, policy, now_ms) matches Some(left) ==> 0 < left <= policy.max_delay_ms,
        now_ms - state.last_failure_unix_ms >= policy.max_delay_ms ==> cooldown_left(
            state,
            policy,
            now_ms,
        ) is None,
        cooldown_left(state, policy, now_ms) is None ==> cooldown_left(
            state,
            policy,
            later_ms,
        ) is None,
{
    lemma_cooldown_not_negative(state.failures, policy);
}

proof fn lemma_cooldown_not_negative(failures: u32, policy: LockoutPolicy)
    ensures
        failures >= policy.threshold ==> 0 <= cooldown_ms(failures, policy) <= policy.max_delay_ms,
{
    let past = failures - policy.threshold;
    let doublings = if past < 20 {
        past
    } else {
        20
    };
    assert(policy.base_delay_ms * pow2(doublings as nat) >= 0) by (nonlinear_arith);
}

/// More failures never mean a shorter cooldown, and the first one past the threshold costs the
/// base delay.
pub proof fn cooldowns_grow(policy: LockoutPolicy, fewer: u32, more: u32)
    requires
        policy.threshold <= fewer <= more,
    ensures
        cooldown_ms(fewer, policy) <= cooldown_ms(more, policy),
        cooldown_ms(policy.threshold, policy) == if policy.base_delay_ms < policy.max_delay_ms {
            policy.base_delay_ms
        } else {
            policy.max_delay_ms
        },
        fewer + 1 == more && more - policy.threshold <= 20 && cooldown_ms(more, policy)
            < policy.max_delay_ms ==> cooldown_ms(more, policy) == 2 * cooldown_ms(fewer, policy),
{
    let a = if fewer - policy.threshold < 20 {
        fewer - policy.threshold
    } else {
        20
    };
    let b = if more - policy.threshold < 20 {
        more - policy.threshold
    } else {
        20
    };
    if a < b {
        lemma_pow2_strictly_increases(a as nat, b as nat);
    }
    assert(policy.base_delay_ms * pow2(a as nat) <= policy.base_delay_ms * pow2(b as nat))
        by (nonlinear_arith)
        requires
            pow2(a as nat) <= pow2(b as nat),
    ;
    lemma2_to64();
    lemma_mul_basics(policy.base_delay_ms as int);
    if fewer + 1 == more && more - policy.threshold <= 20 {
        lemma_pow2_unfold(b as nat);
        assert(policy.base_delay_ms * (2 * pow2(a as nat)) == 2 * (policy.base_delay_ms * pow2(
            a as nat,
        ))) by (nonlinear_arith);
        assert(0 <= policy.base_delay_ms * pow2(a as nat)) by (nonlinear_arith);
    }
}

/// The state after failures at the given times, one after another.
pub open spec fn after_failures(state: LockoutState, times: Seq<u64>) -> LockoutState
    decreases times.len(),
{
    if times.len() == 0 {
        state
    } else {
        failed(after_failures(state, times.drop_last()), times.last())
    }
}

/// Failures count up one by one from the last success, however the attempts are spread over
/// processes, and there is no cooldown before the threshold is reached.
pub proof fn failures_add_up(times: Seq<u64>, policy: LockoutPolicy, now_ms: u64)
    requires
        times.len() <= u32::MAX,
    ensures
        after_failures(clean(), times).failures == times.len(),
        times.len() > 0 ==> after_failures(clean(), times).last_failure_unix_ms == times.last(),
        times.len() < policy.threshold ==> decision(
            after_failures(clean(), times),
            policy,
            now_ms,
        ) is None,
    decreases times.len(),
{
    if times.len() > 0 {
        failures_add_up(times.drop_last(), policy, now_ms);
    }
}

/// Once the failures reach the threshold, attempts are refused for as long as the cooldown
/// lasts, and only so long.
pub proof fn repeated_failures_are_refused(times: Seq<u64>, policy: LockoutPolicy, now_ms: u64)
    requires
        0 < times.len() <= u32::MAX,
        policy.threshold <= times.len(),
        times.last() <= now_ms,
    ensures
        ({
            let state = after_failures(clean(), times);
            decision(state, policy, now_ms) is Some <==> now_ms - times.last() < cooldown_ms(
                times.len() as u32,
                policy,
            )
        }),
{
    failures_add_up(times, policy, now_ms);
}

/// Attempts that are recorded one after another, each with its result and time.
pub open spec fn after_attempts(file: Option<Seq<u8>>, results: Seq<(bool, u64)>) -> Option<Seq<u8>>
    decreases results.len(),
{
    if results.len() == 0 {
        file
    } else {
        let before = after_attempts(file, results.drop_last());
        let (recognized, now_ms) = results.last();
        Some(
            state_bytes(
                if recognized {
                    clean()
                } else {
                    failed(recorded(before), now_ms)
                },
            ),
        )
    }
}

/// What the file says after attempts of which none matched: the failures are those that were
/// recorded, one after another, whatever process recorded them.
pub proof fn recorded_failures_add_up(
    file: Option<Seq<u8>>,
    results: Seq<(bool, u64)>,
    times: Seq<u64>,
)
    requires
        results.len() == times.len(),
        forall|i: int| 0 <= i < results.len() ==> #[trigger] results[i] == (false, times[i]),
    ensures
        recorded(after_attempts(file, results)) == after_failures(recorded(file), times),
    decreases results.len(),
{
    if results.len() > 0 {
        recorded_failures_add_up(file, results.drop_last(), times.drop_last());
        assert(results.last() == (false, times.last()));
        recorded_states_read_back(
            failed(recorded(after_attempts(file, results.drop_last())), times.last()),
        );
    }
}

/// A refused attempt sleeps no longer than the policy's tarpit and no longer than the cooldown
/// that is left.
pub proof fn tarpits_are_bounded(state: LockoutState, policy: LockoutPolicy, now_ms: u64)
    ensures
        decision(state, policy, now_ms) matches Some(l) ==> l.tarpit_ms <= policy.max_tarpit_ms
            && l.tarpit_ms <= l.remaining_ms,
{
}

/// After a success there is no cooldown, for every policy that allows a failure.
pub proof fn success_ends_the_cooldown(policy: LockoutPolicy, now_ms: u64)
    requires
        policy.threshold > 0,
    ensures
        decision(recorded(Some(state_bytes(clean()))), policy, now_ms) is None,
{
    recorded_states_read_back(clean());
}

} // verus!
