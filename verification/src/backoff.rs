//! Deterministic, capped exponential reconnect backoff.
use vstd::prelude::*;
use vstd::arithmetic::power2::{
    lemma_pow2_pos, lemma_pow2_strictly_increases, lemma_pow2_unfold, lemma2_to64, pow2,
};
use vstd::bits::{lemma_u64_pow2_no_overflow, lemma_u64_shl_is_mul};
use vstd::math::min;
use crate::error::RealtimeError;
use crate::limits::MAX_INTEROPERABLE_INTEGER;

verus! {

/// The base and the cap of the reconnect delay, in milliseconds.
#[derive(Clone, Copy, Debug, Eq, PartialEq)]
pub struct ReconnectBackoffPolicy {
    pub base_ms: u64,
    pub max_ms: u64,
}

/// Both delays are interoperably bounded and the cap is at least the base.
pub open spec fn backoff_policy_valid(policy: ReconnectBackoffPolicy) -> bool {
    &&& policy.base_ms <= policy.max_ms
    &&& policy.max_ms <= MAX_INTEROPERABLE_INTEGER
}

/// The delay before the zero-based reconnect `attempt`: the base doubled once per attempt,
/// never above the cap.
pub open spec fn backoff_delay(attempt: u32, policy: ReconnectBackoffPolicy) -> int {
    min(policy.base_ms * pow2(attempt as nat), policy.max_ms as int)
}

/// Returns the deterministic exponential delay for a zero-based reconnect attempt.
pub fn reconnect_delay_ms(attempt: u32, policy: ReconnectBackoffPolicy) -> (delay: Result<
    u64,
    RealtimeError,
>)
    ensures
        match delay {
            Ok(d) => backoff_policy_valid(policy) && d == backoff_delay(attempt, policy),
            Err(error) => !backoff_policy_valid(policy) && error
                == RealtimeError::InvalidBackoffPolicy,
        },
{
    if policy.max_ms < policy.base_ms || policy.base_ms > MAX_INTEROPERABLE_INTEGER || policy.max_ms
        > MAX_INTEROPERABLE_INTEGER {
        return Err(RealtimeError::InvalidBackoffPolicy);
    }
    if policy.base_ms == 0 || attempt >= 64 {
        proof {
            lemma_pow2_pos(attempt as nat);
            if policy.base_ms != 0 {
                lemma2_to64();
                if attempt > 64 {
                    lemma_pow2_strictly_increases(64, attempt as nat);
                }
                assert(policy.base_ms * pow2(attempt as nat) >= pow2(attempt as nat)) by (
                nonlinear_arith)
                    requires
                        policy.base_ms >= 1,
                        pow2(attempt as nat) > 0,
                ;
            }
        }
        return Ok(
            if policy.base_ms == 0 {
                0
            } else {
                policy.max_ms
            },
        );
    }
    let shift = attempt as u64;
    proof {
        lemma_u64_pow2_no_overflow(shift as nat);
        lemma_u64_shl_is_mul(1, shift);
    }
    let multiplier = 1u64 << shift;
    assert(multiplier == pow2(attempt as nat));
    let product = match policy.base_ms.checked_mul(multiplier) {
        Some(p) => p,
        None => policy.max_ms,
    };
    Ok(
        if product < policy.max_ms {
            product
        } else {
            policy.max_ms
        },
    )
}

/// The delay never exceeds the cap, and it never shrinks from one attempt to a later one.
pub proof fn law_backoff_capped_and_monotone(
    first: u32,
    later: u32,
    policy: ReconnectBackoffPolicy,
)
    requires
        backoff_policy_valid(policy),
        first <= later,
    ensures
        0 <= backoff_delay(first, policy) <= policy.max_ms,
        backoff_delay(first, policy) <= backoff_delay(later, policy),
{
    lemma_pow2_pos(first as nat);
    if first < later {
        lemma_pow2_strictly_increases(first as nat, later as nat);
    }
    let a = pow2(first as nat);
    let b = pow2(later as nat);
    assert(policy.base_ms * a <= policy.base_ms * b) by (nonlinear_arith)
        requires
            a <= b,
    ;
    assert(policy.base_ms * a >= 0) by (nonlinear_arith)
        requires
            a > 0,
    ;
}

/// The first delay is the base (or the cap, if smaller), and each further attempt doubles the
/// previous delay until the doubled delay would reach the cap, from where on the delay is the cap.
pub proof fn law_backoff_doubles_up_to_cap(attempt: u32, policy: ReconnectBackoffPolicy)
    requires
        attempt < u32::MAX,
    ensures
        backoff_delay(0, policy) == min(policy.base_ms as int, policy.max_ms as int),
        2 * backoff_delay(attempt, policy) < policy.max_ms ==> backoff_delay(
            (attempt + 1) as u32,
            policy,
        ) == 2 * backoff_delay(attempt, policy),
        2 * backoff_delay(attempt, policy) >= policy.max_ms ==> backoff_delay(
            (attempt + 1) as u32,
            policy,
        ) == policy.max_ms,
{
    lemma2_to64();
    let next = (attempt + 1) as u32;
    lemma_pow2_unfold(next as nat);
    assert(((next as nat) - 1) as nat == attempt as nat);
    let p = pow2(attempt as nat);
    lemma_pow2_pos(attempt as nat);
    assert(policy.base_ms * (2 * p) == 2 * (policy.base_ms * p)) by (nonlinear_arith);
    assert(policy.base_ms * p >= 0) by (nonlinear_arith)
        requires
            p > 0,
    ;
}

} // verus!
