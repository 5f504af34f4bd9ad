//! Rate limiting for repeated diagnostics.
use vstd::prelude::*;

verus! {

/// Whether a running count that grows from `before` to `before + added` deserves a log line:
/// the first occurrence always does, later ones whenever the count crosses a multiple of `every`.
pub open spec fn log_due(before: nat, added: nat, every: nat) -> bool {
    before == 0 || before / every != (before + added) / every
}

/// Decide whether a counter that was `before` and grows by `added` should be logged now.
pub fn should_log(before: u64, added: u64, every: u64) -> (due: bool)
    requires
        every > 0,
        before + added <= u64::MAX,
    ensures
        due == log_due(before as nat, added as nat, every as nat),
{
    before == 0 || before / every != (before + added) / every
}

/// A counter that grows by one is logged at its first step, and then exactly when it reaches a
/// multiple of `every`.
pub proof fn law_every_multiple_is_logged_once(before: nat, every: nat)
    requires
        every > 0,
    ensures
        log_due(before, 1, every) <==> before == 0 || (before + 1) % every == 0,
{
    let q = before as int / every as int;
    let m = before as int % every as int;
    vstd::arithmetic::div_mod::lemma_fundamental_div_mod(before as int, every as int);
    assert(0 <= m < every) by {
        vstd::arithmetic::div_mod::lemma_mod_bound(before as int, every as int);
    }
    if m + 1 < every {
        vstd::arithmetic::div_mod::lemma_fundamental_div_mod_converse(
            before as int + 1,
            every as int,
            q,
            m + 1,
        );
    } else {
        assert(before + 1 == every * (q + 1)) by (nonlinear_arith)
            requires
                before == every * q + m,
                m + 1 == every,
        ;
        vstd::arithmetic::div_mod::lemma_fundamental_div_mod_converse(
            before as int + 1,
            every as int,
            q + 1,
            0,
        );
    }
}

} // verus!
