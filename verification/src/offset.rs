//! Arithmetic on positions within the period.

use vstd::arithmetic::div_mod::{lemma_fundamental_div_mod, lemma_mod_multiples_vanish};
use vstd::prelude::*;

verus! {

/// Length of the period in seconds: offsets are seconds within a minute.
pub const PERIOD: u8 = 60;

/// Seconds from position `now` until position `offset` is next reached, going
/// forward around the period. A position outside the period counts by its
/// remainder.
pub open spec fn wait_between(now: int, offset: int) -> int {
    (offset + PERIOD - now) % (PERIOD as int)
}

/// Calculate seconds to given offset within current period.
///
/// `now` and `offset` are seconds of a minute; any other value is taken by its
/// remainder. The returned number is always a second of a minute, and it is
/// zero when `now` is the offset itself.
pub fn seconds_till_next_offset(now: u8, offset: u8) -> (wait: u8)
    ensures
        wait == wait_between(now as int, offset as int),
        wait < PERIOD,
        now == offset ==> wait == 0,
{
    proof {
        lemma_wait_by_remainders(now as int, offset as int);
    }
    // projecting the offset into the next minute makes sure there is no underflow.
    ((offset % PERIOD + PERIOD) - now % PERIOD) % PERIOD
}

/// The wait between two positions is the wait between their remainders.
proof fn lemma_wait_by_remainders(now: int, offset: int)
    ensures
        ({
            let period = PERIOD as int;
            wait_between(now, offset) == ((offset % period + period) - now % period) % period
        }),
{
    let period = PERIOD as int;
    lemma_fundamental_div_mod(offset, period);
    lemma_fundamental_div_mod(now, period);
    lemma_mod_multiples_vanish(
        offset / period - now / period,
        (offset % period + period) - now % period,
        period,
    );
}

/// Waiting from `now` for the time `wait_between` gives arrives at `offset`:
/// still in this period where the offset has not passed, in the next one
/// where it has.
pub proof fn lemma_wait_reaches_offset(now: int, offset: int)
    requires
        0 <= now < PERIOD,
        0 <= offset < PERIOD,
    ensures
        0 <= wait_between(now, offset) < PERIOD,
        now <= offset ==> now + wait_between(now, offset) == offset,
        now > offset ==> now + wait_between(now, offset) == offset + PERIOD,
{
}

} // verus!
