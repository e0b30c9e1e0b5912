//! Index arithmetic shared by the two ring containers.

use vstd::prelude::*;
use vstd::arithmetic::div_mod::{lemma_mod_multiples_vanish, lemma_small_mod};

verus! {

/// A logical offset into circular storage of length `cap`, reduced by at most
/// one turn of the ring. All index computations in this crate keep their
/// operands below `2 * cap`, so a single conditional subtraction is the whole
/// wrap-around.
pub open spec fn wrap(i: int, cap: int) -> int {
    if i < cap {
        i
    } else {
        i - cap
    }
}

/// For offsets below twice the storage length, taking the remainder agrees
/// with the single-step wrap.
pub proof fn lemma_wrap_mod(x: int, cap: int)
    requires
        0 < cap,
        0 <= x,
        x < 2 * cap,
    ensures
        x % cap == wrap(x, cap),
{
    if x < cap {
        lemma_small_mod(x as nat, cap as nat);
    } else {
        lemma_mod_multiples_vanish(1, x - cap, cap);
        lemma_small_mod((x - cap) as nat, cap as nat);
    }
}

} // verus!
