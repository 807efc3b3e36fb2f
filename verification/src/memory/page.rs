//! The system's memory page size.

use vstd::arithmetic::div_mod::{
    lemma_div_is_ordered, lemma_fundamental_div_mod, lemma_mod_multiples_basic,
};
use vstd::arithmetic::mul::{lemma_mul_inequality, lemma_mul_is_commutative};
use vstd::prelude::*;

verus! {

/// The page size that is taken where the system reports none.
pub const FALLBACK_PAGE_SIZE: usize = 4096;

/// The page size that a system's report means: itself, or the fallback where it is no size.
pub open spec fn page_size_of(reported: i64) -> usize {
    if reported <= 0 {
        FALLBACK_PAGE_SIZE
    } else {
        reported as usize
    }
}

/// Reads a system's report of its page size.
pub fn query_page_size(reported: i64) -> (r: usize)
    ensures
        r == page_size_of(reported),
        reported <= 0 ==> r == 4096,
        0 < reported <= usize::MAX ==> r == reported,
{
    if reported <= 0 {
        FALLBACK_PAGE_SIZE
    } else {
        reported as usize
    }
}

/// The page size, which is taken from the system's report once and then kept.
pub fn page_size(kept: &mut Option<usize>, reported: i64) -> (r: usize)
    ensures
        r == (match *old(kept) {
            Some(p) => p,
            None => page_size_of(reported),
        }),
        *final(kept) == Some(r),
        *old(kept) is None && reported <= 0 ==> r == 4096,
        *old(kept) is None && 0 < reported <= usize::MAX ==> r == reported,
{
    match *kept {
        Some(p) => p,
        None => {
            let p = query_page_size(reported);
            *kept = Some(p);
            p
        },
    }
}

/// `n` rounded up to a multiple of `page`; where that does not fit, the greatest multiple that
/// does.
pub open spec fn rounded_up(n: nat, page: nat) -> nat {
    if n + page - 1 <= usize::MAX {
        (n + page - 1) as nat / page * page
    } else {
        usize::MAX as nat / page * page
    }
}

/// Rounding up gives a multiple of the page size, the next one at or above `n` where it fits.
pub proof fn rounding_gives_next_multiple(n: nat, page: nat)
    requires
        page > 0,
    ensures
        rounded_up(n, page) % page == 0,
        n + page - 1 <= usize::MAX ==> n <= rounded_up(n, page) < n + page,
        n + page - 1 > usize::MAX ==> usize::MAX - page < rounded_up(n, page) <= usize::MAX,
{
    let x = if n + page - 1 <= usize::MAX {
        (n + page - 1) as nat
    } else {
        usize::MAX as nat
    };
    lemma_mod_multiples_basic((x / page) as int, page as int);
    lemma_fundamental_div_mod(x as int, page as int);
    assert(page * (x / page) == (x / page) * page) by (nonlinear_arith);
}

/// What is rounded up is no more than the greatest multiple that fits.
proof fn lemma_rounding_is_bounded(n: nat, page: nat)
    requires
        page > 0,
    ensures
        rounded_up(n, page) <= usize::MAX as nat / page * page <= usize::MAX,
{
    let most = usize::MAX as int;
    let p = page as int;
    lemma_fundamental_div_mod(most, p);
    lemma_mul_is_commutative(p, most / p);
    if n + page - 1 <= usize::MAX {
        lemma_div_is_ordered(n + p - 1, most, p);
        lemma_mul_inequality((n + p - 1) / p, most / p, p);
    }
}

/// Rounding up what is rounded up changes nothing.
pub proof fn rounding_again_changes_nothing(n: nat, page: nat)
    requires
        page > 0,
    ensures
        rounded_up(rounded_up(n, page), page) == rounded_up(n, page),
{
    let m = rounded_up(n, page);
    let again = rounded_up(m, page);
    rounding_gives_next_multiple(n, page);
    rounding_gives_next_multiple(m, page);
    lemma_rounding_is_bounded(n, page);
    lemma_rounding_is_bounded(m, page);
    lemma_fundamental_div_mod(m as int, page as int);
    lemma_fundamental_div_mod(again as int, page as int);
    let a = (m / page) as int;
    let b = (again / page) as int;
    assert(m == page * a);
    assert(again == page * b);
    assert(a == b) by (nonlinear_arith)
        requires
            page * a <= page * b < page * a + page,
            page > 0,
    ;
}

/// More is not rounded up to less.
pub proof fn rounding_keeps_order(a: nat, b: nat, page: nat)
    requires
        page > 0,
        a <= b,
    ensures
        rounded_up(a, page) <= rounded_up(b, page),
{
    let p = page as int;
    lemma_rounding_is_bounded(a, page);
    if b + page - 1 <= usize::MAX {
        lemma_div_is_ordered(a + p - 1, b + p - 1, p);
        lemma_mul_inequality((a + p - 1) / p, (b + p - 1) / p, p);
    }
}

/// Rounds `n` up to a multiple of the page size `page`.
pub fn round_up_to_page(n: usize, page: usize) -> (r: usize)
    requires
        page > 0,
    ensures
        r == rounded_up(n as nat, page as nat),
        r % page == 0,
        n + page - 1 <= usize::MAX ==> n <= r < n + page,
{
    let sum = match n.checked_add(page - 1) {
        Some(s) => s,
        None => usize::MAX,
    };
    proof {
        lemma_fundamental_div_mod(sum as int, page as int);
        assert((sum / page) * page <= sum) by (nonlinear_arith)
            requires
                sum == page * (sum / page) + sum % page,
                0 <= sum % page,
        ;
        rounding_gives_next_multiple(n as nat, page as nat);
    }
    sum / page * page
}

} // verus!
