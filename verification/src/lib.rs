pub mod bisect;
pub mod captions;
pub mod distance;
pub mod errors;
pub mod materialize;
pub mod partition;
pub mod tags;
pub mod text;

pub use errors::GroupError;
pub use errors::describe_spec;
pub use text::clean;
pub use text::cleaned;
pub use text::is_alnum;
pub use text::is_space;
pub use text::split_at;
pub use text::split_char;
pub use text::views;

use vstd::prelude::*;

verus! {

/// Fixed-point scale: one unit is one millionth.
pub const SCALE: i64 = 1_000_000;

/// The integer square root of `s`: the unique `r` with
/// `r * r <= s < (r + 1) * (r + 1)`.
pub open spec fn is_sqrt(r: nat, s: nat) -> bool {
    r * r <= s < (r + 1) * (r + 1)
}

pub open spec fn sqrt_of(s: nat) -> nat {
    choose|r: nat| is_sqrt(r, s)
}

pub proof fn lemma_sqrt_exists(s: nat)
    ensures
        exists|r: nat| is_sqrt(r, s),
    decreases s,
{
    if s == 0 {
        assert(is_sqrt(0, s)) by {
            assert(0 * 0 <= s) by (nonlinear_arith)
                requires
                    s == 0nat,
            ;
            assert(s < (0 + 1) * (0 + 1)) by (nonlinear_arith)
                requires
                    s == 0nat,
            ;
        }
    } else {
        let sm = (s - 1) as nat;
        lemma_sqrt_exists(sm);
        let r = choose|r: nat| is_sqrt(r, sm);
        if (r + 1) * (r + 1) == s {
            assert((r + 1) * (r + 1) <= s < (r + 1 + 1) * (r + 1 + 1)) by (nonlinear_arith)
                requires
                    (r + 1) * (r + 1) == s,
            ;
            assert(is_sqrt(r + 1, s));
        } else {
            assert(is_sqrt(r, s));
        }
    }
}

pub proof fn lemma_sqrt_unique(s: nat, r: nat)
    requires
        is_sqrt(r, s),
    ensures
        r == sqrt_of(s),
{
    lemma_sqrt_exists(s);
    assert(is_sqrt(sqrt_of(s), s));
    let w = sqrt_of(s);
    assert(r == w) by (nonlinear_arith)
        requires
            r * r <= s < (r + 1) * (r + 1),
            w * w <= s < (w + 1) * (w + 1),
    ;
}

/// Integer square root: the largest `r` with `r * r <= s`.
pub fn isqrt(s: u128) -> (r: u64)
    ensures
        (r as u128) * (r as u128) <= s,
        s < ((r as int) + 1) * ((r as int) + 1),
        r == sqrt_of(s as nat),
{
    proof {
        lemma_sqrt_exists(s as nat);
    }
    let max64: u128 = 0xFFFF_FFFF_FFFF_FFFF;
    if s >= max64 * max64 {
        assert((u64::MAX as int + 1) * (u64::MAX as int + 1) > u128::MAX as int) by (nonlinear_arith);
        proof {
            lemma_sqrt_unique(s as nat, u64::MAX as nat);
        }
        return u64::MAX;
    }
    let mut lo: u128 = 0;
    let mut hi: u128 = max64 - 1;
    while lo < hi
        invariant
            lo * lo <= s,
            s < (hi + 1) * (hi + 1),
            lo <= hi <= 0xFFFF_FFFF_FFFF_FFFEu128,
        decreases hi - lo,
    {
        let mid: u128 = lo + (hi - lo + 1) / 2;
        proof {
            assert(mid <= hi);
            assert(mid * mid <= hi * hi) by (nonlinear_arith)
                requires 0 <= mid <= hi,
            ;
            assert(hi * hi < u128::MAX) by (nonlinear_arith)
                requires hi <= 0xFFFF_FFFF_FFFF_FFFEu128,
            ;
        }
        if mid * mid <= s {
            lo = mid;
        } else {
            assert(s < mid * mid);
            hi = mid - 1;
        }
    }
    proof {
        lemma_sqrt_unique(s as nat, lo as nat);
    }
    lo as u64
}

} // verus!
