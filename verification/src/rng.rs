//! The game's own source of chance: a generator whose every game is the same
//! game, and which can be asked what it will say.
use vstd::prelude::*;

verus! {

/// The state that follows `x`: three shifts, each laid over what was there.
pub open spec fn xorshift(x: u32) -> u32 {
    let a = x ^ (x << 13u32);
    let b = a ^ (a >> 17u32);
    b ^ (b << 5u32)
}

/// The state `k` steps on from `x`.
pub open spec fn xorshift_at(x: u32, k: nat) -> u32
    decreases k,
{
    if k == 0 {
        x
    } else {
        xorshift(xorshift_at(x, (k - 1) as nat))
    }
}

/// The state that follows `x`.
pub fn next(x: u32) -> (r: u32)
    ensures
        r == xorshift(x),
{
    let a: u32 = x ^ (x << 13u32);
    let b: u32 = a ^ (a >> 17u32);
    b ^ (b << 5u32)
}

/// The generator does not run dry: from a state other than zero it never comes
/// to zero, where it would stay.
pub proof fn xorshift_never_reaches_zero(x: u32, k: nat)
    requires
        x != 0,
    ensures
        xorshift_at(x, k) != 0,
    decreases k,
{
    if k > 0 {
        xorshift_never_reaches_zero(x, (k - 1) as nat);
        let y = xorshift_at(x, (k - 1) as nat);
        assert(y != 0 ==> ({
            let a = y ^ (y << 13u32);
            let b = a ^ (a >> 17u32);
            b ^ (b << 5u32)
        }) != 0) by (bit_vector);
    }
}

/// No two states have the same successor, so none is ever lost.
pub proof fn xorshift_is_one_to_one(x: u32, y: u32)
    requires
        xorshift(x) == xorshift(y),
    ensures
        x == y,
{
    assert(({
        let a = x ^ (x << 13u32);
        let b = a ^ (a >> 17u32);
        b ^ (b << 5u32)
    }) == ({
        let a = y ^ (y << 13u32);
        let b = a ^ (a >> 17u32);
        b ^ (b << 5u32)
    }) ==> x == y) by (bit_vector);
}

/// Steps add up.
pub proof fn xorshift_at_adds(x: u32, j: nat, k: nat)
    ensures
        xorshift_at(xorshift_at(x, j), k) == xorshift_at(x, j + k),
    decreases k,
{
    if k > 0 {
        xorshift_at_adds(x, j, (k - 1) as nat);
    }
}

} // verus!
