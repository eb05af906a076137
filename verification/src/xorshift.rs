//! The 64-bit xorshift step the games use to stay reproducible from a seed.
use vstd::prelude::*;

verus! {

/// One xorshift step: shifts of 13 left, 7 right and 17 left, each xored back in.
pub open spec fn xorshift(x: u64) -> u64 {
    let a = x ^ (x << 13u64);
    let b = a ^ (a >> 7u64);
    b ^ (b << 17u64)
}

/// Advances `x` by one xorshift step.
pub fn xorshift_next(x: u64) -> (r: u64)
    ensures
        r == xorshift(x),
{
    let mut x = x;
    x ^= x << 13;
    x ^= x >> 7;
    x ^= x << 17;
    x
}

/// `s` shuffled from position `i - 1` down to position 1: each position swaps with a position
/// at most itself drawn from the generator at `st`. The shuffled sequence and the generator's
/// state after.
pub open spec fn shuffle_seq<T>(s: Seq<T>, st: u64, i: int) -> (Seq<T>, u64)
    decreases i,
{
    if i <= 1 {
        (s, st)
    } else {
        let r = xorshift(st);
        let k = i - 1;
        let j = (r % (i as u64)) as int;
        shuffle_seq(s.update(k, s[j]).update(j, s[k]), r, k)
    }
}

} // verus!
