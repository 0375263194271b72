use vstd::prelude::*;
use vstd::string::*;

verus! {

/// Starting value of the 64-bit FNV-1a hash.
pub const FNV_OFFSET: u64 = 0xcbf29ce484222325;

/// Multiplier of the 64-bit FNV-1a hash.
pub const FNV_PRIME: u64 = 0x100000001b3;

/// One FNV-1a step: mix in the code point of `c`, then multiply modulo 2^64.
pub open spec fn fnv_step(h: u64, c: char) -> u64 {
    ((h ^ (c as u32 as u64)) as int * FNV_PRIME as int % 0x1_0000_0000_0000_0000) as u64
}

/// FNV-1a over the code points of `s`, taken in order.
pub open spec fn owner_hash(s: Seq<char>) -> u64
    decreases s.len(),
{
    if s.len() == 0 {
        FNV_OFFSET
    } else {
        fnv_step(owner_hash(s.drop_last()), s.last())
    }
}

/// Derives the contract id of an owner: the same owner always gives the same id.
pub fn hash_owner(owner: &str) -> (id: u64)
    ensures
        id == owner_hash(owner@),
{
    let n = owner.unicode_len();
    let mut h: u64 = FNV_OFFSET;
    let mut i: usize = 0;
    while i < n
        invariant
            n == owner@.len(),
            i <= n,
            h == owner_hash(owner@.subrange(0, i as int)),
        decreases n - i,
    {
        let c = owner.get_char(i);
        proof {
            let pre = owner@.subrange(0, i as int);
            let post = owner@.subrange(0, i + 1);
            assert(post.drop_last() =~= pre);
        }
        h = (h ^ (c as u32 as u64)).wrapping_mul(FNV_PRIME);
        i = i + 1;
    }
    assert(owner@.subrange(0, n as int) =~= owner@);
    h
}

} // verus!
