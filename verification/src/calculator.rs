//! Which pricing call answers a quote for a pool, in either direction.
use vstd::prelude::*;
use crate::pool::{Pool, SwapCall};
use crate::types::{U256, value, half_modulus};
use crate::univ3pool::spec_sqrt_price_limit;

verus! {

/// The token that goes into a pool for a swap in the given direction:
/// `token0` when `zf1`, else `token1`.
pub open spec fn input_token(pool: Pool, zf1: bool) -> crate::types::Address {
    if zf1 {
        pool.spec_token0()
    } else {
        pool.spec_token1()
    }
}

/// The pricing call that quotes an exact input of `amount_in` in the given
/// direction. A V3 pool takes the amount as a signed word, so it must fit.
pub fn amount_out_for_an_input(pool: &Pool, zf1: bool, amount_in: U256) -> (r: SwapCall)
    requires
        pool is V3 ==> value(amount_in) < half_modulus(),
    ensures
        match (*pool, r) {
            (Pool::V2(p), SwapCall::V2(c)) => {
                &&& c.pool == p.id
                &&& c.zero_for_one == (input_token(*pool, zf1) == p.token0.id)
                &&& c.amount == amount_in
            },
            (Pool::V3(p), SwapCall::V3(c)) => {
                &&& c.pool == p.id
                &&& c.zero_for_one == (input_token(*pool, zf1) == p.token0.id)
                &&& c.amount == amount_in
                &&& c.sqrt_price_limit == spec_sqrt_price_limit(c.zero_for_one)
                &&& !c.exact_output
            },
            _ => false,
        },
{
    let token_in = if zf1 {
        pool.token0()
    } else {
        pool.token1()
    };
    pool.amount_out_call(token_in, amount_in)
}

/// The pricing call that quotes the input needed for an exact output of
/// `amount_out` in the given direction: a V3 pool is asked for the exact
/// output; a V2 pool is asked for the output of `amount_out` taken as an
/// input, the one quote its pricing contract gives. For a V3 pool the amount must fit in a
/// signed word.
pub fn amount_in_for_an_output(pool: &Pool, zf1: bool, amount_out: U256) -> (r: SwapCall)
    requires
        pool is V3 ==> value(amount_out) < half_modulus(),
    ensures
        match (*pool, r) {
            (Pool::V2(p), SwapCall::V2(c)) => {
                &&& c.pool == p.id
                &&& c.zero_for_one == (input_token(*pool, zf1) == p.token0.id)
                &&& c.amount == amount_out
            },
            (Pool::V3(p), SwapCall::V3(c)) => {
                &&& c.pool == p.id
                &&& c.zero_for_one == zf1
                &&& crate::types::signed_value(c.amount) == -(value(amount_out) as int)
                &&& c.sqrt_price_limit == spec_sqrt_price_limit(zf1)
                &&& c.exact_output
            },
            _ => false,
        },
{
    let token_in = if zf1 {
        pool.token0()
    } else {
        pool.token1()
    };
    match pool {
        Pool::V2(p) => SwapCall::V2(p.amount_out_call(token_in, amount_out)),
        Pool::V3(p) => SwapCall::V3(p.amount_in_for_out_call(zf1, amount_out)),
    }
}

} // verus!
