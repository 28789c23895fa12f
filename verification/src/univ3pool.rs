//! Uniswap V3 style concentrated-liquidity pools.
use vstd::prelude::*;
use crate::constants::{MIN_SQRT_PRICE, MAX_SQRT_PRICE};
use crate::types::{
    Address, U256, value, signed_value, abs, half_modulus, same_address, signed_is_positive,
    signed_unsigned_abs, signed_negate, parse_address, parsed_address, parse_u64, decimal_u64,
    parse_i64, decimal_i64, parse_word, parsed_word,
};

verus! {

/// An initialised tick of a V3 pool and the liquidity that crossing it adds.
#[derive(Debug, Clone, Copy)]
pub struct Tick {
    pub tick_idx: i64,
    pub liquidity_net: U256,
}

/// A token of a V3 pool.
#[derive(Debug)]
pub struct Token {
    pub id: Address,
    pub symbol: String,
    pub decimals: u64,
}

/// A V3 pool.
#[derive(Debug)]
pub struct UniV3Pool {
    pub id: Address,
    pub token0: Token,
    pub token1: Token,
    pub fee: u64,
    pub tick: i64,
    pub ticks: Vec<Tick>,
}

impl Clone for Token {
    fn clone(&self) -> (r: Self)
        ensures
            r == *self,
    {
        Token { id: self.id, symbol: self.symbol.clone(), decimals: self.decimals }
    }
}

impl UniV3Pool {
    /// Whether two pools hold the same fields and the same ticks.
    pub open spec fn same_as(self, other: UniV3Pool) -> bool {
        &&& self.id == other.id
        &&& self.token0 == other.token0
        &&& self.token1 == other.token1
        &&& self.fee == other.fee
        &&& self.tick == other.tick
        &&& self.ticks@ == other.ticks@
    }
}

impl Clone for UniV3Pool {
    fn clone(&self) -> (r: Self)
        ensures
            r.same_as(*self),
    {
        let mut ticks: Vec<Tick> = Vec::new();
        let mut i: usize = 0;
        while i < self.ticks.len()
            invariant
                0 <= i <= self.ticks.len(),
                ticks@ == self.ticks@.take(i as int),
            decreases self.ticks.len() - i,
        {
            ticks.push(self.ticks[i]);
            i = i + 1;
            assert(ticks@ =~= self.ticks@.take(i as int));
        }
        assert(ticks@ =~= self.ticks@);
        UniV3Pool {
            id: self.id,
            token0: self.token0.clone(),
            token1: self.token1.clone(),
            fee: self.fee,
            tick: self.tick,
            ticks,
        }
    }
}

/// A token as a pool list file names it.
pub struct RawToken {
    pub id: String,
    pub symbol: String,
    pub decimals: String,
}

/// A tick as a pool list file names it.
pub struct RawTick {
    pub tick_idx: String,
    pub liquidity_net: String,
}

/// A V3 pool as a pool list file names it, before its fields are read.
pub struct RawUniV3Pool {
    pub id: String,
    pub token0: RawToken,
    pub token1: RawToken,
    pub fee_tier: String,
    pub tick: String,
    pub ticks: Vec<RawTick>,
}

/// The tick read from a file record, if both of its numbers read.
pub open spec fn tick_from_raw(t: RawTick) -> Option<Tick> {
    match (decimal_i64(t.tick_idx@), parsed_word(t.liquidity_net@)) {
        (Some(tick_idx), Some(liquidity_net)) => Some(Tick { tick_idx, liquidity_net }),
        _ => None,
    }
}

/// Whether a token was read from a file record.
pub open spec fn token_read_from(token: Token, raw: RawToken) -> bool {
    &&& parsed_address(raw.id@) == Some(token.id)
    &&& token.symbol == raw.symbol
    &&& decimal_u64(raw.decimals@) == Some(token.decimals)
}

/// Whether each field of a file record reads.
pub open spec fn raw_pool_reads(pool: RawUniV3Pool) -> bool {
    &&& parsed_address(pool.id@) is Some
    &&& parsed_address(pool.token0.id@) is Some
    &&& decimal_u64(pool.token0.decimals@) is Some
    &&& parsed_address(pool.token1.id@) is Some
    &&& decimal_u64(pool.token1.decimals@) is Some
    &&& decimal_u64(pool.fee_tier@) is Some
    &&& decimal_i64(pool.tick@) is Some
    &&& forall|i: int| 0 <= i < pool.ticks.len() ==> (#[trigger] tick_from_raw(pool.ticks[i])) is Some
}

/// Whether a pool was read from a file record.
pub open spec fn pool_read_from(p: UniV3Pool, pool: RawUniV3Pool) -> bool {
    &&& parsed_address(pool.id@) == Some(p.id)
    &&& token_read_from(p.token0, pool.token0)
    &&& token_read_from(p.token1, pool.token1)
    &&& decimal_u64(pool.fee_tier@) == Some(p.fee)
    &&& decimal_i64(pool.tick@) == Some(p.tick)
    &&& p.ticks.len() == pool.ticks.len()
    &&& forall|i: int|
        0 <= i < pool.ticks.len() ==> tick_from_raw(pool.ticks[i]) == Some(#[trigger] p.ticks[i])
}

/// The square-root price bound of a swap: the least one when the price
/// falls (`token0` in), else the greatest.
pub open spec fn spec_sqrt_price_limit(zf1: bool) -> U256 {
    if zf1 {
        MIN_SQRT_PRICE
    } else {
        MAX_SQRT_PRICE
    }
}

/// The square-root price bound that a swap in the given direction runs to.
pub fn sqrt_price_limit(zf1: bool) -> (r: U256)
    ensures
        r == spec_sqrt_price_limit(zf1),
{
    if zf1 {
        MIN_SQRT_PRICE
    } else {
        MAX_SQRT_PRICE
    }
}

/// A call of the V3 swap simulator (`calcV3Swap`): a positive amount is an
/// exact input, a negative one an exact output, as a signed word.
#[derive(Debug, Clone, Copy)]
pub struct V3SwapCall {
    pub pool: Address,
    pub zero_for_one: bool,
    pub amount: U256,
    pub sqrt_price_limit: U256,
    pub exact_output: bool,
}

/// The amount that a simulated swap reports, from its two signed balance
/// deltas: for an exact input the delta that leaves the pool when the first
/// delta is positive, else the first; for an exact output the first delta
/// when it is positive, else the second; in absolute value either way.
pub open spec fn spec_amount_from_deltas(exact_output: bool, d0: U256, d1: U256) -> nat {
    if exact_output {
        if signed_value(d0) > 0 {
            abs(signed_value(d0))
        } else {
            abs(signed_value(d1))
        }
    } else {
        if signed_value(d0) > 0 {
            abs(signed_value(d1))
        } else {
            abs(signed_value(d0))
        }
    }
}

/// The simulator's deltas are what the pool receives (positive) and pays
/// (negative). Where one delta is positive and the other is not, an exact
/// input is answered with what the pool pays, and an exact output with what
/// it receives, whichever of the two is larger.
pub proof fn lemma_amount_is_the_right_delta(d0: U256, d1: U256)
    ensures
        signed_value(d0) > 0 && signed_value(d1) <= 0 ==> {
            &&& spec_amount_from_deltas(false, d0, d1) == abs(signed_value(d1))
            &&& spec_amount_from_deltas(true, d0, d1) == signed_value(d0)
        },
        signed_value(d1) > 0 && signed_value(d0) <= 0 ==> {
            &&& spec_amount_from_deltas(false, d0, d1) == abs(signed_value(d0))
            &&& spec_amount_from_deltas(true, d0, d1) == signed_value(d1)
        },
{
}

impl V3SwapCall {
    /// Whether the delta that the answer is read from is not the least
    /// signed word, whose absolute value does not fit in a signed word.
    pub open spec fn reply_readable(self, d0: U256, d1: U256) -> bool {
        let chosen = if self.exact_output {
            if signed_value(d0) > 0 {
                d0
            } else {
                d1
            }
        } else {
            if signed_value(d0) > 0 {
                d1
            } else {
                d0
            }
        };
        signed_value(chosen) != -(half_modulus() as int)
    }

    /// Reads the amount out of the simulator's two balance deltas.
    pub fn amount_from_deltas(&self, d0: U256, d1: U256) -> (r: U256)
        requires
            self.reply_readable(d0, d1),
        ensures
            value(r) == spec_amount_from_deltas(self.exact_output, d0, d1),
    {
        let first_positive = signed_is_positive(&d0);
        if self.exact_output {
            if first_positive {
                signed_unsigned_abs(d0)
            } else {
                signed_unsigned_abs(d1)
            }
        } else {
            if first_positive {
                signed_unsigned_abs(d1)
            } else {
                signed_unsigned_abs(d0)
            }
        }
    }
}

impl UniV3Pool {
    /// Reads the fields of a file record; `None` where one does not read.
    pub fn from_univ3pool(pool: RawUniV3Pool) -> (r: Option<UniV3Pool>)
        ensures
            r is Some <==> raw_pool_reads(pool),
            r matches Some(p) ==> pool_read_from(p, pool),
    {
        let id = parse_address(pool.id.as_str())?;
        let token0_id = parse_address(pool.token0.id.as_str())?;
        let token0_decimals = parse_u64(pool.token0.decimals.as_str())?;
        let token1_id = parse_address(pool.token1.id.as_str())?;
        let token1_decimals = parse_u64(pool.token1.decimals.as_str())?;
        let fee = parse_u64(pool.fee_tier.as_str())?;
        let tick = parse_i64(pool.tick.as_str())?;
        let mut ticks: Vec<Tick> = Vec::new();
        let mut i: usize = 0;
        while i < pool.ticks.len()
            invariant
                0 <= i <= pool.ticks.len(),
                ticks.len() == i,
                forall|j: int|
                    0 <= j < i ==> tick_from_raw(pool.ticks[j]) == Some(#[trigger] ticks[j]),
            decreases pool.ticks.len() - i,
        {
            let tick_idx = match parse_i64(pool.ticks[i].tick_idx.as_str()) {
                Some(t) => t,
                None => {
                    assert(tick_from_raw(pool.ticks[i as int]) is None);
                    return None;
                },
            };
            let liquidity_net = match parse_word(pool.ticks[i].liquidity_net.as_str()) {
                Some(l) => l,
                None => {
                    assert(tick_from_raw(pool.ticks[i as int]) is None);
                    return None;
                },
            };
            ticks.push(Tick { tick_idx, liquidity_net });
            i = i + 1;
        }
        assert forall|j: int| 0 <= j < pool.ticks.len() implies (#[trigger] tick_from_raw(
            pool.ticks[j],
        )) is Some by {
            assert(tick_from_raw(pool.ticks[j]) == Some(ticks[j]));
        }
        let token0 = Token { id: token0_id, symbol: pool.token0.symbol, decimals: token0_decimals };
        let token1 = Token { id: token1_id, symbol: pool.token1.symbol, decimals: token1_decimals };
        Some(UniV3Pool { id, token0, token1, fee, tick, ticks })
    }

    /// The token that a swap into the pool gives back: `token1` for an input
    /// of `token0`, and `token0` for any other input.
    pub fn token_out(&self, token_in: &Address) -> (r: &Address)
        ensures
            *r == (if *token_in == self.token0.id {
                self.token1.id
            } else {
                self.token0.id
            }),
    {
        if same_address(token_in, &self.token0.id) {
            &self.token1.id
        } else {
            &self.token0.id
        }
    }

    /// Whether a swap with this input goes from `token0` to `token1`.
    pub fn zf1(&self, token_in: &Address) -> (r: bool)
        ensures
            r == (*token_in == self.token0.id),
    {
        same_address(token_in, &self.token0.id)
    }

    /// The simulator call that prices an exact input of `amount_in` of
    /// `token_in`. The amount must fit in a signed word, since the call
    /// takes it as one.
    pub fn amount_out_call(&self, token_in: &Address, amount_in: U256) -> (r: V3SwapCall)
        requires
            value(amount_in) < half_modulus(),
        ensures
            r.pool == self.id,
            r.zero_for_one == (*token_in == self.token0.id),
            r.amount == amount_in,
            signed_value(r.amount) == value(amount_in),
            r.sqrt_price_limit == spec_sqrt_price_limit(r.zero_for_one),
            !r.exact_output,
    {
        let zero_for_one = self.zf1(token_in);
        let spl = sqrt_price_limit(zero_for_one);
        V3SwapCall {
            pool: self.id,
            zero_for_one,
            amount: amount_in,
            sqrt_price_limit: spl,
            exact_output: false,
        }
    }

    /// The simulator call that prices an exact output of `amount_out` in the
    /// given direction: the amount goes in negated. It must fit in a signed
    /// word, since the call takes it as one.
    pub fn amount_in_for_out_call(&self, direction: bool, amount_out: U256) -> (r: V3SwapCall)
        requires
            value(amount_out) < half_modulus(),
        ensures
            r.pool == self.id,
            r.zero_for_one == direction,
            signed_value(r.amount) == -(value(amount_out) as int),
            r.sqrt_price_limit == spec_sqrt_price_limit(direction),
            r.exact_output,
    {
        let spl = sqrt_price_limit(direction);
        assert(signed_value(amount_out) == value(amount_out));
        let amount = signed_negate(amount_out);
        V3SwapCall {
            pool: self.id,
            zero_for_one: direction,
            amount,
            sqrt_price_limit: spl,
            exact_output: true,
        }
    }
}

} // verus!
