//! Uniswap V2 style constant-product pools.
use vstd::prelude::*;
use crate::constants::ZERO;
use crate::types::{
    Address, U256, value, word_modulus, word_is_zero, word_from_u64, word_checked_mul,
    word_checked_add, word_div, same_address, parse_address, parsed_address,
};

verus! {

/// One side of a V2 pair: the token and how much of it the pair holds.
#[derive(Debug, Clone, Copy)]
pub struct TokenV2 {
    pub id: Address,
    pub reserves: U256,
}

/// A V2 pair.
#[derive(Debug, Clone, Copy)]
pub struct UniV2Pool {
    pub id: Address,
    pub token0: TokenV2,
    pub token1: TokenV2,
}

/// A token as a pool list file names it.
pub struct RawTokenV2 {
    pub id: String,
}

/// A pair as a pool list file names it, before its addresses are read.
pub struct RawUniV2Pool {
    pub id: String,
    pub token0: RawTokenV2,
    pub token1: RawTokenV2,
}

/// A call of the V2 pricing contract (`calcUniv2AmountOut`) for an exact input.
#[derive(Debug, Clone, Copy)]
pub struct V2SwapCall {
    pub pool: Address,
    pub zero_for_one: bool,
    pub amount: U256,
}

/// What `UniswapV2Library.getAmountOut` gives for an input amount and the
/// two reserves: zero for a zero input or an empty reserve, and zero where a
/// step of the checked 256-bit arithmetic overflows (the contract reverts);
/// otherwise the input less the 0.3% fee, swapped along the constant product.
pub open spec fn v2_amount_out(amount_in: nat, reserve_in: nat, reserve_out: nat) -> nat {
    let with_fee = amount_in * 997;
    let numerator = with_fee * reserve_out;
    let scaled = reserve_in * 1000;
    let denominator = scaled + with_fee;
    if amount_in == 0 || reserve_in == 0 || reserve_out == 0 || with_fee >= word_modulus()
        || numerator >= word_modulus() || scaled >= word_modulus() || denominator
        >= word_modulus() {
        0
    } else {
        numerator / denominator
    }
}

/// A swap never pays out the whole reserve that it is paid from.
pub proof fn lemma_amount_out_below_reserve(amount_in: nat, reserve_in: nat, reserve_out: nat)
    requires
        reserve_out > 0,
    ensures
        v2_amount_out(amount_in, reserve_in, reserve_out) < reserve_out,
{
    let with_fee = amount_in * 997;
    let numerator = with_fee * reserve_out;
    let denominator = reserve_in * 1000 + with_fee;
    if v2_amount_out(amount_in, reserve_in, reserve_out) != 0 {
        assert(numerator / denominator < reserve_out) by (nonlinear_arith)
            requires
                reserve_in > 0,
                reserve_out > 0,
                numerator == with_fee * reserve_out,
                denominator == reserve_in * 1000 + with_fee,
                with_fee >= 0,
        {
            assert(denominator > with_fee);
            assert(numerator < denominator * reserve_out);
            assert(denominator > 0);
            assert((numerator / denominator) * denominator <= numerator);
        }
    }
}

/// A swap that goes through keeps the constant product with the 0.3% fee:
/// the reserves after it, the input counted at 99.7%, hold at least the
/// product they held before, and paying out one unit more would break that.
pub proof fn lemma_amount_out_keeps_product(amount_in: nat, reserve_in: nat, reserve_out: nat)
    requires
        v2_amount_out(amount_in, reserve_in, reserve_out) > 0,
    ensures
        ({
            let out = v2_amount_out(amount_in, reserve_in, reserve_out);
            let before = (reserve_in * 1000) * reserve_out;
            &&& out < reserve_out
            &&& (reserve_in * 1000 + amount_in * 997) * (reserve_out - out) >= before
            &&& (reserve_in * 1000 + amount_in * 997) * (reserve_out - out - 1) < before
        }),
{
    lemma_amount_out_below_reserve(amount_in, reserve_in, reserve_out);
    let f = amount_in * 997;
    let n = f * reserve_out;
    let d = reserve_in * 1000 + f;
    let out = v2_amount_out(amount_in, reserve_in, reserve_out);
    assert(out == n / d);
    assert(d > 0) by (nonlinear_arith)
        requires
            reserve_in > 0,
            d == reserve_in * 1000 + f,
            f >= 0,
    ;
    assert(out * d <= n && n < (out + 1) * d) by (nonlinear_arith)
        requires
            d > 0,
            out == n / d,
            n >= 0,
    ;
    assert(d * (reserve_out - out) >= (reserve_in * 1000) * reserve_out) by (nonlinear_arith)
        requires
            out * d <= n,
            n == f * reserve_out,
            d == reserve_in * 1000 + f,
    ;
    assert(d * (reserve_out - out - 1) < (reserve_in * 1000) * reserve_out) by (nonlinear_arith)
        requires
            n < (out + 1) * d,
            n == f * reserve_out,
            d == reserve_in * 1000 + f,
    ;
}

/// A larger input never pays less, as long as the larger one goes through.
pub proof fn lemma_amount_out_monotonic(a1: nat, a2: nat, reserve_in: nat, reserve_out: nat)
    requires
        0 < a1 <= a2,
        v2_amount_out(a2, reserve_in, reserve_out) != 0,
    ensures
        v2_amount_out(a1, reserve_in, reserve_out) <= v2_amount_out(a2, reserve_in, reserve_out),
{
    let f1 = a1 * 997;
    let f2 = a2 * 997;
    let n1 = f1 * reserve_out;
    let n2 = f2 * reserve_out;
    let d1 = reserve_in * 1000 + f1;
    let d2 = reserve_in * 1000 + f2;
    assert(f1 <= f2 && n1 <= n2 && d1 <= d2) by (nonlinear_arith)
        requires
            a1 <= a2,
            f1 == a1 * 997,
            f2 == a2 * 997,
            n1 == f1 * reserve_out,
            n2 == f2 * reserve_out,
            d1 == reserve_in * 1000 + f1,
            d2 == reserve_in * 1000 + f2,
    ;
    assert(n1 * d2 <= n2 * d1) by (nonlinear_arith)
        requires
            f1 <= f2,
            n1 == f1 * reserve_out,
            n2 == f2 * reserve_out,
            d1 == reserve_in * 1000 + f1,
            d2 == reserve_in * 1000 + f2,
            reserve_in >= 0,
            reserve_out >= 0,
            f1 >= 0,
    {
        assert(f1 * d2 == f1 * reserve_in * 1000 + f1 * f2);
        assert(f2 * d1 == f2 * reserve_in * 1000 + f2 * f1);
        assert(f1 * reserve_in * 1000 <= f2 * reserve_in * 1000);
        assert(f1 * d2 <= f2 * d1);
        assert(n1 * d2 == (f1 * d2) * reserve_out);
        assert(n2 * d1 == (f2 * d1) * reserve_out);
    }
    assert(n1 / d1 <= n2 / d2) by (nonlinear_arith)
        requires
            n1 * d2 <= n2 * d1,
            d1 > 0,
            d2 > 0,
            n1 >= 0,
            n2 >= 0,
    {
        let q = n1 / d1;
        assert(q * d1 <= n1);
        assert(q * d1 * d2 <= n1 * d2);
        assert(q * d2 * d1 <= n2 * d1);
        assert(q * d2 <= n2);
    }
}

impl UniV2Pool {
    /// The reserve that an amount goes into, for a swap in the given
    /// direction: with `zf1` the reserve of `token1`, else that of `token0`.
    pub open spec fn reserve_in(self, zf1: bool) -> U256 {
        if zf1 {
            self.token1.reserves
        } else {
            self.token0.reserves
        }
    }

    /// The reserve that the output comes from, for a swap in the given direction.
    pub open spec fn reserve_out(self, zf1: bool) -> U256 {
        if zf1 {
            self.token0.reserves
        } else {
            self.token1.reserves
        }
    }

    /// The pair built from a file record, if each of its three addresses reads.
    pub open spec fn spec_from_raw(pool: RawUniV2Pool) -> Option<UniV2Pool> {
        match (
            parsed_address(pool.id@),
            parsed_address(pool.token0.id@),
            parsed_address(pool.token1.id@),
        ) {
            (Some(id), Some(t0), Some(t1)) => Some(
                UniV2Pool {
                    id,
                    token0: TokenV2 { id: t0, reserves: ZERO },
                    token1: TokenV2 { id: t1, reserves: ZERO },
                },
            ),
            _ => None,
        }
    }

    /// Reads the addresses of a file record; the reserves start at zero.
    /// `None` where an address does not read.
    pub fn from_univ2pool(pool: RawUniV2Pool) -> (r: Option<UniV2Pool>)
        ensures
            r == Self::spec_from_raw(pool),
    {
        let id = parse_address(pool.id.as_str())?;
        let token0_id = parse_address(pool.token0.id.as_str())?;
        let token0 = TokenV2 { id: token0_id, reserves: ZERO };
        let token1_id = parse_address(pool.token1.id.as_str())?;
        let token1 = TokenV2 { id: token1_id, reserves: ZERO };
        Some(UniV2Pool { id, token0, token1 })
    }

    /// The token that a swap into the pair gives back: `token1` for an input
    /// of `token0`, and `token0` for any other input.
    pub fn token_out(&self, token_in: &Address) -> (r: &Address)
        ensures
            *r == (if *token_in == self.token0.id {
                self.token1.id
            } else {
                self.token0.id
            }),
    {
        if same_address(token_in, &self.token0.id) {
            &self.token1.id
        } else {
            &self.token0.id
        }
    }

    /// Whether a swap with this input goes from `token0` to `token1`.
    pub fn zf1(&self, token_in: &Address) -> (r: bool)
        ensures
            r == (*token_in == self.token0.id),
    {
        same_address(token_in, &self.token0.id)
    }

    /// The pricing call for an exact input of `amount_in` of `token_in`.
    pub fn amount_out_call(&self, token_in: &Address, amount: U256) -> (r: V2SwapCall)
        ensures
            r == (V2SwapCall {
                pool: self.id,
                zero_for_one: *token_in == self.token0.id,
                amount,
            }),
    {
        V2SwapCall { pool: self.id, zero_for_one: self.zf1(token_in), amount }
    }

    /// The amount that the pair pays out for `amount_in`, computed from the
    /// stored reserves as the V2 router computes it, and zero where the
    /// router would revert.
    pub fn get_amount_out(&self, zf1: bool, amount_in: U256) -> (r: U256)
        ensures
            value(r) == v2_amount_out(
                value(amount_in),
                value(self.reserve_in(zf1)),
                value(self.reserve_out(zf1)),
            ),
    {
        let reserve_in = if zf1 {
            self.token1.reserves
        } else {
            self.token0.reserves
        };
        let reserve_out = if zf1 {
            self.token0.reserves
        } else {
            self.token1.reserves
        };
        if word_is_zero(&amount_in) || word_is_zero(&reserve_in) || word_is_zero(&reserve_out) {
            return ZERO;
        }
        let with_fee = match word_checked_mul(amount_in, word_from_u64(997)) {
            Some(x) => x,
            None => {
                return ZERO;
            },
        };
        let numerator = match word_checked_mul(with_fee, reserve_out) {
            Some(x) => x,
            None => {
                return ZERO;
            },
        };
        let scaled = match word_checked_mul(reserve_in, word_from_u64(1000)) {
            Some(x) => x,
            None => {
                return ZERO;
            },
        };
        let denominator = match word_checked_add(scaled, with_fee) {
            Some(x) => x,
            None => {
                return ZERO;
            },
        };
        word_div(numerator, denominator)
    }

    /// The pairs that a factory query lists, one per `[token0, token1, pair]`
    /// triple, with empty reserves, and their addresses in the same order.
    pub fn from_pairs(pairs: &Vec<[Address; 3]>) -> (r: (Vec<UniV2Pool>, Vec<Address>))
        ensures
            r.0.len() == pairs.len(),
            r.1.len() == pairs.len(),
            forall|i: int|
                0 <= i < pairs.len() ==> (#[trigger] r.0[i]) == (UniV2Pool {
                    id: pairs[i][2],
                    token0: TokenV2 { id: pairs[i][0], reserves: ZERO },
                    token1: TokenV2 { id: pairs[i][1], reserves: ZERO },
                }),
            forall|i: int| 0 <= i < pairs.len() ==> (#[trigger] r.1[i]) == pairs[i][2],
    {
        let mut pools: Vec<UniV2Pool> = Vec::new();
        let mut addrs: Vec<Address> = Vec::new();
        let mut i: usize = 0;
        while i < pairs.len()
            invariant
                0 <= i <= pairs.len(),
                pools.len() == i,
                addrs.len() == i,
                forall|j: int|
                    0 <= j < i ==> (#[trigger] pools[j]) == (UniV2Pool {
                        id: pairs[j][2],
                        token0: TokenV2 { id: pairs[j][0], reserves: ZERO },
                        token1: TokenV2 { id: pairs[j][1], reserves: ZERO },
                    }),
                forall|j: int| 0 <= j < i ==> (#[trigger] addrs[j]) == pairs[j][2],
            decreases pairs.len() - i,
        {
            let triple = pairs[i];
            let token0 = TokenV2 { id: triple[0], reserves: ZERO };
            let token1 = TokenV2 { id: triple[1], reserves: ZERO };
            pools.push(UniV2Pool { id: triple[2], token0, token1 });
            addrs.push(triple[2]);
            i = i + 1;
        }
        (pools, addrs)
    }

    /// Stores the reserves that a reserve query gave, the `i`-th answer for
    /// the `i`-th pair: its first two numbers are the reserves of `token0`
    /// and `token1`. Pairs past the answers keep their reserves.
    pub fn set_reserves(pools: &mut Vec<UniV2Pool>, reserves: &Vec<[U256; 3]>)
        requires
            reserves.len() <= old(pools).len(),
        ensures
            final(pools).len() == old(pools).len(),
            forall|i: int|
                0 <= i < reserves.len() ==> (#[trigger] final(pools)[i]) == (UniV2Pool {
                    id: old(pools)[i].id,
                    token0: TokenV2 { id: old(pools)[i].token0.id, reserves: reserves[i][0] },
                    token1: TokenV2 { id: old(pools)[i].token1.id, reserves: reserves[i][1] },
                }),
            forall|i: int|
                reserves.len() <= i < old(pools).len() ==> (#[trigger] final(pools)[i])
                    == old(pools)[i],
    {
        let mut i: usize = 0;
        while i < reserves.len()
            invariant
                0 <= i <= reserves.len(),
                reserves.len() <= old(pools).len(),
                pools.len() == old(pools).len(),
                forall|j: int|
                    0 <= j < i ==> (#[trigger] pools[j]) == (UniV2Pool {
                        id: old(pools)[j].id,
                        token0: TokenV2 { id: old(pools)[j].token0.id, reserves: reserves[j][0] },
                        token1: TokenV2 { id: old(pools)[j].token1.id, reserves: reserves[j][1] },
                    }),
                forall|j: int| i <= j < old(pools).len() ==> (#[trigger] pools[j]) == old(pools)[j],
            decreases reserves.len() - i,
        {
            let answer = reserves[i];
            let old_pool = pools[i];
            let token0 = TokenV2 { id: old_pool.token0.id, reserves: answer[0] };
            let token1 = TokenV2 { id: old_pool.token1.id, reserves: answer[1] };
            pools.set(i, UniV2Pool { id: old_pool.id, token0, token1 });
            i = i + 1;
        }
    }
}

} // verus!
