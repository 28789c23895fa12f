//! Pools of either kind, and the bookkeeping that keeps their reserves current.
use vstd::prelude::*;
use ahash::AHashMap;
use crate::types::{Address, U256, value, half_modulus, same_address};
use crate::univ2pool::{TokenV2, UniV2Pool, V2SwapCall};
use crate::univ3pool::{UniV3Pool, V3SwapCall};
use crate::maps::{address_index_map, address_index_get};

verus! {

/// A pool of either kind.
#[derive(Debug)]
pub enum Pool {
    V3(UniV3Pool),
    V2(UniV2Pool),
}

impl Clone for Pool {
    fn clone(&self) -> (r: Self)
        ensures
            r.same_as(*self),
    {
        match self {
            Pool::V3(p) => Pool::V3(p.clone()),
            Pool::V2(p) => Pool::V2(*p),
        }
    }
}

/// Two pools are equal when they have the same address.
impl PartialEq for Pool {
    fn eq(&self, other: &Self) -> (r: bool) {
        same_address(self.addr(), other.addr())
    }
}

impl vstd::std_specs::cmp::PartialEqSpecImpl for Pool {
    open spec fn obeys_eq_spec() -> bool {
        true
    }

    open spec fn eq_spec(&self, other: &Self) -> bool {
        self.spec_addr() == other.spec_addr()
    }
}

/// A pricing call for a pool of either kind.
#[derive(Debug, Clone, Copy)]
pub enum SwapCall {
    V2(V2SwapCall),
    V3(V3SwapCall),
}

impl Pool {
    /// The pool's first token.
    pub open spec fn spec_token0(self) -> Address {
        match self {
            Pool::V2(p) => p.token0.id,
            Pool::V3(p) => p.token0.id,
        }
    }

    /// The pool's second token.
    pub open spec fn spec_token1(self) -> Address {
        match self {
            Pool::V2(p) => p.token1.id,
            Pool::V3(p) => p.token1.id,
        }
    }

    /// The pool's own address.
    pub open spec fn spec_addr(self) -> Address {
        match self {
            Pool::V2(p) => p.id,
            Pool::V3(p) => p.id,
        }
    }

    /// The token that a swap of `token_in` into the pool gives back.
    pub open spec fn spec_token_out(self, token_in: Address) -> Address {
        if token_in == self.spec_token0() {
            self.spec_token1()
        } else {
            self.spec_token0()
        }
    }

    /// Whether two pools are of the same kind and hold the same data.
    pub open spec fn same_as(self, other: Pool) -> bool {
        match (self, other) {
            (Pool::V2(a), Pool::V2(b)) => a == b,
            (Pool::V3(a), Pool::V3(b)) => a.same_as(b),
            _ => false,
        }
    }

    /// The token that a swap of `token_in` into the pool gives back.
    pub fn token_out(&self, token_in: &Address) -> (r: &Address)
        ensures
            *r == self.spec_token_out(*token_in),
    {
        match self {
            Pool::V2(pooldata) => pooldata.token_out(token_in),
            Pool::V3(pooldata) => pooldata.token_out(token_in),
        }
    }

    /// The pool's first token.
    pub fn token0(&self) -> (r: &Address)
        ensures
            *r == self.spec_token0(),
    {
        match self {
            Pool::V2(pool) => &pool.token0.id,
            Pool::V3(pool) => &pool.token0.id,
        }
    }

    /// The pool's second token.
    pub fn token1(&self) -> (r: &Address)
        ensures
            *r == self.spec_token1(),
    {
        match self {
            Pool::V2(pool) => &pool.token1.id,
            Pool::V3(pool) => &pool.token1.id,
        }
    }

    /// The pool's own address.
    pub fn addr(&self) -> (r: &Address)
        ensures
            *r == self.spec_addr(),
    {
        match self {
            Pool::V2(pool) => &pool.id,
            Pool::V3(pool) => &pool.id,
        }
    }

    /// The pricing call for an exact input of `amount` of `token_in`. A V3
    /// pool takes the amount as a signed word, so it must fit in one.
    pub fn amount_out_call(&self, token_in: &Address, amount: U256) -> (r: SwapCall)
        requires
            self is V3 ==> value(amount) < half_modulus(),
        ensures
            match (*self, r) {
                (Pool::V2(p), SwapCall::V2(c)) => c == (V2SwapCall {
                    pool: p.id,
                    zero_for_one: *token_in == p.token0.id,
                    amount,
                }),
                (Pool::V3(p), SwapCall::V3(c)) => {
                    &&& c.pool == p.id
                    &&& c.zero_for_one == (*token_in == p.token0.id)
                    &&& c.amount == amount
                    &&& c.sqrt_price_limit == crate::univ3pool::spec_sqrt_price_limit(
                        c.zero_for_one,
                    )
                    &&& !c.exact_output
                },
                _ => false,
            },
    {
        match self {
            Pool::V2(pool) => SwapCall::V2(pool.amount_out_call(token_in, amount)),
            Pool::V3(pool) => {
                SwapCall::V3(pool.amount_out_call(token_in, amount))
            },
        }
    }

    /// The V2 pools among the pools that a set of touched addresses names,
    /// in the order that the addresses come, with the pool addresses.
    pub fn update_targets(pools: &Vec<Pool>, set: &AHashMap<Address, usize>, touched: &Vec<
        Address,
    >) -> (r: (Vec<Address>, Vec<usize>))
        requires
            forall|k: int|
                0 <= k < touched.len() && address_index_map(*set).contains_key(#[trigger] touched[k])
                    ==> address_index_map(*set)[touched[k]] < pools.len(),
        ensures
            r.1@ == update_indices(pools@, address_index_map(*set), touched@),
            r.0.len() == r.1.len(),
            forall|i: int| 0 <= i < r.0.len() ==> (#[trigger] r.0[i]) == pools[r.1[i] as int].spec_addr(),
    {
        let mut pools_to_update: Vec<Address> = Vec::new();
        let mut pool_indices: Vec<usize> = Vec::new();
        let ghost set_map = address_index_map(*set);
        let mut k: usize = 0;
        while k < touched.len()
            invariant
                0 <= k <= touched.len(),
                set_map == address_index_map(*set),
                forall|kk: int|
                    0 <= kk < touched.len() && set_map.contains_key(#[trigger] touched[kk]) ==> set_map[touched[kk]]
                        < pools.len(),
                pool_indices@ == update_indices(pools@, set_map, touched@.take(k as int)),
                pools_to_update.len() == pool_indices.len(),
                forall|i: int|
                    0 <= i < pools_to_update.len() ==> (#[trigger] pools_to_update[i])
                        == pools[pool_indices[i] as int].spec_addr(),
            decreases touched.len() - k,
        {
            assert(touched@.take(k + 1).drop_last() =~= touched@.take(k as int));
            if let Some(index) = address_index_get(set, &touched[k]) {
                match &pools[index] {
                    Pool::V2(p) => {
                        pools_to_update.push(p.id);
                        pool_indices.push(index);
                    },
                    Pool::V3(_) => {},
                }
            }
            k = k + 1;
        }
        assert(touched@.take(touched.len() as int) =~= touched@);
        (pools_to_update, pool_indices)
    }

    /// Stores the answers of a reserve query: the `i`-th answer holds the
    /// two reserves of the pool at the `i`-th index. V3 pools stay as they
    /// are; a later answer for the same pool wins.
    pub fn apply_reserves(pools: &mut Vec<Pool>, indices: &Vec<usize>, reserves: &Vec<[U256; 3]>)
        requires
            reserves.len() <= indices.len(),
            forall|i: int| 0 <= i < reserves.len() ==> (#[trigger] indices[i]) < old(pools).len(),
        ensures
            final(pools)@ == reserves_applied(old(pools)@, indices@, reserves@, reserves.len() as nat),
    {
        let mut i: usize = 0;
        while i < reserves.len()
            invariant
                0 <= i <= reserves.len(),
                reserves.len() <= indices.len(),
                forall|j: int| 0 <= j < reserves.len() ==> (#[trigger] indices[j]) < old(pools).len(),
                pools@ == reserves_applied(old(pools)@, indices@, reserves@, i as nat),
            decreases reserves.len() - i,
        {
            proof {
                lemma_reserves_applied_len(old(pools)@, indices@, reserves@, i as nat);
            }
            let index = indices[i];
            let answer = reserves[i];
            let current = match &pools[index] {
                Pool::V2(p) => Some(*p),
                Pool::V3(_) => None,
            };
            if let Some(p) = current {
                let token0 = TokenV2 { id: p.token0.id, reserves: answer[0] };
                let token1 = TokenV2 { id: p.token1.id, reserves: answer[1] };
                pools.set(index, Pool::V2(UniV2Pool { id: p.id, token0, token1 }));
            }
            i = i + 1;
        }
    }

    /// Puts the V3 pools first and the V2 pools after them, each in order.
    pub fn collect_pools(v3: Vec<UniV3Pool>, v2: Vec<UniV2Pool>) -> (r: Vec<Pool>)
        ensures
            r.len() == v3.len() + v2.len(),
            forall|i: int| 0 <= i < v3.len() ==> r[i] == Pool::V3(#[trigger] v3[i]),
            forall|i: int| 0 <= i < v2.len() ==> r[v3.len() + i] == Pool::V2(#[trigger] v2[i]),
    {
        let mut pools: Vec<Pool> = Vec::new();
        for pool in iter: v3
            invariant
                iter.seq() == v3@,
                pools.len() == iter.index(),
                forall|i: int| 0 <= i < iter.index() ==> pools[i] == Pool::V3(#[trigger] v3[i]),
        {
            pools.push(Pool::V3(pool));
        }
        for pool in iter: v2
            invariant
                iter.seq() == v2@,
                pools.len() == v3.len() + iter.index(),
                forall|i: int| 0 <= i < v3.len() ==> pools[i] == Pool::V3(#[trigger] v3[i]),
                forall|i: int| 0 <= i < iter.index() ==> pools[v3.len() + i] == Pool::V2(#[trigger] v2[i]),
        {
            pools.push(Pool::V2(pool));
        }
        pools
    }
}

/// Swapping back what a swap gave returns the token that went in, for a
/// pool of two different tokens.
pub proof fn lemma_token_out_round_trip(pool: Pool, token_in: Address)
    requires
        token_in == pool.spec_token0() || token_in == pool.spec_token1(),
        pool.spec_token0() != pool.spec_token1(),
    ensures
        pool.spec_token_out(pool.spec_token_out(token_in)) == token_in,
        pool.spec_token_out(token_in) != token_in,
{
}

/// Each pool that a block update selects is a V2 pool whose address the
/// block touched.
pub proof fn lemma_update_targets_touched(pools: Seq<Pool>, set: Map<Address, usize>, touched: Seq<Address>)
    requires
        forall|a: Address|
            #[trigger] set.contains_key(a) ==> set[a] < pools.len() && pools[set[a] as int].spec_addr()
                == a,
    ensures
        forall|i: int|
            0 <= i < update_indices(pools, set, touched).len() ==> {
                let idx = #[trigger] update_indices(pools, set, touched)[i];
                &&& idx < pools.len()
                &&& pools[idx as int] is V2
                &&& touched.contains(pools[idx as int].spec_addr())
            },
    decreases touched.len(),
{
    if touched.len() > 0 {
        let d = touched.drop_last();
        lemma_update_targets_touched(pools, set, d);
        let prev = update_indices(pools, set, d);
        let cur = update_indices(pools, set, touched);
        assert forall|i: int| 0 <= i < cur.len() implies {
            let idx = #[trigger] cur[i];
            &&& idx < pools.len()
            &&& pools[idx as int] is V2
            &&& touched.contains(pools[idx as int].spec_addr())
        } by {
            if i < prev.len() {
                assert(cur[i] == prev[i]);
                let a = pools[prev[i] as int].spec_addr();
                let k = choose|k: int| 0 <= k < d.len() && d[k] == a;
                assert(touched[k] == d[k]);
            } else {
                assert(touched[touched.len() - 1] == touched.last());
            }
        }
    }
}

/// The pool indices that a list of touched addresses selects: each address
/// that the set maps to a V2 pool, in order.
pub open spec fn update_indices(pools: Seq<Pool>, set: Map<Address, usize>, touched: Seq<Address>) -> Seq<usize>
    decreases touched.len(),
{
    if touched.len() == 0 {
        Seq::empty()
    } else {
        let prev = update_indices(pools, set, touched.drop_last());
        let a = touched.last();
        if set.contains_key(a) && pools[set[a] as int] is V2 {
            prev.push(set[a])
        } else {
            prev
        }
    }
}

/// The pools after the first `k` answers of a reserve query are stored.
pub open spec fn reserves_applied(pools: Seq<Pool>, indices: Seq<usize>, reserves: Seq<[U256; 3]>, k: nat) -> Seq<Pool>
    decreases k,
{
    if k == 0 {
        pools
    } else {
        let prev = reserves_applied(pools, indices, reserves, (k - 1) as nat);
        let index = indices[k - 1] as int;
        let answer = reserves[k - 1];
        match prev[index] {
            Pool::V2(p) => prev.update(
                index,
                Pool::V2(
                    UniV2Pool {
                        id: p.id,
                        token0: TokenV2 { id: p.token0.id, reserves: answer[0] },
                        token1: TokenV2 { id: p.token1.id, reserves: answer[1] },
                    },
                ),
            ),
            Pool::V3(_) => prev,
        }
    }
}

/// Storing answers keeps the number of pools.
pub proof fn lemma_reserves_applied_len(pools: Seq<Pool>, indices: Seq<usize>, reserves: Seq<[U256; 3]>, k: nat)
    requires
        k <= indices.len(),
        forall|j: int| 0 <= j < k ==> (#[trigger] indices[j]) < pools.len(),
    ensures
        reserves_applied(pools, indices, reserves, k).len() == pools.len(),
    decreases k,
{
    if k > 0 {
        lemma_reserves_applied_len(pools, indices, reserves, (k - 1) as nat);
    }
}

/// The pools of a save file and the block they were current at.
pub struct PoolSave {
    pub pools: Vec<Pool>,
    pub block: u64,
}

/// The last of the first `k` answers that is meant for pool `p`, or -1
/// where none is.
pub open spec fn last_answer_for(indices: Seq<usize>, p: int, k: nat) -> int
    decreases k,
{
    if k == 0 {
        -1
    } else if indices[k - 1] as int == p {
        k - 1
    } else {
        last_answer_for(indices, p, (k - 1) as nat)
    }
}

/// The pool as the first `k` answers leave it: a V2 pool that some answer is
/// meant for holds the reserves of the last such answer; every other pool is
/// as it was.
pub open spec fn pool_after_answers(
    pools: Seq<Pool>,
    indices: Seq<usize>,
    reserves: Seq<[U256; 3]>,
    k: nat,
    p: int,
) -> Pool {
    let j = last_answer_for(indices, p, k);
    match pools[p] {
        Pool::V2(q) => if j >= 0 {
            Pool::V2(
                UniV2Pool {
                    id: q.id,
                    token0: TokenV2 { id: q.token0.id, reserves: reserves[j][0] },
                    token1: TokenV2 { id: q.token1.id, reserves: reserves[j][1] },
                },
            )
        } else {
            pools[p]
        },
        Pool::V3(_) => pools[p],
    }
}

/// Storing answers one after the other leaves each V2 pool with the
/// reserves of the last answer meant for it, and every other pool as it was.
pub proof fn lemma_reserves_applied_last_answer(
    pools: Seq<Pool>,
    indices: Seq<usize>,
    reserves: Seq<[U256; 3]>,
    k: nat,
)
    requires
        k <= indices.len(),
        k <= reserves.len(),
        forall|j: int| 0 <= j < k ==> (#[trigger] indices[j]) < pools.len(),
    ensures
        reserves_applied(pools, indices, reserves, k).len() == pools.len(),
        forall|p: int|
            0 <= p < pools.len() ==> #[trigger] reserves_applied(pools, indices, reserves, k)[p]
                == pool_after_answers(pools, indices, reserves, k, p),
    decreases k,
{
    lemma_reserves_applied_len(pools, indices, reserves, k);
    if k > 0 {
        let k1 = (k - 1) as nat;
        lemma_reserves_applied_last_answer(pools, indices, reserves, k1);
        lemma_reserves_applied_len(pools, indices, reserves, k1);
        let prev = reserves_applied(pools, indices, reserves, k1);
        let index = indices[k - 1] as int;
        assert forall|p: int| 0 <= p < pools.len() implies #[trigger] reserves_applied(
            pools,
            indices,
            reserves,
            k,
        )[p] == pool_after_answers(pools, indices, reserves, k, p) by {
            assert(prev[p] == pool_after_answers(pools, indices, reserves, k1, p));
            assert(prev[index] == pool_after_answers(pools, indices, reserves, k1, index));
            if p != index {
                assert(last_answer_for(indices, p, k) == last_answer_for(indices, p, k1));
            }
        }
    }
}

/// Every touched address that indexes a V2 pool selects that pool for a
/// refresh, the first touched address as much as any other, and no touched
/// address selects more than one.
pub proof fn lemma_update_targets_complete(pools: Seq<Pool>, set: Map<Address, usize>, touched: Seq<Address>)
    ensures
        forall|k: int|
            0 <= k < touched.len() && set.contains_key(#[trigger] touched[k]) && pools[set[touched[k]] as int] is V2
                ==> update_indices(pools, set, touched).contains(set[touched[k]]),
        update_indices(pools, set, touched).len() <= touched.len(),
    decreases touched.len(),
{
    if touched.len() > 0 {
        let d = touched.drop_last();
        lemma_update_targets_complete(pools, set, d);
        let prev = update_indices(pools, set, d);
        let cur = update_indices(pools, set, touched);
        assert forall|k: int|
            0 <= k < touched.len() && set.contains_key(#[trigger] touched[k]) && pools[set[touched[k]] as int] is V2
                implies cur.contains(set[touched[k]]) by {
            if k < d.len() {
                assert(d[k] == touched[k]);
                assert(prev.contains(set[d[k]]));
                let i = choose|i: int| 0 <= i < prev.len() && prev[i] == set[d[k]];
                if cur != prev {
                    assert(cur == prev.push(set[touched.last()]));
                    assert(cur[i] == prev[i]);
                }
            } else {
                assert(touched.last() == touched[k]);
                assert(cur == prev.push(set[touched[k]]));
                assert(cur[prev.len() as int] == set[touched[k]]);
            }
        }
    }
}

} // verus!
