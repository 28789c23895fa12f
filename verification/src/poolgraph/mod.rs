//! The token graph that the pools span, and the search for swap cycles in it.
use vstd::prelude::*;
use ahash::AHashMap;
use crate::pool::{Pool, update_indices, reserves_applied};
use crate::types::{Address, U256};
use crate::maps::{
    address_index_map, address_index_new, address_index_get, address_index_insert,
    index_list_map, index_list_new, index_list_get, index_list_insert, index_list_remove,
    index_address_map, index_address_new, index_address_insert, address_index_clone,
    index_list_clone, index_address_clone,
};

pub mod spec;
pub mod search;
pub mod swap;

pub use search::{find_path, find_path_within, Path};
pub use swap::{SwapPath, SwapStep};

use spec::{
    endpoints, first_appearance, token_order, touching, lemma_endpoints_step,
    lemma_first_appearance_prefix, lemma_touching_push, lemma_touching_absent, lemma_touching_members,
};

verus! {

/// The pools, and the maps between tokens, token indices and pool indices:
/// `tokens` numbers the tokens, `itt` names the numbers, `ttp` lists the
/// pools at each token, `ptt` gives each pool's two token numbers, and `set`
/// finds a pool by its address.
#[verifier::reject_recursive_types(A)]
#[verifier::reject_recursive_types(I)]
pub struct Graph<P, A, I> {
    pub pools: Vec<P>,
    set: AHashMap<A, I>,
    tokens: AHashMap<A, I>,
    ttp: AHashMap<I, Vec<I>>,
    itt: AHashMap<I, A>,
    ptt: Vec<[I; 2]>,
}

impl Graph<Pool, Address, usize> {
    /// The pools.
    pub closed spec fn pool_list(&self) -> Seq<Pool> {
        self.pools@
    }

    /// The number of each token.
    pub closed spec fn token_numbers(&self) -> Map<Address, usize> {
        address_index_map(self.tokens)
    }

    /// The token of each number.
    pub closed spec fn number_tokens(&self) -> Map<usize, Address> {
        index_address_map(self.itt)
    }

    /// The pools at each token number.
    pub closed spec fn token_pools(&self) -> Map<usize, Seq<usize>> {
        index_list_map(self.ttp)
    }

    /// The two token numbers of each pool.
    pub closed spec fn pool_tokens(&self) -> Seq<[usize; 2]> {
        self.ptt@
    }

    /// The pool index of each pool address.
    pub closed spec fn pool_numbers(&self) -> Map<Address, usize> {
        address_index_map(self.set)
    }

    /// What a well-formed graph holds: each token number names a token and
    /// back, the pools listed at each number are the pools at it, each pool's
    /// two numbers name its two tokens, and each address indexes its pool.
    pub proof fn lemma_wf_facts(&self)
        requires
            self.wf(),
        ensures
            self.pool_tokens().len() == self.pool_list().len(),
            forall|a: Address|
                #[trigger] self.token_numbers().contains_key(a) ==> self.number_tokens().contains_key(
                    self.token_numbers()[a],
                ) && self.number_tokens()[self.token_numbers()[a]] == a,
            forall|i: usize|
                #[trigger] self.number_tokens().contains_key(i) ==> self.token_numbers().contains_key(
                    self.number_tokens()[i],
                ) && self.token_numbers()[self.number_tokens()[i]] == i,
            forall|i: usize|
                #[trigger] self.number_tokens().contains_key(i) <==> self.token_pools().contains_key(i),
            forall|p: int|
                0 <= p < self.pool_list().len() ==> {
                    &&& self.number_tokens().contains_key(#[trigger] self.pool_tokens()[p][0])
                    &&& self.number_tokens().contains_key(self.pool_tokens()[p][1])
                    &&& self.number_tokens()[self.pool_tokens()[p][0]] == self.pool_list()[p].spec_token0()
                    &&& self.number_tokens()[self.pool_tokens()[p][1]] == self.pool_list()[p].spec_token1()
                },
            forall|t: usize|
                #[trigger] self.token_pools().contains_key(t) ==> self.token_pools()[t] == touching(
                    self.pool_tokens(),
                    t,
                ),
            forall|a: Address|
                #[trigger] self.pool_numbers().contains_key(a) ==> self.pool_numbers()[a]
                    < self.pool_list().len() && self.pool_list()[self.pool_numbers()[a] as int].spec_addr()
                    == a,
    {
        let ptt = self.pool_tokens();
        assert forall|p: int| 0 <= p < self.pool_list().len() implies {
            &&& self.number_tokens().contains_key(#[trigger] ptt[p][0])
            &&& self.number_tokens().contains_key(ptt[p][1])
            &&& self.number_tokens()[ptt[p][0]] == self.pool_list()[p].spec_token0()
            &&& self.number_tokens()[ptt[p][1]] == self.pool_list()[p].spec_token1()
        } by {
            assert(self.pools.len() == self.pool_list().len());
            assert(0 <= p < self.pools.len());
            assert(self.pools@[p] == self.pools[p]);
            assert(self.number_tokens().contains_key(self.pool_tokens()[p][0]));
        }
    }

    /// Where no pool has its two tokens equal, no pool has its two token
    /// numbers equal.
    pub proof fn lemma_simple_ends(&self)
        requires
            self.wf(),
            forall|p: int|
                0 <= p < self.pool_list().len() ==> (#[trigger] self.pool_list()[p]).spec_token0()
                    != self.pool_list()[p].spec_token1(),
        ensures
            search::simple_ends(self.pool_tokens()),
    {
        let ptt = self.pool_tokens();
        assert forall|p: int| 0 <= p < ptt.len() implies (#[trigger] ptt[p])[0] != ptt[p][1] by {
            assert(self.pools@[p] == self.pool_list()[p]);
        }
    }

    /// How the maps of a graph agree with its pools and with each other.
    pub closed spec fn wf(&self) -> bool {
        let n = self.pools.len();
        let ptt = self.pool_tokens();
        &&& ptt.len() == n
        &&& forall|a: Address|
            #[trigger] self.token_numbers().contains_key(a) ==> self.number_tokens().contains_key(
                self.token_numbers()[a],
            ) && self.number_tokens()[self.token_numbers()[a]] == a
        &&& forall|i: usize|
            #[trigger] self.number_tokens().contains_key(i) ==> self.token_numbers().contains_key(
                self.number_tokens()[i],
            ) && self.token_numbers()[self.number_tokens()[i]] == i
        &&& forall|i: usize|
            #[trigger] self.number_tokens().contains_key(i) <==> self.token_pools().contains_key(i)
        &&& forall|p: int|
            0 <= p < n ==> {
                &&& self.number_tokens().contains_key(#[trigger] ptt[p][0])
                &&& self.number_tokens().contains_key(ptt[p][1])
                &&& self.number_tokens()[ptt[p][0]] == self.pools[p].spec_token0()
                &&& self.number_tokens()[ptt[p][1]] == self.pools[p].spec_token1()
            }
        &&& forall|t: usize|
            #[trigger] self.token_pools().contains_key(t) ==> self.token_pools()[t] == touching(
                ptt,
                t,
            )
        &&& forall|a: Address|
            #[trigger] self.pool_numbers().contains_key(a) ==> self.pool_numbers()[a] < n
                && self.pools[self.pool_numbers()[a] as int].spec_addr() == a
    }

    /// Numbers the tokens in the order they first appear (each pool's
    /// `token0` before its `token1`), lists the pools at each token, and
    /// indexes the pools by address (the last pool of an address wins).
    pub fn new(pools: Vec<Pool>) -> (g: Self)
        requires
            pools.len() <= usize::MAX / 2,
        ensures
            g.pool_list() == pools@,
            g.wf(),
            g.pool_tokens().len() == pools.len(),
            forall|i: int|
                0 <= i < token_order(pools@).len() ==> g.token_numbers().contains_key(
                    #[trigger] token_order(pools@)[i],
                ) && g.token_numbers()[token_order(pools@)[i]] == i,
            forall|a: Address|
                #[trigger] g.token_numbers().contains_key(a) ==> token_order(pools@).contains(a),
            forall|p: int|
                0 <= p < pools.len() ==> token_order(pools@)[#[trigger] g.pool_tokens()[p][0] as int]
                    == pools[p].spec_token0() && token_order(pools@)[g.pool_tokens()[p][1] as int]
                    == pools[p].spec_token1(),
            forall|a: Address|
                #[trigger] g.pool_numbers().contains_key(a) <==> exists|p: int|
                    0 <= p < pools.len() && pools[p].spec_addr() == a,
            forall|a: Address, q: int|
                #[trigger] g.pool_numbers().contains_key(a) && g.pool_numbers()[a] < q < pools.len()
                    ==> #[trigger] pools[q].spec_addr() != a,
            forall|a: Address|
                #[trigger] g.pool_numbers().contains_key(a) ==> g.pool_numbers()[a] < pools.len()
                    && pools[g.pool_numbers()[a] as int].spec_addr() == a,
            forall|i: usize| #[trigger] g.number_tokens().contains_key(i) <==> i < token_order(pools@).len(),
            forall|i: int|
                0 <= i < token_order(pools@).len() ==> #[trigger] g.number_tokens()[i as usize]
                    == token_order(pools@)[i],
            forall|t: usize| #[trigger] g.token_pools().contains_key(t) <==> t < token_order(pools@).len(),
            forall|t: usize|
                t < token_order(pools@).len() ==> #[trigger] g.token_pools()[t] == touching(
                    g.pool_tokens(),
                    t,
                ),
            forall|p: int|
                0 <= p < pools.len() ==> (#[trigger] g.pool_tokens()[p])[0] < token_order(pools@).len()
                    && g.pool_tokens()[p][1] < token_order(pools@).len(),
    {
        let n = pools.len();
        let mut tokens: AHashMap<Address, usize> = address_index_new(n);
        let mut ttp: AHashMap<usize, Vec<usize>> = index_list_new(n);
        let mut token_index: usize = 0;
        let mut itt: AHashMap<usize, Address> = index_address_new(n);
        let mut ptt: Vec<[usize; 2]> = Vec::new();
        let mut set: AHashMap<Address, usize> = address_index_new(n);
        let mut k: usize = 0;
        while k < n
            invariant
                n == pools.len(),
                n <= usize::MAX / 2,
                0 <= k <= n,
                registry_inv(
                    endpoints(pools@.take(k as int)),
                    token_index,
                    address_index_map(tokens),
                    index_address_map(itt),
                    index_list_map(ttp),
                ),
                first_appearance(endpoints(pools@.take(k as int))).len() <= 2 * k,
                ptt.len() == k,
                forall|t: usize|
                    #[trigger] index_list_map(ttp).contains_key(t) ==> index_list_map(ttp)[t]
                        == touching(ptt@, t),
                forall|p: int|
                    0 <= p < k ==> {
                        let order = first_appearance(endpoints(pools@.take(k as int)));
                        &&& (#[trigger] ptt[p])[0] < order.len()
                        &&& ptt[p][1] < order.len()
                        &&& order[ptt[p][0] as int] == pools[p].spec_token0()
                        &&& order[ptt[p][1] as int] == pools[p].spec_token1()
                    },
                forall|a: Address|
                    #[trigger] address_index_map(set).contains_key(a) ==> {
                        &&& address_index_map(set)[a] < k
                        &&& pools[address_index_map(set)[a] as int].spec_addr() == a
                        &&& forall|q: int|
                            address_index_map(set)[a] < q < k ==> #[trigger] pools[q].spec_addr()
                                != a
                    },
                forall|p: int|
                    0 <= p < k ==> address_index_map(set).contains_key(
                        #[trigger] pools[p].spec_addr(),
                    ),
            decreases n - k,
        {
            let ghost e = endpoints(pools@.take(k as int));
            let ghost ptt_before = ptt@;
            let ghost lists_before = index_list_map(ttp);
            proof {
                lemma_endpoints_step(pools@, k as int);
                lemma_first_appearance_prefix(e, pools[k as int].spec_token0());
            }
            let t0 = *pools[k].token0();
            let t1 = *pools[k].token1();
            let token0 = register_endpoint(
                &mut tokens,
                &mut itt,
                &mut ttp,
                &mut token_index,
                t0,
                k,
                Ghost(e),
            );
            let ghost lists_mid = index_list_map(ttp);
            proof {
                lemma_first_appearance_prefix(e.push(t0), t1);
            }
            let token1 = register_endpoint(
                &mut tokens,
                &mut itt,
                &mut ttp,
                &mut token_index,
                t1,
                k,
                Ghost(e.push(t0)),
            );
            ptt.push([token0, token1]);
            let addr = *pools[k].addr();
            address_index_insert(&mut set, addr, k);
            proof {
                let order = first_appearance(e);
                let order2 = first_appearance(e.push(t0).push(t1));
                assert(endpoints(pools@.take(k + 1)) == e.push(t0).push(t1));
                lemma_first_appearance_prefix(e, t0);
                lemma_first_appearance_prefix(e.push(t0), t1);
                assert forall|t: usize| #[trigger]
                    index_list_map(ttp).contains_key(t) implies index_list_map(ttp)[t] == touching(
                    ptt@,
                    t,
                ) by {
                    lemma_touching_push(ptt_before, [token0, token1], t);
                    assert(ptt@ == ptt_before.push([token0, token1]));
                    let b = if lists_before.contains_key(t) {
                        lists_before[t]
                    } else {
                        Seq::empty()
                    };
                    if t < order.len() {
                        assert(lists_before.contains_key(t));
                    } else {
                        assert(!lists_before.contains_key(t));
                        assert forall|p: int| 0 <= p < ptt_before.len() implies (#[trigger] ptt_before[p])[0]
                            < order.len() && ptt_before[p][1] < order.len() by {
                            assert(ptt_before[p] == ptt[p]);
                        }
                        lemma_touching_absent(ptt_before, t, order.len() as nat);
                    }
                    assert(b == touching(ptt_before, t));
                    let m = if lists_mid.contains_key(t) {
                        lists_mid[t]
                    } else {
                        Seq::empty()
                    };
                    if t == token0 {
                        assert(lists_mid.contains_key(t));
                        assert(m == b.push(k));
                    } else {
                        if lists_mid.contains_key(t) {
                            assert(lists_before.contains_key(t));
                        }
                        assert(m == b);
                    }
                    if t == token1 {
                        assert(index_list_map(ttp)[t] == m.push(k));
                    } else {
                        assert(lists_mid.contains_key(t));
                        assert(index_list_map(ttp)[t] == m);
                    }
                }
                assert forall|p: int| 0 <= p < k + 1 implies {
                    &&& (#[trigger] ptt[p])[0] < order2.len()
                    &&& ptt[p][1] < order2.len()
                    &&& order2[ptt[p][0] as int] == pools[p].spec_token0()
                    &&& order2[ptt[p][1] as int] == pools[p].spec_token1()
                } by {
                    if p < k {
                        assert(ptt[p] == ptt_before[p]);
                    }
                }
                assert forall|a: Address| #[trigger]
                    address_index_map(set).contains_key(a) implies {
                    &&& address_index_map(set)[a] < k + 1
                    &&& pools[address_index_map(set)[a] as int].spec_addr() == a
                    &&& forall|q: int|
                        address_index_map(set)[a] < q < k + 1 ==> #[trigger] pools[q].spec_addr()
                            != a
                } by {
                    if a != addr {
                        assert forall|q: int|
                            address_index_map(set)[a] < q < k + 1 implies #[trigger] pools[q].spec_addr()
                            != a by {
                            if q == k {
                                assert(pools[q].spec_addr() == addr);
                            }
                        }
                    }
                }
            }
            k = k + 1;
        }
        proof {
            assert(pools@.take(n as int) == pools@);
            let order = token_order(pools@);
            assert forall|a: Address|
                (exists|p: int| 0 <= p < pools.len() && pools[p].spec_addr() == a) implies #[trigger] address_index_map(set).contains_key(a) by {
                let p = choose|p: int| 0 <= p < pools.len() && pools[p].spec_addr() == a;
                assert(address_index_map(set).contains_key(pools[p].spec_addr()));
            }
            assert forall|a: Address| #[trigger]
                address_index_map(tokens).contains_key(a) implies order.contains(a) by {
                assert(order[address_index_map(tokens)[a] as int] == a);
            }
        }
        let ghost ps = pools@;
        let g = Graph { pools, set, tokens, ttp, itt, ptt };
        proof {
            let order = token_order(ps);
            assert forall|i: usize| #[trigger] g.number_tokens().contains_key(i) <==> i < order.len() by {
                if g.number_tokens().contains_key(i) {
                    let a = g.number_tokens()[i];
                    assert(g.token_numbers().contains_key(a));
                    assert(order.contains(a));
                    let k = choose|k: int| 0 <= k < order.len() && order[k] == a;
                    assert(g.token_numbers()[order[k]] == k);
                }
                if i < order.len() {
                    assert(g.token_numbers().contains_key(order[i as int]));
                }
            }
            assert forall|i: int| 0 <= i < order.len() implies #[trigger] g.number_tokens()[i as usize] == order[i] by {
                assert(g.token_numbers().contains_key(order[i]));
                assert(g.token_numbers()[order[i]] == i);
            }
            assert forall|t: usize| #[trigger] g.token_pools().contains_key(t) <==> t < order.len() by {
                assert(g.number_tokens().contains_key(t) <==> g.token_pools().contains_key(t));
            }
            assert forall|t: usize| t < order.len() implies #[trigger] g.token_pools()[t] == touching(
                g.pool_tokens(),
                t,
            ) by {
                assert(g.number_tokens().contains_key(t));
                assert(g.token_pools().contains_key(t));
            }
            assert forall|p: int| 0 <= p < ps.len() implies (#[trigger] g.pool_tokens()[p])[0] < order.len()
                && g.pool_tokens()[p][1] < order.len() by {
                assert(g.number_tokens().contains_key(g.pool_tokens()[p][0]));
                assert(g.number_tokens().contains_key(g.pool_tokens()[p][1]));
            }
        }
        g
    }
}

impl Clone for Graph<Pool, Address, usize> {
    /// A copy with the same pools and the same maps; a copy of a
    /// well-formed graph is well formed.
    fn clone(&self) -> (r: Self)
        ensures
            r.pool_list().len() == self.pool_list().len(),
            forall|p: int| 0 <= p < r.pool_list().len() ==> (#[trigger] r.pool_list()[p]).same_as(
                self.pool_list()[p],
            ),
            r.pool_tokens() == self.pool_tokens(),
            r.token_numbers() == self.token_numbers(),
            r.number_tokens() == self.number_tokens(),
            r.token_pools() == self.token_pools(),
            r.pool_numbers() == self.pool_numbers(),
            self.wf() ==> r.wf(),
    {
        let mut pools: Vec<Pool> = Vec::new();
        let mut i: usize = 0;
        while i < self.pools.len()
            invariant
                0 <= i <= self.pools.len(),
                pools.len() == i,
                forall|p: int| 0 <= p < i ==> (#[trigger] pools[p]).same_as(self.pools[p]),
            decreases self.pools.len() - i,
        {
            pools.push(self.pools[i].clone());
            i = i + 1;
        }
        let mut ptt: Vec<[usize; 2]> = Vec::new();
        let mut k: usize = 0;
        while k < self.ptt.len()
            invariant
                0 <= k <= self.ptt.len(),
                ptt@ == self.ptt@.take(k as int),
            decreases self.ptt.len() - k,
        {
            ptt.push(self.ptt[k]);
            k = k + 1;
            assert(ptt@ =~= self.ptt@.take(k as int));
        }
        assert(ptt@ =~= self.ptt@);
        let r = Graph {
            pools,
            set: address_index_clone(&self.set),
            tokens: address_index_clone(&self.tokens),
            ttp: index_list_clone(&self.ttp),
            itt: index_address_clone(&self.itt),
            ptt,
        };
        proof {
            assert forall|p: int| 0 <= p < r.pools.len() implies {
                &&& (#[trigger] r.pools[p]).spec_token0() == self.pools[p].spec_token0()
                &&& r.pools[p].spec_token1() == self.pools[p].spec_token1()
                &&& r.pools[p].spec_addr() == self.pools[p].spec_addr()
            } by {
                assert(r.pools[p].same_as(self.pools[p]));
            }
            if self.wf() {
                let n = r.pools.len();
                assert forall|p: int| 0 <= p < n implies {
                    &&& r.number_tokens().contains_key(#[trigger] r.pool_tokens()[p][0])
                    &&& r.number_tokens().contains_key(r.pool_tokens()[p][1])
                    &&& r.number_tokens()[r.pool_tokens()[p][0]] == r.pools[p].spec_token0()
                    &&& r.number_tokens()[r.pool_tokens()[p][1]] == r.pools[p].spec_token1()
                } by {
                    assert(self.number_tokens().contains_key(self.pool_tokens()[p][0]));
                }
                assert forall|a: Address| #[trigger] r.pool_numbers().contains_key(a) implies r.pool_numbers()[a] < n
                    && r.pools[r.pool_numbers()[a] as int].spec_addr() == a by {
                    assert(self.pool_numbers().contains_key(a));
                }
                assert(r.pool_tokens().len() == n);
                assert forall|a: Address| #[trigger] r.token_numbers().contains_key(a) implies r.number_tokens().contains_key(
                    r.token_numbers()[a],
                ) && r.number_tokens()[r.token_numbers()[a]] == a by {
                    assert(self.token_numbers().contains_key(a));
                }
                assert forall|i: usize| #[trigger] r.number_tokens().contains_key(i) implies r.token_numbers().contains_key(
                    r.number_tokens()[i],
                ) && r.token_numbers()[r.number_tokens()[i]] == i by {
                    assert(self.number_tokens().contains_key(i));
                }
                assert forall|i: usize| #[trigger] r.number_tokens().contains_key(i) <==> r.token_pools().contains_key(i) by {
                    assert(self.number_tokens().contains_key(i) <==> self.token_pools().contains_key(i));
                }
                assert forall|t: usize| #[trigger] r.token_pools().contains_key(t) implies r.token_pools()[t] == touching(
                    r.pool_tokens(),
                    t,
                ) by {
                    assert(self.token_pools().contains_key(t));
                }
            }
        }
        r
    }
}

impl Graph<Pool, Address, usize> {
    /// Copies of the pools that trade a token, in pool order (a pool twice
    /// where both its tokens are that token); `None` for a token that no
    /// pool trades.
    pub fn markets_of_token(&self, token: &Address) -> (r: Option<Vec<Pool>>)
        requires
            self.wf(),
        ensures
            r is Some <==> self.token_numbers().contains_key(*token),
            r matches Some(v) ==> {
                let list = touching(self.pool_tokens(), self.token_numbers()[*token]);
                &&& v.len() == list.len()
                &&& forall|i: int|
                    0 <= i < v.len() ==> (#[trigger] v[i]).same_as(
                        self.pool_list()[list[i] as int],
                    )
            },
    {
        if let Some(token_index) = address_index_get(&self.tokens, token) {
            proof {
                assert(self.token_numbers().contains_key(*token));
                assert(self.number_tokens().contains_key(token_index));
                lemma_touching_members(self.ptt@, token_index);
            }
            if let Some(pool_indices) = index_list_get(&self.ttp, token_index) {
                let mut pools: Vec<Pool> = Vec::new();
                let mut i: usize = 0;
                while i < pool_indices.len()
                    invariant
                        0 <= i <= pool_indices.len(),
                        pool_indices@ == touching(self.ptt@, token_index),
                        forall|j: int|
                            0 <= j < pool_indices@.len() ==> (#[trigger] pool_indices@[j])
                                < self.ptt@.len(),
                        self.ptt@.len() == self.pools.len(),
                        pools.len() == i,
                        forall|j: int|
                            0 <= j < i ==> (#[trigger] pools[j]).same_as(
                                self.pools@[pool_indices@[j] as int],
                            ),
                    decreases pool_indices.len() - i,
                {
                    let pool_index = pool_indices[i];
                    assert(pool_indices@[i as int] == pool_index);
                    pools.push(self.pools[pool_index].clone());
                    i = i + 1;
                }
                Some(pools)
            } else {
                None
            }
        } else {
            None
        }
    }

    /// The V2 pools that a block's touched addresses name, by address and
    /// index, in the order the addresses come.
    pub fn update_targets(&self, touched: &Vec<Address>) -> (r: (Vec<Address>, Vec<usize>))
        requires
            self.wf(),
        ensures
            r.1@ == update_indices(self.pool_list(), self.pool_numbers(), touched@),
            r.0.len() == r.1.len(),
            forall|i: int|
                0 <= i < r.0.len() ==> (#[trigger] r.0[i]) == self.pool_list()[r.1[i] as int].spec_addr(),
    {
        proof {
            assert forall|k: int|
                0 <= k < touched.len() && address_index_map(self.set).contains_key(#[trigger] touched[k])
                    implies address_index_map(self.set)[touched[k]] < self.pools.len() by {
                assert(self.pool_numbers().contains_key(touched[k]));
            }
        }
        Pool::update_targets(&self.pools, &self.set, touched)
    }

    /// Stores the answers of a reserve query in the pools (see
    /// `Pool::apply_reserves`); the token maps stay as they are.
    pub fn apply_reserves(&mut self, indices: &Vec<usize>, reserves: &Vec<[U256; 3]>)
        requires
            old(self).wf(),
            reserves.len() <= indices.len(),
            forall|i: int| 0 <= i < reserves.len() ==> (#[trigger] indices[i]) < old(self).pool_list().len(),
        ensures
            final(self).wf(),
            final(self).pool_list() == reserves_applied(
                old(self).pool_list(),
                indices@,
                reserves@,
                reserves.len() as nat,
            ),
            final(self).token_numbers() == old(self).token_numbers(),
            final(self).number_tokens() == old(self).number_tokens(),
            final(self).token_pools() == old(self).token_pools(),
            final(self).pool_tokens() == old(self).pool_tokens(),
            final(self).pool_numbers() == old(self).pool_numbers(),
    {
        Pool::apply_reserves(&mut self.pools, indices, reserves);
        proof {
            lemma_reserves_applied_keeps_tokens(
                old(self).pools@,
                indices@,
                reserves@,
                reserves.len() as nat,
            );
            let n = self.pools.len();
            let ptt = self.pool_tokens();
            assert forall|p: int| 0 <= p < n implies {
                &&& self.number_tokens().contains_key(#[trigger] ptt[p][0])
                &&& self.number_tokens().contains_key(ptt[p][1])
                &&& self.number_tokens()[ptt[p][0]] == self.pools[p].spec_token0()
                &&& self.number_tokens()[ptt[p][1]] == self.pools[p].spec_token1()
            } by {
                assert(self.pools@[p] == reserves_applied(old(self).pools@, indices@, reserves@, reserves.len() as nat)[p]);
                assert(old(self).number_tokens().contains_key(old(self).pool_tokens()[p][0]));
            }
            assert forall|a: Address| #[trigger] self.pool_numbers().contains_key(a) implies self.pool_numbers()[a] < n
                && self.pools[self.pool_numbers()[a] as int].spec_addr() == a by {
                assert(old(self).pool_numbers().contains_key(a));
                let q = self.pool_numbers()[a] as int;
                assert(self.pools@[q] == reserves_applied(old(self).pools@, indices@, reserves@, reserves.len() as nat)[q]);
            }
            assert forall|t: usize| #[trigger] self.token_pools().contains_key(t) implies self.token_pools()[t] == touching(
                ptt,
                t,
            ) by {
                assert(old(self).token_pools().contains_key(t));
            }
            assert forall|a: Address| #[trigger] self.token_numbers().contains_key(a) implies self.number_tokens().contains_key(
                self.token_numbers()[a],
            ) && self.number_tokens()[self.token_numbers()[a]] == a by {
                assert(old(self).token_numbers().contains_key(a));
            }
            assert forall|i: usize| #[trigger] self.number_tokens().contains_key(i) implies self.token_numbers().contains_key(
                self.number_tokens()[i],
            ) && self.token_numbers()[self.number_tokens()[i]] == i by {
                assert(old(self).number_tokens().contains_key(i));
            }
            assert forall|i: usize| #[trigger] self.number_tokens().contains_key(i) <==> self.token_pools().contains_key(i) by {
                assert(old(self).number_tokens().contains_key(i) <==> old(self).token_pools().contains_key(i));
            }
        }
    }

    /// The addresses and indices of the V2 pools, in pool order.
    pub fn v2_pools(&self) -> (r: (Vec<Address>, Vec<usize>))
        ensures
            r.1@ == v2_indices(self.pool_list()),
            r.0.len() == r.1.len(),
            forall|i: int|
                0 <= i < r.0.len() ==> (#[trigger] r.0[i]) == self.pool_list()[r.1[i] as int].spec_addr(),
    {
        let mut pools_to_update: Vec<Address> = Vec::new();
        let mut indices: Vec<usize> = Vec::new();
        let mut i: usize = 0;
        while i < self.pools.len()
            invariant
                0 <= i <= self.pools.len(),
                indices@ == v2_indices(self.pools@.take(i as int)),
                pools_to_update.len() == indices.len(),
                forall|j: int| 0 <= j < indices.len() ==> (#[trigger] indices[j]) < i,
                forall|j: int|
                    0 <= j < pools_to_update.len() ==> (#[trigger] pools_to_update[j])
                        == self.pools@[indices[j] as int].spec_addr(),
            decreases self.pools.len() - i,
        {
            assert(self.pools@.take(i + 1).drop_last() =~= self.pools@.take(i as int));
            match &self.pools[i] {
                Pool::V2(pool) => {
                    pools_to_update.push(pool.id);
                    indices.push(i);
                },
                Pool::V3(_) => {},
            }
            i = i + 1;
        }
        assert(self.pools@.take(self.pools.len() as int) =~= self.pools@);
        (pools_to_update, indices)
    }
}

/// The pools that `markets_of_token` lists for a token are exactly the
/// pools that trade it.
pub proof fn lemma_markets_trade_token(g: &Graph<Pool, Address, usize>, token: Address)
    requires
        g.wf(),
        g.token_numbers().contains_key(token),
    ensures
        ({
            let list = touching(g.pool_tokens(), g.token_numbers()[token]);
            &&& forall|i: int|
                0 <= i < list.len() ==> {
                    let p = #[trigger] list[i];
                    &&& p < g.pool_list().len()
                    &&& (g.pool_list()[p as int].spec_token0() == token || g.pool_list()[p as int].spec_token1() == token)
                }
            &&& forall|p: usize|
                p < g.pool_list().len() && (g.pool_list()[p as int].spec_token0() == token
                    || g.pool_list()[p as int].spec_token1() == token) ==> #[trigger] list.contains(p)
        }),
{
    let ptt = g.pool_tokens();
    let t = g.token_numbers()[token];
    lemma_touching_members(ptt, t);
    assert(g.number_tokens()[t] == token);
    let list = touching(ptt, t);
    assert forall|i: int| 0 <= i < list.len() implies {
        let p = #[trigger] list[i];
        &&& p < g.pool_list().len()
        &&& (g.pool_list()[p as int].spec_token0() == token || g.pool_list()[p as int].spec_token1() == token)
    } by {
        let p = list[i] as int;
        assert(g.number_tokens().contains_key(ptt[p][0]));
    }
    assert forall|p: usize|
        p < g.pool_list().len() && (g.pool_list()[p as int].spec_token0() == token
            || g.pool_list()[p as int].spec_token1() == token) implies #[trigger] list.contains(p) by {
        let q = p as int;
        assert(g.number_tokens().contains_key(ptt[q][0]));
        assert(g.token_numbers()[g.number_tokens()[ptt[q][0]]] == ptt[q][0]);
        assert(g.token_numbers()[g.number_tokens()[ptt[q][1]]] == ptt[q][1]);
    }
}

/// The indices of the V2 pools, in order.
pub open spec fn v2_indices(pools: Seq<Pool>) -> Seq<usize>
    decreases pools.len(),
{
    if pools.len() == 0 {
        Seq::empty()
    } else {
        let prev = v2_indices(pools.drop_last());
        if pools.last() is V2 {
            prev.push((pools.len() - 1) as usize)
        } else {
            prev
        }
    }
}

/// The indices of the V2 pools are exactly the positions of the V2 pools of
/// the list, each once, in increasing order.
pub proof fn lemma_v2_indices_exact(pools: Seq<Pool>)
    requires
        pools.len() <= usize::MAX,
    ensures
        forall|p: int| 0 <= p < pools.len() ==> ((#[trigger] pools[p]) is V2 <==> v2_indices(pools).contains(p as usize)),
        forall|i: int| 0 <= i < v2_indices(pools).len() ==> (#[trigger] v2_indices(pools)[i]) < pools.len(),
        forall|i: int, j: int|
            0 <= i < j < v2_indices(pools).len() ==> v2_indices(pools)[i] < v2_indices(pools)[j],
    decreases pools.len(),
{
    if pools.len() > 0 {
        let d = pools.drop_last();
        lemma_v2_indices_exact(d);
        let prev = v2_indices(d);
        let cur = v2_indices(pools);
        let n = pools.len() - 1;
        assert(pools.last() == pools[n]);
        assert(cur == (if pools[n] is V2 {
            prev.push(n as usize)
        } else {
            prev
        }));
        assert forall|i: int| 0 <= i < cur.len() implies (#[trigger] cur[i]) < pools.len() && (i < prev.len()
            ==> cur[i] == prev[i] && cur[i] < n) && (i >= prev.len() ==> cur[i] == n) by {
            if i < prev.len() {
                assert(cur[i] == prev[i]);
            }
        }
        assert forall|p: int| 0 <= p < pools.len() implies ((#[trigger] pools[p]) is V2 <==> cur.contains(
            p as usize,
        )) by {
            if p < n {
                assert(d[p] == pools[p]);
                if prev.contains(p as usize) {
                    let i = choose|i: int| 0 <= i < prev.len() && prev[i] == p as usize;
                    assert(cur[i] == prev[i]);
                }
                if cur.contains(p as usize) {
                    let i = choose|i: int| 0 <= i < cur.len() && cur[i] == p as usize;
                    assert(i < prev.len());
                    assert(prev[i] == p as usize);
                }
            } else {
                if pools[p] is V2 {
                    assert(cur[prev.len() as int] == p as usize);
                }
                if cur.contains(p as usize) {
                    let i = choose|i: int| 0 <= i < cur.len() && cur[i] == p as usize;
                }
            }
        }
    }
}

/// Storing reserves keeps every pool's address and tokens.
pub proof fn lemma_reserves_applied_keeps_tokens(
    pools: Seq<Pool>,
    indices: Seq<usize>,
    reserves: Seq<[U256; 3]>,
    k: nat,
)
    requires
        k <= indices.len(),
        forall|j: int| 0 <= j < k ==> (#[trigger] indices[j]) < pools.len(),
    ensures
        reserves_applied(pools, indices, reserves, k).len() == pools.len(),
        forall|p: int|
            0 <= p < pools.len() ==> {
                let q = #[trigger] reserves_applied(pools, indices, reserves, k)[p];
                &&& q.spec_token0() == pools[p].spec_token0()
                &&& q.spec_token1() == pools[p].spec_token1()
                &&& q.spec_addr() == pools[p].spec_addr()
            },
    decreases k,
{
    if k > 0 {
        lemma_reserves_applied_keeps_tokens(pools, indices, reserves, (k - 1) as nat);
        let prev = reserves_applied(pools, indices, reserves, (k - 1) as nat);
        assert forall|p: int| 0 <= p < pools.len() implies {
            let q = #[trigger] reserves_applied(pools, indices, reserves, k)[p];
            &&& q.spec_token0() == pools[p].spec_token0()
            &&& q.spec_token1() == pools[p].spec_token1()
            &&& q.spec_addr() == pools[p].spec_addr()
        } by {
            assert(prev[p].spec_token0() == pools[p].spec_token0());
        }
    }
}

/// The slices `[start, end)` of the V2 pool list that a full update asks
/// for: the first ends at 999, each later one takes at most 1000 more, and
/// the last ends at the total.
pub open spec fn batches_from(start: nat, end: nat, total: nat) -> Seq<(nat, nat)>
    decreases total - start,
{
    if end >= total || end <= start {
        seq![(start, end)]
    } else {
        let next_end = if end + 1000 < total {
            end + 1000
        } else {
            total
        };
        seq![(start, end)] + batches_from(end, next_end, total)
    }
}

/// The slices of a full update of `total` V2 pools, which asks for the first
/// 999 at once and so needs at least that many.
pub fn update_batches(total: usize) -> (r: Vec<(usize, usize)>)
    requires
        total >= 999,
    ensures
        r@.map_values(|b: (usize, usize)| (b.0 as nat, b.1 as nat)) == batches_from(0, 999, total as nat),
        r.len() >= 1,
        r[0].0 == 0,
        r[r.len() - 1].1 == total,
        forall|i: int| 0 <= i < r.len() ==> (#[trigger] r[i]).0 < r[i].1 <= r[i].0 + 1000,
        forall|i: int| 0 <= i < r.len() - 1 ==> (#[trigger] r[i]).1 == r[i + 1].0,
{
    let batch_size: usize = 1000;
    let mut batches: Vec<(usize, usize)> = Vec::new();
    let mut start: usize = 0;
    let mut end: usize = 999;
    loop
        invariant_except_break
            start < end <= total,
            end <= start + 1000,
            batches.len() == 0 ==> start == 0 && end == 999,
            batches.len() > 0 ==> batches[batches.len() - 1].1 == start && batches[0].0 == 0,
            batches@.map_values(|b: (usize, usize)| (b.0 as nat, b.1 as nat)) + batches_from(
                start as nat,
                end as nat,
                total as nat,
            ) == batches_from(0, 999, total as nat),
        invariant
            total >= 999,
            batch_size == 1000,
            forall|i: int|
                0 <= i < batches.len() ==> (#[trigger] batches[i]).0 < batches[i].1 <= batches[i].0
                    + 1000,
            forall|i: int| 0 <= i < batches.len() - 1 ==> (#[trigger] batches[i]).1 == batches[i + 1].0,
        ensures
            batches.len() >= 1,
            batches[0].0 == 0,
            batches[batches.len() - 1].1 == total,
            batches@.map_values(|b: (usize, usize)| (b.0 as nat, b.1 as nat)) == batches_from(
                0,
                999,
                total as nat,
            ),
            forall|i: int|
                0 <= i < batches.len() ==> (#[trigger] batches[i]).0 < batches[i].1 <= batches[i].0
                    + 1000,
            forall|i: int| 0 <= i < batches.len() - 1 ==> (#[trigger] batches[i]).1 == batches[i + 1].0,
        decreases total - start,
    {
        let ghost before = batches@;
        batches.push((start, end));
        proof {
            assert(batches@.map_values(|b: (usize, usize)| (b.0 as nat, b.1 as nat)) =~= before.map_values(
                |b: (usize, usize)| (b.0 as nat, b.1 as nat),
            ).push((start as nat, end as nat)));
        }
        start = end;
        if start == total {
            proof {
                assert(batches_from((batches[batches.len() - 1].0) as nat, total as nat, total as nat) == seq![((batches[batches.len() - 1].0) as nat, total as nat)]);
                assert(batches@.map_values(|b: (usize, usize)| (b.0 as nat, b.1 as nat)) =~= before.map_values(
                    |b: (usize, usize)| (b.0 as nat, b.1 as nat),
                ) + batches_from((batches[batches.len() - 1].0) as nat, total as nat, total as nat));
            }
            break;
        }
        let ghost old_end = end;
        if total - end > batch_size {
            end = end + batch_size;
        } else {
            end = total;
        }
        proof {
            let prev_start = batches[batches.len() - 1].0;
            assert(prev_start < start < total);
            assert(end == (if old_end + 1000 < total { old_end + 1000 } else { total as int }));
            assert(batches_from(prev_start as nat, start as nat, total as nat) == seq![(prev_start as nat, start as nat)] + batches_from(start as nat, end as nat, total as nat));
            assert(batches@.map_values(|b: (usize, usize)| (b.0 as nat, b.1 as nat)) + batches_from(
                start as nat,
                end as nat,
                total as nat,
            ) =~= before.map_values(|b: (usize, usize)| (b.0 as nat, b.1 as nat)) + batches_from(
                prev_start as nat,
                start as nat,
                total as nat,
            ));
        }
    }
    batches
}

/// Whether pools saved at `saved_block` are refreshed whole, by a full
/// update, rather than block by block up to `current_block`: they are when
/// they are more than 100 blocks behind.
pub fn needs_full_update(saved_block: u64, current_block: u64) -> (r: bool)
    requires
        saved_block <= current_block,
    ensures
        r == (current_block - saved_block > 100),
{
    current_block - saved_block > 100
}

/// How the token maps that `new` builds agree with the tokens of an
/// endpoint sequence, numbered in order of first appearance.
pub open spec fn registry_inv(
    e: Seq<Address>,
    count: usize,
    tm: Map<Address, usize>,
    im: Map<usize, Address>,
    lm: Map<usize, Seq<usize>>,
) -> bool {
    let order = first_appearance(e);
    &&& count == order.len()
    &&& forall|a: Address|
        #[trigger] tm.contains_key(a) ==> tm[a] < order.len() && order[tm[a] as int] == a
    &&& forall|i: int|
        0 <= i < order.len() ==> tm.contains_key(#[trigger] order[i]) && tm[order[i]] == i
    &&& forall|i: usize| #[trigger] im.contains_key(i) <==> i < order.len()
    &&& forall|i: usize| i < order.len() ==> #[trigger] im[i] == order[i as int]
    &&& forall|i: usize| #[trigger] lm.contains_key(i) <==> i < order.len()
}

/// Gives `x` its token number, a new one where it is new, and lists pool `k`
/// at that number.
fn register_endpoint(
    tokens: &mut AHashMap<Address, usize>,
    itt: &mut AHashMap<usize, Address>,
    ttp: &mut AHashMap<usize, Vec<usize>>,
    token_index: &mut usize,
    x: Address,
    k: usize,
    Ghost(e): Ghost<Seq<Address>>,
) -> (r: usize)
    requires
        registry_inv(
            e,
            *old(token_index),
            address_index_map(*old(tokens)),
            index_address_map(*old(itt)),
            index_list_map(*old(ttp)),
        ),
        first_appearance(e).len() < usize::MAX,
    ensures
        registry_inv(
            e.push(x),
            *final(token_index),
            address_index_map(*final(tokens)),
            index_address_map(*final(itt)),
            index_list_map(*final(ttp)),
        ),
        r < first_appearance(e.push(x)).len(),
        first_appearance(e.push(x))[r as int] == x,
        forall|i: usize|
            i != r && #[trigger] index_list_map(*old(ttp)).contains_key(i) ==> index_list_map(
                *final(ttp),
            )[i] == index_list_map(*old(ttp))[i],
        index_list_map(*final(ttp))[r] == (if index_list_map(*old(ttp)).contains_key(r) {
            index_list_map(*old(ttp))[r]
        } else {
            Seq::empty()
        }).push(k),
{
    let ghost order = first_appearance(e);
    proof {
        lemma_first_appearance_prefix(e, x);
    }
    match address_index_get(tokens, &x) {
        Some(idx) => {
            let list = index_list_remove(ttp, idx);
            let mut list = match list {
                Some(l) => l,
                None => Vec::new(),
            };
            list.push(k);
            index_list_insert(ttp, idx, list);
            proof {
                assert(order.contains(x));
                assert(index_list_map(*ttp) =~= index_list_map(*old(ttp)).insert(idx, index_list_map(*old(ttp))[idx].push(k)));
            }
            idx
        },
        None => {
            let idx = *token_index;
            address_index_insert(tokens, x, idx);
            index_address_insert(itt, idx, x);
            let mut list: Vec<usize> = Vec::new();
            list.push(k);
            index_list_insert(ttp, idx, list);
            *token_index = idx + 1;
            proof {
                assert(!order.contains(x)) by {
                    if order.contains(x) {
                        let i = choose|i: int| 0 <= i < order.len() && order[i] == x;
                        assert(address_index_map(*old(tokens)).contains_key(order[i]));
                    }
                }
                let order2 = order.push(x);
                assert forall|a: Address| #[trigger]
                    address_index_map(*tokens).contains_key(a) implies address_index_map(*tokens)[a]
                    < order2.len() && order2[address_index_map(*tokens)[a] as int] == a by {}
                assert forall|i: int| 0 <= i < order2.len() implies address_index_map(
                    *tokens,
                ).contains_key(#[trigger] order2[i]) && address_index_map(*tokens)[order2[i]] == i by {
                    if i < order.len() {
                        assert(order2[i] == order[i]);
                    }
                }
                assert(list@ =~= Seq::<usize>::empty().push(k));
            }
            idx
        },
    }
}

} // verus!
