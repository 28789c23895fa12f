//! The earlier token graph that the benchmark program compares with the
//! indexed one: for each token, the pools that trade it, searched depth
//! first for short routes.
use vstd::prelude::*;
use crate::constants::ZERO;
use crate::pool::Pool;
use crate::types::{Address, U256, same_address};
use crate::poolgraph::spec::{touching, token_order, lemma_token_order_members};

verus! {

/// The most swaps a route of this graph may hold.
pub const MAXLEN: usize = 2;

/// A swap by value: the pool, the token in and the token out.
pub type Hop = (Pool, Address, Address);

/// The pools of a list at token `a`, in pool order: each pool whose `token0`
/// is `a`, and again where its `token1` is.
pub open spec fn pools_at(pools: Seq<Pool>, a: Address) -> Seq<usize>
    decreases pools.len(),
{
    if pools.len() == 0 {
        Seq::empty()
    } else {
        let prev = pools_at(pools.drop_last(), a);
        let p = (pools.len() - 1) as usize;
        let x = if pools.last().spec_token0() == a {
            prev.push(p)
        } else {
            prev
        };
        if pools.last().spec_token1() == a {
            x.push(p)
        } else {
            x
        }
    }
}

/// The pools at a token are pools of the list that trade it, and every such
/// pool is among them.
pub proof fn lemma_pools_at_members(pools: Seq<Pool>, a: Address)
    requires
        pools.len() <= usize::MAX,
    ensures
        forall|j: int|
            0 <= j < pools_at(pools, a).len() ==> {
                let p = #[trigger] pools_at(pools, a)[j];
                &&& p < pools.len()
                &&& (pools[p as int].spec_token0() == a || pools[p as int].spec_token1() == a)
            },
        forall|p: usize|
            p < pools.len() && (pools[p as int].spec_token0() == a || pools[p as int].spec_token1() == a)
                ==> #[trigger] pools_at(pools, a).contains(p),
        pools_at(pools, a).len() <= 2 * pools.len(),
    decreases pools.len(),
{
    if pools.len() > 0 {
        let d = pools.drop_last();
        lemma_pools_at_members(d, a);
        let prev = pools_at(d, a);
        let n = (pools.len() - 1) as usize;
        let last = pools[n as int];
        assert(pools.last() == last);
        let x = if last.spec_token0() == a {
            prev.push(n)
        } else {
            prev
        };
        let s = pools_at(pools, a);
        assert(s == (if last.spec_token1() == a {
            x.push(n)
        } else {
            x
        }));
        assert forall|j: int| 0 <= j < s.len() implies {
            let p = #[trigger] s[j];
            &&& p < pools.len()
            &&& (pools[p as int].spec_token0() == a || pools[p as int].spec_token1() == a)
        } by {
            if j < prev.len() {
                assert(s[j] == prev[j]);
                assert(pools[prev[j] as int] == d[prev[j] as int]);
            } else if j < x.len() {
                assert(x[j] == n);
                assert(s[j] == n);
            } else {
                assert(s[j] == n);
            }
        }
        assert forall|p: usize|
            p < pools.len() && (pools[p as int].spec_token0() == a || pools[p as int].spec_token1() == a)
                implies #[trigger] s.contains(p) by {
            if p < n {
                assert(d[p as int] == pools[p as int]);
                assert(prev.contains(p));
                let j = choose|j: int| 0 <= j < prev.len() && prev[j] == p;
                assert(s[j] == prev[j]);
            } else {
                assert(p == n);
                if last.spec_token0() == a {
                    assert(s[prev.len() as int] == n);
                } else {
                    assert(s[s.len() - 1] == n);
                }
            }
        }
    }
}

/// For each token, the pools that trade it, as a list of (token, pool
/// indices) pairs: vstd gives std's hash map a model only for integer keys,
/// and the keys here are addresses.
pub struct Graph<T, G> {
    nodes: Vec<T>,
    edges: Vec<(G, Vec<usize>)>,
}

/// One swap of a route, and the amounts (left at zero by the search).
#[derive(Debug, Clone, Copy)]
pub struct Step<'a> {
    pub pool: &'a Pool,
    pub token_in: &'a Address,
    pub token_out: &'a Address,
    pub amount_in: U256,
    pub amount_out: U256,
}

/// A route of swaps, and the address of its first pool.
#[derive(Debug)]
pub struct SwapPath<'a> {
    pub steps: Vec<Step<'a>>,
    pub addrs: Vec<Address>,
}

/// Whether `pool` is one of the pools of the list and trades `t`.
pub open spec fn trades(nodes: Seq<Pool>, pool: Pool, t: Address) -> bool {
    exists|p: int|
        0 <= p < nodes.len() && #[trigger] nodes[p] == pool && (pool.spec_token0() == t
            || pool.spec_token1() == t)
}

/// Whether a sequence of swaps is what the search builds from `start`: the
/// first pool trades `start` and gives back its other token, entered (as the
/// search writes it) with the token that gives that one back; each later
/// pool is not at the first pool's address, trades the token the swap
/// before reached and gives back its other token; no token is reached twice,
/// and `end` at most by the last swap.
pub open spec fn hop_chained(nodes: Seq<Pool>, start: Address, end: Address, s: Seq<Hop>) -> bool {
    &&& s.len() >= 1
    &&& trades(nodes, s[0].0, start)
    &&& s[0].2 == s[0].0.spec_token_out(start)
    &&& s[0].1 == s[0].0.spec_token_out(s[0].2)
    &&& forall|i: int|
        1 <= i < s.len() ==> trades(nodes, (#[trigger] s[i]).0, s[i].1) && s[i].2
            == s[i].0.spec_token_out(s[i].1) && s[i].0.spec_addr() != s[0].0.spec_addr()
    &&& forall|i: int, j: int|
        0 <= i && j == i + 1 && j < s.len() ==> (#[trigger] s[j]).1 == (#[trigger] s[i]).2
    &&& forall|i: int, j: int| 0 <= i < j < s.len() ==> (#[trigger] s[i]).2 != (#[trigger] s[j]).2
    &&& forall|i: int| 0 <= i < s.len() - 1 ==> (#[trigger] s[i]).2 != end
}

/// A route of the search from `start` to `end`.
pub open spec fn is_hop_route(nodes: Seq<Pool>, start: Address, end: Address, s: Seq<Hop>) -> bool {
    &&& hop_chained(nodes, start, end, s)
    &&& s.len() <= MAXLEN
    &&& s.last().2 == end
}

/// A route still open: it has not reached `end` and may grow.
pub open spec fn is_hop_open(nodes: Seq<Pool>, start: Address, end: Address, s: Seq<Hop>) -> bool {
    &&& hop_chained(nodes, start, end, s)
    &&& s.len() < MAXLEN
    &&& s.last().2 != end
}

/// Whether a route holds its first pool's address and zero amounts.
pub open spec fn bookkept<'a>(p: SwapPath<'a>) -> bool {
    &&& p.steps.len() >= 1
    &&& p.addrs@ == seq![p.steps[0].pool.spec_addr()]
    &&& forall|k: int|
        0 <= k < p.steps.len() ==> (#[trigger] p.steps[k]).amount_in == ZERO && p.steps[k].amount_out
            == ZERO
}

/// Whether `q` is a proper beginning of `s`.
pub open spec fn hop_prefix(q: Seq<Hop>, s: Seq<Hop>) -> bool {
    q.len() < s.len() && s.take(q.len() as int) == q
}

/// Whether a list of routes holds the route `s`.
pub open spec fn hops_found<'a>(found: Seq<SwapPath<'a>>, s: Seq<Hop>) -> bool {
    exists|i: int| 0 <= i < found.len() && (#[trigger] found[i]).hops() == s
}

/// Whether a list of routes holds a proper beginning of `s`.
pub open spec fn hops_stacked<'a>(stack: Seq<SwapPath<'a>>, s: Seq<Hop>) -> bool {
    exists|i: int| 0 <= i < stack.len() && hop_prefix((#[trigger] stack[i]).hops(), s)
}

/// The weight of a route of `len` swaps: `b` to the power of the swaps it may
/// still take.
pub open spec fn hop_weight(b: nat, len: nat) -> nat
    decreases MAXLEN - len,
{
    if len >= MAXLEN {
        1
    } else {
        b * hop_weight(b, len + 1)
    }
}

/// The summed weight of the routes on a stack.
pub open spec fn hop_stack_weight<'a>(stack: Seq<SwapPath<'a>>, b: nat) -> nat
    decreases stack.len(),
{
    if stack.len() == 0 {
        0
    } else {
        hop_stack_weight(stack.drop_last(), b) + hop_weight(b, stack.last().steps.len() as nat)
    }
}

proof fn lemma_hop_weight_positive(b: nat, len: nat)
    requires
        b >= 1,
    ensures
        hop_weight(b, len) >= 1,
    decreases MAXLEN - len,
{
    if len < MAXLEN {
        lemma_hop_weight_positive(b, len + 1);
        assert(b * hop_weight(b, len + 1) >= hop_weight(b, len + 1)) by (nonlinear_arith)
            requires
                b >= 1,
                hop_weight(b, len + 1) >= 1,
        ;
    }
}

proof fn lemma_hop_stack_weight_push<'a>(stack: Seq<SwapPath<'a>>, x: SwapPath<'a>, b: nat)
    ensures
        hop_stack_weight(stack.push(x), b) == hop_stack_weight(stack, b) + hop_weight(b, x.steps.len() as nat),
{
    assert(stack.push(x).drop_last() =~= stack);
}

proof fn lemma_hops_found_push<'a>(found: Seq<SwapPath<'a>>, x: SwapPath<'a>, s: Seq<Hop>)
    ensures
        hops_found(found, s) ==> hops_found(found.push(x), s),
        x.hops() == s ==> hops_found(found.push(x), s),
{
    if hops_found(found, s) {
        let i = choose|i: int| 0 <= i < found.len() && (#[trigger] found[i]).hops() == s;
        assert(found.push(x)[i] == found[i]);
    }
    assert(found.push(x)[found.len() as int] == x);
}

proof fn lemma_hops_stacked_push<'a>(stack: Seq<SwapPath<'a>>, x: SwapPath<'a>, s: Seq<Hop>)
    ensures
        hops_stacked(stack, s) ==> hops_stacked(stack.push(x), s),
        hop_prefix(x.hops(), s) ==> hops_stacked(stack.push(x), s),
{
    if hops_stacked(stack, s) {
        let i = choose|i: int| 0 <= i < stack.len() && hop_prefix((#[trigger] stack[i]).hops(), s);
        assert(stack.push(x)[i] == stack[i]);
    }
    assert(stack.push(x)[stack.len() as int] == x);
}

/// The swap that follows a proper beginning `q` of a route `s` fits `q`.
proof fn lemma_next_hop(nodes: Seq<Pool>, start: Address, end: Address, q: Seq<Hop>, s: Seq<Hop>)
    requires
        is_hop_route(nodes, start, end, s),
        hop_prefix(q, s),
        q.len() >= 1,
    ensures
        ({
            let x = s[q.len() as int];
            &&& x.1 == q.last().2
            &&& trades(nodes, x.0, x.1)
            &&& x.2 == x.0.spec_token_out(x.1)
            &&& x.0.spec_addr() != q[0].0.spec_addr()
            &&& forall|i: int| 0 <= i < q.len() ==> (#[trigger] q[i]).2 != x.2
            &&& s.take(q.len() as int + 1) == q.push(x)
            &&& x.2 == end ==> s == q.push(x)
            &&& x.2 != end ==> q.len() + 1 < s.len()
        }),
{
    let l = q.len() as int;
    let x = s[l];
    assert forall|i: int| 0 <= i < l implies #[trigger] q[i] == s[i] by {
        assert(s.take(l)[i] == s[i]);
    }
    assert(q.last() == s[l - 1]);
    assert(s[l].1 == s[l - 1].2);
    assert(trades(nodes, s[l].0, s[l].1));
    assert(q[0] == s[0]);
    assert forall|i: int| 0 <= i < l implies (#[trigger] q[i]).2 != x.2 by {
        assert(q[i] == s[i]);
        assert(s[i].2 != s[l].2);
    }
    assert(s.take(l + 1) =~= q.push(x));
    if x.2 == end {
        if l < s.len() - 1 {
            assert(s[l].2 != end);
        }
        assert(s =~= s.take(l + 1));
    } else {
        assert(s.last() == s[s.len() - 1]);
    }
}

/// An open route with one more fitting swap is chained.
proof fn lemma_extend_hops(nodes: Seq<Pool>, start: Address, end: Address, q: Seq<Hop>, x: Hop)
    requires
        hop_chained(nodes, start, end, q),
        q.last().2 != end,
        trades(nodes, x.0, x.1),
        x.1 == q.last().2,
        x.2 == x.0.spec_token_out(x.1),
        x.0.spec_addr() != q[0].0.spec_addr(),
        forall|i: int| 0 <= i < q.len() ==> (#[trigger] q[i]).2 != x.2,
    ensures
        hop_chained(nodes, start, end, q.push(x)),
{
    let s = q.push(x);
    assert forall|i: int| 0 <= i < q.len() implies #[trigger] s[i] == q[i] by {}
    assert(s[q.len() as int] == x);
    assert forall|i: int| 1 <= i < s.len() implies trades(nodes, (#[trigger] s[i]).0, s[i].1) && s[i].2
        == s[i].0.spec_token_out(s[i].1) && s[i].0.spec_addr() != s[0].0.spec_addr() by {
        if i < q.len() {
            assert(s[i] == q[i]);
        }
    }
    assert forall|i: int, j: int|
        0 <= i && j == i + 1 && j < s.len() implies (#[trigger] s[j]).1 == (#[trigger] s[i]).2 by {
        if j < q.len() {
            assert(s[j] == q[j] && s[i] == q[i]);
        } else {
            assert(q.last() == q[i]);
        }
    }
    assert forall|i: int, j: int| 0 <= i < j < s.len() implies (#[trigger] s[i]).2 != (
    #[trigger] s[j]).2 by {
        if j < q.len() {
            assert(s[j] == q[j] && s[i] == q[i]);
        } else {
            assert(s[i] == q[i]);
        }
    }
    assert forall|i: int| 0 <= i < s.len() - 1 implies (#[trigger] s[i]).2 != end by {
        assert(s[i] == q[i]);
        if i < q.len() - 1 {
        } else {
            assert(q.last() == q[i]);
        }
    }
}

/// The first swap of a route is built from a pool at `start`; it is the
/// whole route when it reaches `end`.
proof fn lemma_first_hop(nodes: Seq<Pool>, start: Address, end: Address, s: Seq<Hop>)
    requires
        is_hop_route(nodes, start, end, s),
    ensures
        ({
            let x = s[0];
            &&& trades(nodes, x.0, start)
            &&& x.2 == x.0.spec_token_out(start)
            &&& x.1 == x.0.spec_token_out(x.2)
            &&& x.2 == end ==> s == seq![x]
            &&& x.2 != end ==> 1 < s.len() && s.take(1) == seq![x]
        }),
{
    let x = s[0];
    if x.2 == end {
        if 0 < s.len() - 1 {
            assert(s[0].2 != end);
        }
        assert(s =~= seq![x]);
    } else {
        assert(s.last() == s[s.len() - 1]);
        assert(s.take(1) =~= seq![x]);
    }
}

/// Whether `a` is a beginning of `b`, `b` itself included.
pub open spec fn hop_begins(a: Seq<Hop>, b: Seq<Hop>) -> bool {
    a.len() <= b.len() && b.take(a.len() as int) == a
}

/// Whether no pool of a list has its two tokens equal and no pool is listed twice.
pub open spec fn simple_pools(nodes: Seq<Pool>) -> bool {
    &&& forall|p: int| 0 <= p < nodes.len() ==> (#[trigger] nodes[p]).spec_token0() != nodes[p].spec_token1()
    &&& forall|p: int, q: int| 0 <= p < q < nodes.len() ==> #[trigger] nodes[p] != #[trigger] nodes[q]
}

/// Whether no route of a list is listed twice.
pub open spec fn distinct_hop_routes<'a>(paths: Seq<SwapPath<'a>>) -> bool {
    forall|i: int, j: int|
        0 <= i < j < paths.len() ==> (#[trigger] paths[i]).hops() != (#[trigger] paths[j]).hops()
}

/// Whether no route of a stack begins another one.
spec fn hops_apart<'a>(stack: Seq<SwapPath<'a>>) -> bool {
    forall|i: int, j: int|
        0 <= i < stack.len() && 0 <= j < stack.len() && i != j ==> !hop_begins(
            (#[trigger] stack[i]).hops(),
            (#[trigger] stack[j]).hops(),
        )
}

/// Whether no route of a stack begins a found route.
spec fn hops_lead_none<'a>(stack: Seq<SwapPath<'a>>, found: Seq<SwapPath<'a>>) -> bool {
    forall|i: int, k: int|
        0 <= i < stack.len() && 0 <= k < found.len() ==> !hop_begins(
            (#[trigger] stack[i]).hops(),
            (#[trigger] found[k]).hops(),
        )
}

/// Under simple pools the pools at a token come in strictly rising order.
proof fn lemma_pools_at_rising(pools: Seq<Pool>, a: Address)
    requires
        simple_pools(pools),
        pools.len() <= usize::MAX,
    ensures
        forall|i: int, j: int|
            0 <= i < j < pools_at(pools, a).len() ==> pools_at(pools, a)[i] < pools_at(pools, a)[j],
        forall|i: int| 0 <= i < pools_at(pools, a).len() ==> pools_at(pools, a)[i] < pools.len(),
    decreases pools.len(),
{
    if pools.len() > 0 {
        let d = pools.drop_last();
        assert forall|p: int| 0 <= p < d.len() implies (#[trigger] d[p]).spec_token0() != d[p].spec_token1() by {
            assert(d[p] == pools[p]);
        }
        assert forall|p: int, q: int| 0 <= p < q < d.len() implies #[trigger] d[p] != #[trigger] d[q] by {
            assert(d[p] == pools[p] && d[q] == pools[q]);
        }
        lemma_pools_at_rising(d, a);
        let prev = pools_at(d, a);
        let n = (pools.len() - 1) as usize;
        let last = pools[n as int];
        assert(pools.last() == last);
        assert(last.spec_token0() != last.spec_token1());
        let x = if last.spec_token0() == a {
            prev.push(n)
        } else {
            prev
        };
        let r = pools_at(pools, a);
        assert(r == (if last.spec_token1() == a {
            x.push(n)
        } else {
            x
        }));
        assert forall|i: int| 0 <= i < r.len() implies #[trigger] r[i] < pools.len() && (i < prev.len()
            ==> r[i] == prev[i] && r[i] < n) && (i >= prev.len() ==> r[i] == n) by {
            if i < prev.len() {
                assert(x[i] == prev[i]);
            }
        }
        assert(r.len() <= prev.len() + 1);
    }
}

/// A route grown by one swap, through a pool that none of the first `j`
/// pools of the list is, stays apart from the routes that those grow out of
/// `q` and from every route that does not grow out of `q`.
proof fn lemma_hop_child_apart(q: Seq<Hop>, x: Hop, s: Seq<Hop>, nodes: Seq<Pool>, pools: Seq<usize>, j: int)
    requires
        forall|jj: int| 0 <= jj < j ==> nodes[pools[jj] as int] != x.0,
        hop_begins(q, s) ==> s.len() == q.len() + 1 && exists|jj: int|
            0 <= jj < j && s[q.len() as int].0 == nodes[pools[jj] as int],
    ensures
        !hop_begins(s, q) ==> !hop_begins(s, q.push(x)),
        !hop_begins(q.push(x), s),
        s != q.push(x),
{
    let c = q.push(x);
    assert(c.take(q.len() as int) =~= q);
    assert(c.take(c.len() as int) =~= c);
    if hop_begins(c, s) {
        assert(s.take(q.len() as int) =~= s.take(c.len() as int).take(q.len() as int));
        assert(s.take(c.len() as int)[q.len() as int] == s[q.len() as int]);
        let jj = choose|jj: int| 0 <= jj < j && s[q.len() as int].0 == nodes[pools[jj] as int];
    }
    if hop_begins(s, c) && s.len() <= q.len() {
        assert(q.take(s.len() as int) =~= c.take(s.len() as int));
    }
    if hop_begins(s, c) && s.len() == c.len() {
        assert(s =~= c);
    }
    if s == c {
        assert(hop_begins(q, s));
        let jj = choose|jj: int| 0 <= jj < j && s[q.len() as int].0 == nodes[pools[jj] as int];
        assert(s[q.len() as int] == x);
    }
}

/// A single swap through a pool that none of the first `j` pools of the
/// list is stays apart from the single swaps through those.
proof fn lemma_hop_single_apart(x: Hop, s: Seq<Hop>, nodes: Seq<Pool>, pools: Seq<usize>, j: int)
    requires
        forall|jj: int| 0 <= jj < j ==> nodes[pools[jj] as int] != x.0,
        s.len() == 1,
        exists|jj: int| 0 <= jj < j && s[0].0 == nodes[pools[jj] as int],
    ensures
        !hop_begins(s, seq![x]),
        !hop_begins(seq![x], s),
        s != seq![x],
{
    let jj = choose|jj: int| 0 <= jj < j && s[0].0 == nodes[pools[jj] as int];
    assert(s.take(1) =~= s);
    assert(seq![x].take(1) =~= seq![x]);
    assert(seq![x][0] == x);
}

/// Where the pairs hold the key `a`, if they do.
fn find_key(edges: &Vec<(Address, Vec<usize>)>, a: &Address) -> (r: Option<usize>)
    ensures
        match r {
            Some(i) => i < edges.len() && edges[i as int].0 == *a,
            None => forall|i: int| 0 <= i < edges.len() ==> (#[trigger] edges[i]).0 != *a,
        },
{
    let mut i: usize = 0;
    while i < edges.len()
        invariant
            0 <= i <= edges.len(),
            forall|j: int| 0 <= j < i ==> (#[trigger] edges[j]).0 != *a,
        decreases edges.len() - i,
    {
        if same_address(&edges[i].0, a) {
            return Some(i);
        }
        i = i + 1;
    }
    None
}

/// Lists pool `k` at token `a`, adding the token where it is new.
fn add_edge(edges: &mut Vec<(Address, Vec<usize>)>, a: Address, k: usize)
    requires
        forall|i: int, j: int|
            0 <= i < j < old(edges).len() ==> (#[trigger] old(edges)[i]).0 != (#[trigger] old(edges)[j]).0,
    ensures
        forall|i: int, j: int|
            0 <= i < j < final(edges).len() ==> (#[trigger] final(edges)[i]).0 != (#[trigger] final(edges)[j]).0,
        (exists|i: int| 0 <= i < old(edges).len() && (#[trigger] old(edges)[i]).0 == a) ==> {
            &&& final(edges).len() == old(edges).len()
            &&& forall|i: int|
                0 <= i < old(edges).len() ==> (#[trigger] final(edges)[i]).0 == old(edges)[i].0
                    && final(edges)[i].1@ == (if old(edges)[i].0 == a {
                    old(edges)[i].1@.push(k)
                } else {
                    old(edges)[i].1@
                })
        },
        !(exists|i: int| 0 <= i < old(edges).len() && (#[trigger] old(edges)[i]).0 == a) ==> {
            &&& final(edges).len() == old(edges).len() + 1
            &&& forall|i: int| 0 <= i < old(edges).len() ==> #[trigger] final(edges)[i] == old(edges)[i]
            &&& final(edges)[old(edges).len() as int].0 == a
            &&& final(edges)[old(edges).len() as int].1@ == seq![k]
        },
{
    match find_key(edges, &a) {
        Some(i) => {
            edges[i].1.push(k);
        },
        None => {
            let mut list: Vec<usize> = Vec::new();
            list.push(k);
            edges.push((a, list));
            assert(list@ =~= seq![k]);
        },
    }
}

impl Graph<Pool, Address> {
    /// The pools.
    pub closed spec fn pool_list(&self) -> Seq<Pool> {
        self.nodes@
    }

    /// Whether some pool trades the token.
    pub closed spec fn has_token(&self, a: Address) -> bool {
        exists|i: int| 0 <= i < self.edges.len() && (#[trigger] self.edges[i]).0 == a
    }

    /// How the pool lists agree with the pools.
    pub closed spec fn wf(&self) -> bool {
        &&& forall|i: int, j: int|
            0 <= i < j < self.edges.len() ==> (#[trigger] self.edges[i]).0 != (#[trigger] self.edges[j]).0
        &&& forall|i: int|
            0 <= i < self.edges.len() ==> (#[trigger] self.edges[i]).1@ == pools_at(
                self.nodes@,
                self.edges[i].0,
            )
        &&& forall|p: int|
            0 <= p < self.nodes.len() ==> self.has_token((#[trigger] self.nodes[p]).spec_token0())
                && self.has_token(self.nodes[p].spec_token1())
    }

    /// Lists each pool at its `token0` and at its `token1`.
    pub fn new(pools: Vec<Pool>) -> (g: Self)
        ensures
            g.pool_list() == pools@,
            g.wf(),
            forall|a: Address|
                #[trigger] g.has_token(a) <==> exists|p: int|
                    0 <= p < pools.len() && (pools[p].spec_token0() == a || pools[p].spec_token1() == a),
    {
        let n = pools.len();
        let mut edges: Vec<(Address, Vec<usize>)> = Vec::new();
        let mut k: usize = 0;
        while k < n
            invariant
                n == pools.len(),
                0 <= k <= n,
                forall|i: int, j: int|
                    0 <= i < j < edges.len() ==> (#[trigger] edges[i]).0 != (#[trigger] edges[j]).0,
                forall|i: int|
                    0 <= i < edges.len() ==> (#[trigger] edges[i]).1@ == pools_at(
                        pools@.take(k as int),
                        edges[i].0,
                    ) && edges[i].1@.len() > 0,
                forall|p: int|
                    #![trigger pools[p]]
                    0 <= p < k ==> (exists|i: int|
                        0 <= i < edges.len() && (#[trigger] edges[i]).0 == pools[p].spec_token0())
                        && (exists|i: int|
                        0 <= i < edges.len() && (#[trigger] edges[i]).0 == pools[p].spec_token1()),
            decreases n - k,
        {
            let ghost before = edges@;
            let ghost prefix = pools@.take(k as int);
            let t0 = *pools[k].token0();
            let t1 = *pools[k].token1();
            proof {
                assert(pools@.take(k + 1).drop_last() =~= prefix);
                assert(pools@.take(k + 1).last() == pools[k as int]);
                lemma_pools_at_members(prefix, t0);
                lemma_pools_at_members(prefix, t1);
            }
            add_edge(&mut edges, t0, k);
            let ghost mid = edges@;
            add_edge(&mut edges, t1, k);
            proof {
                let next = pools@.take(k + 1);
                assert forall|i: int| 0 <= i < edges.len() implies (#[trigger] edges[i]).1@ == pools_at(
                    next,
                    edges[i].0,
                ) && edges[i].1@.len() > 0 by {
                    let a = edges[i].0;
                    lemma_pools_at_members(prefix, a);
                    if i < before.len() {
                        assert(mid[i].0 == before[i].0);
                    } else if i < mid.len() {
                        assert(a == t0);
                        if pools_at(prefix, a).len() > 0 {
                            let p = pools_at(prefix, a)[0];
                            assert(prefix[p as int] == pools[p as int]);
                            if pools[p as int].spec_token0() == a {
                                let w = choose|w: int| 0 <= w < before.len() && (#[trigger] before[w]).0 == pools[p as int].spec_token0();
                            } else {
                                let w = choose|w: int| 0 <= w < before.len() && (#[trigger] before[w]).0 == pools[p as int].spec_token1();
                            }
                        }
                        assert(pools_at(prefix, a) =~= Seq::<usize>::empty());
                    } else {
                        assert(a == t1);
                        if pools_at(prefix, a).len() > 0 {
                            let p = pools_at(prefix, a)[0];
                            assert(prefix[p as int] == pools[p as int]);
                            if pools[p as int].spec_token0() == a {
                                let w = choose|w: int| 0 <= w < before.len() && (#[trigger] before[w]).0 == pools[p as int].spec_token0();
                                assert(mid[w].0 == before[w].0);
                            } else {
                                let w = choose|w: int| 0 <= w < before.len() && (#[trigger] before[w]).0 == pools[p as int].spec_token1();
                                assert(mid[w].0 == before[w].0);
                            }
                        }
                        assert(pools_at(prefix, a) =~= Seq::<usize>::empty());
                    }
                }
                assert forall|p: int| #![trigger pools[p]] 0 <= p < k + 1 implies (exists|i: int|
                    0 <= i < edges.len() && (#[trigger] edges[i]).0 == pools[p].spec_token0())
                    && (exists|i: int|
                    0 <= i < edges.len() && (#[trigger] edges[i]).0 == pools[p].spec_token1()) by {
                    if p < k {
                        let w0 = choose|w: int| 0 <= w < before.len() && (#[trigger] before[w]).0 == pools[p].spec_token0();
                        let w1 = choose|w: int| 0 <= w < before.len() && (#[trigger] before[w]).0 == pools[p].spec_token1();
                        assert(mid[w0].0 == before[w0].0);
                        assert(mid[w1].0 == before[w1].0);
                        assert(edges[w0].0 == mid[w0].0);
                        assert(edges[w1].0 == mid[w1].0);
                    } else {
                        if exists|w: int| 0 <= w < before.len() && (#[trigger] before[w]).0 == t0 {
                            let w0 = choose|w: int| 0 <= w < before.len() && (#[trigger] before[w]).0 == t0;
                            assert(mid[w0].0 == before[w0].0);
                            assert(edges[w0].0 == mid[w0].0);
                        } else {
                            assert(mid[before.len() as int].0 == t0);
                            assert(edges[before.len() as int].0 == mid[before.len() as int].0);
                        }
                        if exists|w: int| 0 <= w < mid.len() && (#[trigger] mid[w]).0 == t1 {
                            let w1 = choose|w: int| 0 <= w < mid.len() && (#[trigger] mid[w]).0 == t1;
                            assert(edges[w1].0 == mid[w1].0);
                        } else {
                            assert(edges[mid.len() as int].0 == t1);
                        }
                    }
                }
            }
            k = k + 1;
        }
        proof {
            assert(pools@.take(n as int) =~= pools@);
        }
        let ghost pv = pools@;
        let ghost ev = edges@;
        proof {
            assert forall|p: int| 0 <= p < n implies (exists|i: int|
                0 <= i < ev.len() && (#[trigger] ev[i]).0 == (#[trigger] pv[p]).spec_token0())
                && (exists|i: int| 0 <= i < ev.len() && (#[trigger] ev[i]).0 == pv[p].spec_token1()) by {
                assert(pv[p] == pools[p]);
                let w0 = choose|i: int| 0 <= i < edges.len() && (#[trigger] edges[i]).0 == pools[p].spec_token0();
                let w1 = choose|i: int| 0 <= i < edges.len() && (#[trigger] edges[i]).0 == pools[p].spec_token1();
                assert(ev[w0] == edges[w0]);
                assert(ev[w1] == edges[w1]);
            }
        }
        let g = Graph { nodes: pools, edges };
        proof {
            assert forall|a: Address| #[trigger] g.has_token(a) <==> exists|p: int|
                0 <= p < g.nodes.len() && (g.nodes[p].spec_token0() == a || g.nodes[p].spec_token1() == a) by {
                if g.has_token(a) {
                    let i = choose|i: int| 0 <= i < g.edges.len() && (#[trigger] g.edges[i]).0 == a;
                    lemma_pools_at_members(g.nodes@, a);
                    let p = pools_at(g.nodes@, a)[0];
                    assert(0 <= p < g.nodes.len());
                }
                if exists|p: int| 0 <= p < g.nodes.len() && (g.nodes[p].spec_token0() == a || g.nodes[p].spec_token1() == a) {
                    let p = choose|p: int| 0 <= p < g.nodes.len() && (g.nodes[p].spec_token0() == a || g.nodes[p].spec_token1() == a);
                    assert(pv[p] == g.nodes[p]);
                    let w0 = choose|i: int| 0 <= i < ev.len() && (#[trigger] ev[i]).0 == pv[p].spec_token0();
                    let w1 = choose|i: int| 0 <= i < ev.len() && (#[trigger] ev[i]).0 == pv[p].spec_token1();
                    assert(g.edges[w0] == ev[w0]);
                    assert(g.edges[w1] == ev[w1]);
                    assert(g.has_token(g.nodes[p].spec_token0()));
                    assert(g.has_token(g.nodes[p].spec_token1()));
                }
            }
        }
        g
    }
}

/// Whether a list of addresses holds `a`.
fn addrs_contain(addrs: &Vec<Address>, a: &Address) -> (r: bool)
    ensures
        r == addrs@.contains(*a),
{
    let mut i: usize = 0;
    while i < addrs.len()
        invariant
            0 <= i <= addrs.len(),
            forall|j: int| 0 <= j < i ==> addrs@[j] != *a,
        decreases addrs.len() - i,
    {
        if same_address(&addrs[i], a) {
            assert(addrs@[i as int] == *a);
            return true;
        }
        i = i + 1;
    }
    false
}

/// The swap that extends `q` through pool number `idx`: entered with the
/// token `q` reaches, leaving with the pool's other token.
pub open spec fn next_hop(nodes: Seq<Pool>, q: Seq<Hop>, idx: usize) -> Hop {
    let v = nodes[idx as int];
    (v, q.last().2, v.spec_token_out(q.last().2))
}

/// Whether the search extends `q` through pool number `idx`: the pool is not
/// at the first pool's address and leads to a token `q` has not reached.
pub open spec fn hop_fits(nodes: Seq<Pool>, q: Seq<Hop>, idx: usize) -> bool {
    let x = next_hop(nodes, q, idx);
    &&& x.0.spec_addr() != q[0].0.spec_addr()
    &&& forall|i: int| 0 <= i < q.len() ==> (#[trigger] q[i]).2 != x.2
}

/// The extensions of `q` through the pools of `cand`, in their order, that
/// reach `end`.
pub open spec fn reaching_kids(nodes: Seq<Pool>, end: Address, q: Seq<Hop>, cand: Seq<usize>) -> Seq<
    Seq<Hop>,
>
    decreases cand.len(),
{
    if cand.len() == 0 {
        Seq::empty()
    } else {
        let prev = reaching_kids(nodes, end, q, cand.drop_last());
        let x = next_hop(nodes, q, cand.last());
        if hop_fits(nodes, q, cand.last()) && x.2 == end {
            prev.push(q.push(x))
        } else {
            prev
        }
    }
}

/// The extensions of `q` through the pools of `cand`, in their order, that
/// do not reach `end` and may still grow.
pub open spec fn open_kids(nodes: Seq<Pool>, end: Address, q: Seq<Hop>, cand: Seq<usize>) -> Seq<
    Seq<Hop>,
>
    decreases cand.len(),
{
    if cand.len() == 0 {
        Seq::empty()
    } else {
        let prev = open_kids(nodes, end, q, cand.drop_last());
        let x = next_hop(nodes, q, cand.last());
        if hop_fits(nodes, q, cand.last()) && x.2 != end && q.len() + 1 < MAXLEN {
            prev.push(q.push(x))
        } else {
            prev
        }
    }
}

/// The routes that the search finds below `q`, in the order it finds them:
/// first the extensions of `q` that reach `end`, in pool order, then, from
/// the last open extension back to the first, what is found below each.
pub open spec fn found_below(nodes: Seq<Pool>, end: Address, q: Seq<Hop>) -> Seq<Seq<Hop>>
    decreases MAXLEN - q.len(), 0nat,
{
    if q.len() == 0 || q.len() >= MAXLEN {
        Seq::empty()
    } else {
        let cand = pools_at(nodes, q.last().2);
        reaching_kids(nodes, end, q, cand) + found_below_all(
            nodes,
            end,
            open_kids(nodes, end, q, cand),
            q.len() + 1,
        )
    }
}

/// What the search finds below each route of `qs` of `len` swaps, the last
/// route first.
pub open spec fn found_below_all(nodes: Seq<Pool>, end: Address, qs: Seq<Seq<Hop>>, len: nat) -> Seq<
    Seq<Hop>,
>
    decreases MAXLEN - len, qs.len(),
{
    if qs.len() == 0 || len > MAXLEN {
        Seq::empty()
    } else {
        let here = if qs.last().len() == len {
            found_below(nodes, end, qs.last())
        } else {
            Seq::empty()
        };
        here + found_below_all(nodes, end, qs.drop_last(), len)
    }
}

/// What the search finds below each route of a stack, the top first.
pub open spec fn found_below_stack(nodes: Seq<Pool>, end: Address, qs: Seq<Seq<Hop>>) -> Seq<Seq<Hop>>
    decreases qs.len(),
{
    if qs.len() == 0 {
        Seq::empty()
    } else {
        found_below(nodes, end, qs.last()) + found_below_stack(nodes, end, qs.drop_last())
    }
}

/// The first swap of the search through pool number `idx` at `start`: it
/// leaves with the pool's token other than `start`, entered (as the search
/// writes it) with the token that gives that one back.
pub open spec fn first_hop(nodes: Seq<Pool>, start: Address, idx: usize) -> Hop {
    let v = nodes[idx as int];
    let out = v.spec_token_out(start);
    (v, v.spec_token_out(out), out)
}

/// The first swaps through the pools of `cand`, in their order, that reach `end`.
pub open spec fn reaching_firsts(nodes: Seq<Pool>, start: Address, end: Address, cand: Seq<usize>) -> Seq<
    Seq<Hop>,
>
    decreases cand.len(),
{
    if cand.len() == 0 {
        Seq::empty()
    } else {
        let prev = reaching_firsts(nodes, start, end, cand.drop_last());
        let x = first_hop(nodes, start, cand.last());
        if x.2 == end {
            prev.push(seq![x])
        } else {
            prev
        }
    }
}

/// The first swaps through the pools of `cand`, in their order, that do not
/// reach `end`.
pub open spec fn open_firsts(nodes: Seq<Pool>, start: Address, end: Address, cand: Seq<usize>) -> Seq<
    Seq<Hop>,
>
    decreases cand.len(),
{
    if cand.len() == 0 {
        Seq::empty()
    } else {
        let prev = open_firsts(nodes, start, end, cand.drop_last());
        let x = first_hop(nodes, start, cand.last());
        if x.2 != end {
            prev.push(seq![x])
        } else {
            prev
        }
    }
}

/// The routes of the depth-first search from `start` to `end`, in the order
/// it finds them: the single swaps at `start` that reach `end`, in pool
/// order, then, from the last open single swap back to the first, what is
/// found below each.
pub open spec fn dfs_order(nodes: Seq<Pool>, start: Address, end: Address) -> Seq<Seq<Hop>> {
    let cand = pools_at(nodes, start);
    reaching_firsts(nodes, start, end, cand) + found_below_stack(
        nodes,
        end,
        open_firsts(nodes, start, end, cand),
    )
}

/// The routes of a list, by their swaps.
pub open spec fn hops_of<'a>(paths: Seq<SwapPath<'a>>) -> Seq<Seq<Hop>> {
    paths.map_values(|p: SwapPath<'a>| p.hops())
}

/// What is found below a stack of routes of equal length is what is found
/// below each, the top first.
proof fn lemma_found_below_all_stack(nodes: Seq<Pool>, end: Address, qs: Seq<Seq<Hop>>, len: nat)
    requires
        len <= MAXLEN,
        forall|i: int| 0 <= i < qs.len() ==> (#[trigger] qs[i]).len() == len,
    ensures
        found_below_all(nodes, end, qs, len) == found_below_stack(nodes, end, qs),
    decreases qs.len(),
{
    if qs.len() > 0 {
        let d = qs.drop_last();
        assert forall|i: int| 0 <= i < d.len() implies (#[trigger] d[i]).len() == len by {
            assert(d[i] == qs[i]);
        }
        lemma_found_below_all_stack(nodes, end, d, len);
        assert(qs.last() == qs[qs.len() - 1]);
    }
}

/// What is found below two stacks, one on top of the other: the top one's
/// first.
proof fn lemma_found_below_stack_append(nodes: Seq<Pool>, end: Address, a: Seq<Seq<Hop>>, b: Seq<Seq<Hop>>)
    ensures
        found_below_stack(nodes, end, a + b) == found_below_stack(nodes, end, b) + found_below_stack(
            nodes,
            end,
            a,
        ),
    decreases b.len(),
{
    if b.len() == 0 {
        assert(a + b =~= a);
        assert(found_below_stack(nodes, end, b) + found_below_stack(nodes, end, a) =~= found_below_stack(
            nodes,
            end,
            a,
        ));
    } else {
        lemma_found_below_stack_append(nodes, end, a, b.drop_last());
        assert((a + b).drop_last() =~= a + b.drop_last());
        assert((a + b).last() == b.last());
        assert(found_below_stack(nodes, end, a + b) =~= found_below(nodes, end, b.last()) + (
        found_below_stack(nodes, end, b.drop_last()) + found_below_stack(nodes, end, a)));
    }
}

/// The open extensions of `q` all have one swap more than `q`.
proof fn lemma_open_kids_len(nodes: Seq<Pool>, end: Address, q: Seq<Hop>, cand: Seq<usize>)
    ensures
        forall|i: int|
            0 <= i < open_kids(nodes, end, q, cand).len() ==> (#[trigger] open_kids(
                nodes,
                end,
                q,
                cand,
            )[i]).len() == q.len() + 1,
    decreases cand.len(),
{
    if cand.len() > 0 {
        lemma_open_kids_len(nodes, end, q, cand.drop_last());
        let prev = open_kids(nodes, end, q, cand.drop_last());
        let x = next_hop(nodes, q, cand.last());
        let r = open_kids(nodes, end, q, cand);
        assert forall|i: int| 0 <= i < r.len() implies (#[trigger] r[i]).len() == q.len() + 1 by {
            if i < prev.len() {
                assert(r[i] == prev[i]);
            } else {
                assert(r[i] == q.push(x));
            }
        }
    }
}

impl Graph<Pool, Address> {
    /// Copies of the pools that trade a token, in pool order; `None` for a
    /// token that no pool trades.
    pub fn markets_of_token(&self, token: &Address) -> (r: Option<Vec<Pool>>)
        requires
            self.wf(),
        ensures
            r is Some <==> self.has_token(*token),
            r matches Some(v) ==> {
                let list = pools_at(self.pool_list(), *token);
                &&& v.len() == list.len()
                &&& forall|i: int| 0 <= i < v.len() ==> (#[trigger] v[i]).same_as(self.pool_list()[list[i] as int])
            },
    {
        match find_key(&self.edges, token) {
            Some(pos) => {
                let list = &self.edges[pos].1;
                proof {
                    assert(self.nodes@.len() == self.nodes.len());
                    lemma_pools_at_members(self.nodes@, *token);
                }
                let mut pools: Vec<Pool> = Vec::new();
                let mut i: usize = 0;
                while i < list.len()
                    invariant
                        0 <= i <= list.len(),
                        list@ == pools_at(self.nodes@, *token),
                        forall|j: int| 0 <= j < list@.len() ==> (#[trigger] list@[j]) < self.nodes@.len(),
                        pools.len() == i,
                        forall|j: int| 0 <= j < i ==> (#[trigger] pools[j]).same_as(self.nodes@[list@[j] as int]),
                    decreases list.len() - i,
                {
                    let idx = list[i];
                    assert(list@[i as int] == idx);
                    pools.push(self.nodes[idx].clone());
                    i = i + 1;
                }
                Some(pools)
            },
            None => None,
        }
    }

    /// Every route of at most `MAXLEN` swaps from `start` to `end` that the
    /// depth-first search builds (see `hop_chained`); a pool whose two tokens
    /// are both the current token is tried twice, so its route may be listed
    /// twice. `start` must be traded by some pool.
    pub fn dfs_each_token_once(&self, start: &Address, end: &Address) -> (r: Vec<SwapPath<'_>>)
        requires
            self.wf(),
            self.has_token(*start),
        ensures
            forall|i: int|
                0 <= i < r.len() ==> is_hop_route(self.pool_list(), *start, *end, (#[trigger] r[i]).hops())
                    && bookkept(r[i]),
            forall|s: Seq<Hop>| #[trigger] is_hop_route(self.pool_list(), *start, *end, s) ==> hops_found(r@, s),
            simple_pools(self.pool_list()) ==> distinct_hop_routes(r@),
            hops_of(r@) == dfs_order(self.pool_list(), *start, *end),
    {
        let ghost nodes = self.nodes@;
        proof {
            assert(nodes.len() == self.nodes.len());
        }
        let mut stack: Vec<SwapPath<'_>> = Vec::new();
        let mut paths: Vec<SwapPath<'_>> = Vec::new();
        let pos = find_key(&self.edges, start).unwrap();
        let pools = &self.edges[pos].1;
        proof {
            lemma_pools_at_members(nodes, *start);
            if simple_pools(nodes) {
                lemma_pools_at_rising(nodes, *start);
            }
        }
        let mut j: usize = 0;
        while j < pools.len()
            invariant
                self.wf(),
                nodes == self.nodes@,
                pools@ == pools_at(nodes, *start),
                forall|jj: int| 0 <= jj < pools@.len() ==> (#[trigger] pools@[jj]) < nodes.len()
                    && (nodes[pools@[jj] as int].spec_token0() == *start || nodes[pools@[jj] as int].spec_token1() == *start),
                0 <= j <= pools.len(),
                forall|i: int|
                    0 <= i < stack.len() ==> is_hop_open(nodes, *start, *end, (#[trigger] stack[i]).hops())
                        && bookkept(stack[i]),
                forall|i: int|
                    0 <= i < paths.len() ==> is_hop_route(nodes, *start, *end, (#[trigger] paths[i]).hops())
                        && bookkept(paths[i]),
                forall|s: Seq<Hop>|
                    #[trigger] is_hop_route(nodes, *start, *end, s) ==> hops_found(paths@, s)
                        || hops_stacked(stack@, s) || forall|jj: int|
                        0 <= jj < j ==> nodes[pools@[jj] as int] != s[0].0,
                simple_pools(nodes) ==> distinct_hop_routes(paths@) && hops_apart(stack@)
                    && hops_lead_none(stack@, paths@),
                simple_pools(nodes) ==> forall|a: int, c: int|
                    0 <= a < c < pools@.len() ==> pools@[a] < pools@[c],
                simple_pools(nodes) ==> forall|i: int|
                    0 <= i < stack.len() ==> (#[trigger] stack[i]).hops().len() == 1 && exists|jj: int|
                        0 <= jj < j && stack[i].hops()[0].0 == nodes[pools@[jj] as int],
                simple_pools(nodes) ==> forall|k: int|
                    0 <= k < paths.len() ==> (#[trigger] paths[k]).hops().len() == 1 && exists|jj: int|
                        0 <= jj < j && paths[k].hops()[0].0 == nodes[pools@[jj] as int],
                hops_of(paths@) == reaching_firsts(nodes, *start, *end, pools@.take(j as int)),
                hops_of(stack@) == open_firsts(nodes, *start, *end, pools@.take(j as int)),
            decreases pools.len() - j,
        {
            let idx = pools[j];
            assert(pools@[j as int] == idx);
            let pool = &self.nodes[idx];
            let token_out = pool.token_out(start);
            let token_in = pool.token_out(token_out);
            let mut steps: Vec<Step<'_>> = Vec::new();
            steps.push(Step { pool, token_in, token_out, amount_in: ZERO, amount_out: ZERO });
            let mut addrs: Vec<Address> = Vec::new();
            addrs.push(*pool.addr());
            let sp = SwapPath { steps, addrs };
            let ghost x = (*pool, *token_in, *token_out);
            let ghost paths0 = paths@;
            let ghost stack0 = stack@;
            proof {
                assert(pools@.take(j + 1).drop_last() =~= pools@.take(j as int));
                assert(pools@.take(j + 1).last() == idx);
                assert(x == first_hop(nodes, *start, idx));
                assert(sp.hops() =~= seq![x]);
                assert(sp.addrs@ =~= seq![sp.steps[0].pool.spec_addr()]);
                assert(trades(nodes, x.0, *start));
                let q = seq![x];
                assert(q[0] == x);
                assert(hop_chained(nodes, *start, *end, q));
            }
            proof {
                if simple_pools(nodes) {
                    assert forall|jj: int| 0 <= jj < j implies nodes[pools@[jj] as int] != x.0 by {
                        assert(pools@[jj] < pools@[j as int]);
                    }
                }
            }
            if same_address(token_out, end) {
                paths.push(sp);
                proof {
                    assert(hops_of(paths@) =~= hops_of(paths0).push(sp.hops()));
                    if simple_pools(nodes) {
                        assert(paths@ == paths0.push(sp));
                        assert forall|k: int| 0 <= k < paths0.len() implies (#[trigger] paths0[k]).hops() != sp.hops() by {
                            lemma_hop_single_apart(x, paths0[k].hops(), nodes, pools@, j as int);
                        }
                        assert forall|i: int| 0 <= i < stack.len() implies !hop_begins((#[trigger] stack[i]).hops(), sp.hops()) by {
                            lemma_hop_single_apart(x, stack[i].hops(), nodes, pools@, j as int);
                        }
                        assert forall|a: int, c: int| 0 <= a < c < paths.len() implies (#[trigger] paths[a]).hops()
                            != (#[trigger] paths[c]).hops() by {
                            assert(paths[a] == paths0[a]);
                            if c < paths0.len() {
                                assert(paths[c] == paths0[c]);
                            }
                        }
                        assert forall|i: int, k: int| 0 <= i < stack.len() && 0 <= k < paths.len() implies !hop_begins(
                            (#[trigger] stack[i]).hops(),
                            (#[trigger] paths[k]).hops(),
                        ) by {
                            if k < paths0.len() {
                                assert(paths[k] == paths0[k]);
                            }
                        }
                        assert forall|k: int| 0 <= k < paths.len() implies (#[trigger] paths[k]).hops().len() == 1
                            && exists|jj: int| 0 <= jj < j + 1 && paths[k].hops()[0].0 == nodes[pools@[jj] as int] by {
                            if k < paths0.len() {
                                assert(paths[k] == paths0[k]);
                            } else {
                                assert(paths[k].hops()[0].0 == nodes[pools@[j as int] as int]);
                            }
                        }
                        assert forall|i: int| 0 <= i < stack.len() implies (#[trigger] stack[i]).hops().len() == 1
                            && exists|jj: int| 0 <= jj < j + 1 && stack[i].hops()[0].0 == nodes[pools@[jj] as int] by {}
                    }
                    assert forall|i: int| 0 <= i < paths.len() implies is_hop_route(
                        nodes,
                        *start,
                        *end,
                        (#[trigger] paths[i]).hops(),
                    ) && bookkept(paths[i]) by {
                        if i < paths0.len() {
                            assert(paths[i] == paths0[i]);
                        }
                    }
                    assert forall|s: Seq<Hop>| #[trigger] is_hop_route(nodes, *start, *end, s) implies hops_found(
                        paths@,
                        s,
                    ) || hops_stacked(stack@, s) || forall|jj: int|
                        0 <= jj < j + 1 ==> nodes[pools@[jj] as int] != s[0].0 by {
                        lemma_hops_found_push(paths0, sp, s);
                        if s[0].0 == *pool {
                            lemma_first_hop(nodes, *start, *end, s);
                        }
                    }
                }
            } else {
                stack.push(sp);
                proof {
                    assert(hops_of(stack@) =~= hops_of(stack0).push(sp.hops()));
                    if simple_pools(nodes) {
                        assert(stack@ == stack0.push(sp));
                        assert forall|i: int| 0 <= i < stack0.len() implies !hop_begins((#[trigger] stack0[i]).hops(), sp.hops())
                            && !hop_begins(sp.hops(), stack0[i].hops()) by {
                            lemma_hop_single_apart(x, stack0[i].hops(), nodes, pools@, j as int);
                        }
                        assert forall|k: int| 0 <= k < paths.len() implies !hop_begins(sp.hops(), (#[trigger] paths[k]).hops()) by {
                            lemma_hop_single_apart(x, paths[k].hops(), nodes, pools@, j as int);
                        }
                        assert forall|a: int, c: int|
                            0 <= a < stack.len() && 0 <= c < stack.len() && a != c implies !hop_begins(
                            (#[trigger] stack[a]).hops(),
                            (#[trigger] stack[c]).hops(),
                        ) by {
                            if a < stack0.len() {
                                assert(stack[a] == stack0[a]);
                            }
                            if c < stack0.len() {
                                assert(stack[c] == stack0[c]);
                            }
                        }
                        assert forall|i: int, k: int| 0 <= i < stack.len() && 0 <= k < paths.len() implies !hop_begins(
                            (#[trigger] stack[i]).hops(),
                            (#[trigger] paths[k]).hops(),
                        ) by {
                            if i < stack0.len() {
                                assert(stack[i] == stack0[i]);
                            }
                        }
                        assert forall|i: int| 0 <= i < stack.len() implies (#[trigger] stack[i]).hops().len() == 1
                            && exists|jj: int| 0 <= jj < j + 1 && stack[i].hops()[0].0 == nodes[pools@[jj] as int] by {
                            if i < stack0.len() {
                                assert(stack[i] == stack0[i]);
                            } else {
                                assert(stack[i].hops()[0].0 == nodes[pools@[j as int] as int]);
                            }
                        }
                        assert forall|k: int| 0 <= k < paths.len() implies (#[trigger] paths[k]).hops().len() == 1
                            && exists|jj: int| 0 <= jj < j + 1 && paths[k].hops()[0].0 == nodes[pools@[jj] as int] by {}
                    }
                    assert forall|i: int| 0 <= i < stack.len() implies is_hop_open(
                        nodes,
                        *start,
                        *end,
                        (#[trigger] stack[i]).hops(),
                    ) && bookkept(stack[i]) by {
                        if i < stack0.len() {
                            assert(stack[i] == stack0[i]);
                        }
                    }
                    assert forall|s: Seq<Hop>| #[trigger] is_hop_route(nodes, *start, *end, s) implies hops_found(
                        paths@,
                        s,
                    ) || hops_stacked(stack@, s) || forall|jj: int|
                        0 <= jj < j + 1 ==> nodes[pools@[jj] as int] != s[0].0 by {
                        lemma_hops_stacked_push(stack0, sp, s);
                        if s[0].0 == *pool {
                            lemma_first_hop(nodes, *start, *end, s);
                        }
                    }
                }
            }
            j = j + 1;
        }
        proof {
            assert forall|s: Seq<Hop>| #[trigger] is_hop_route(nodes, *start, *end, s) implies hops_found(
                paths@,
                s,
            ) || hops_stacked(stack@, s) by {
                if !hops_found(paths@, s) && !hops_stacked(stack@, s) {
                    lemma_first_hop(nodes, *start, *end, s);
                    let p = choose|p: int| 0 <= p < nodes.len() && #[trigger] nodes[p] == s[0].0 && (s[0].0.spec_token0() == *start || s[0].0.spec_token1() == *start);
                    assert(pools_at(nodes, *start).contains(p as usize));
                    let jj = choose|jj: int| 0 <= jj < pools@.len() && pools@[jj] == p as usize;
                }
            }
        }
        proof {
            assert(pools@.take(pools@.len() as int) =~= pools@);
        }
        let ghost b: nat = (2 * nodes.len() + 1) as nat;
        loop
            invariant
                self.wf(),
                nodes == self.nodes@,
                nodes.len() <= usize::MAX,
                b == 2 * nodes.len() + 1,
                forall|i: int|
                    0 <= i < stack.len() ==> is_hop_open(nodes, *start, *end, (#[trigger] stack[i]).hops())
                        && bookkept(stack[i]),
                forall|i: int|
                    0 <= i < paths.len() ==> is_hop_route(nodes, *start, *end, (#[trigger] paths[i]).hops())
                        && bookkept(paths[i]),
                forall|s: Seq<Hop>|
                    #[trigger] is_hop_route(nodes, *start, *end, s) ==> hops_found(paths@, s)
                        || hops_stacked(stack@, s),
                simple_pools(nodes) ==> distinct_hop_routes(paths@) && hops_apart(stack@)
                    && hops_lead_none(stack@, paths@),
                hops_of(paths@) + found_below_stack(nodes, *end, hops_of(stack@)) == dfs_order(
                    nodes,
                    *start,
                    *end,
                ),
            ensures
                forall|i: int|
                    0 <= i < paths.len() ==> is_hop_route(nodes, *start, *end, (#[trigger] paths[i]).hops())
                        && bookkept(paths[i]),
                forall|s: Seq<Hop>|
                    #[trigger] is_hop_route(nodes, *start, *end, s) ==> hops_found(paths@, s),
                simple_pools(nodes) ==> distinct_hop_routes(paths@),
                hops_of(paths@) == dfs_order(nodes, *start, *end),
            decreases hop_stack_weight(stack@, b),
        {
            let ghost prev = stack@;
            let path = match stack.pop() {
                Some(path) => path,
                None => {
                    assert(stack@.len() == 0);
                    assert(hops_of(paths@) + found_below_stack(nodes, *end, hops_of(stack@)) =~= hops_of(paths@));
                    break;
                },
            };
            let ghost rest = stack@;
            let ghost q = path.hops();
            let ghost l = q.len();
            let ghost p0 = hops_of(paths@);
            proof {
                assert(prev == rest.push(path));
                lemma_hop_stack_weight_push(rest, path, b);
                assert(prev[prev.len() - 1] == path);
                if simple_pools(nodes) {
                    let ip = prev.len() - 1;
                    assert forall|i: int| 0 <= i < rest.len() implies !hop_begins((#[trigger] rest[i]).hops(), q)
                        && !hop_begins(q, rest[i].hops()) by {
                        assert(prev[i] == rest[i]);
                        assert(!hop_begins(prev[i].hops(), prev[ip].hops()));
                        assert(!hop_begins(prev[ip].hops(), prev[i].hops()));
                    }
                    assert forall|k: int| 0 <= k < paths.len() implies !hop_begins(q, (#[trigger] paths[k]).hops()) by {
                        assert(!hop_begins(prev[ip].hops(), paths[k].hops()));
                    }
                    assert forall|i: int, k: int| 0 <= i < rest.len() && 0 <= k < paths.len() implies !hop_begins(
                        (#[trigger] rest[i]).hops(),
                        (#[trigger] paths[k]).hops(),
                    ) by {
                        assert(prev[i] == rest[i]);
                    }
                    assert forall|i: int, k: int| 0 <= i < rest.len() && 0 <= k < rest.len() && i != k implies !hop_begins(
                        (#[trigger] rest[i]).hops(),
                        (#[trigger] rest[k]).hops(),
                    ) by {
                        assert(prev[i] == rest[i]);
                        assert(prev[k] == rest[k]);
                    }
                }
                assert forall|s: Seq<Hop>| #[trigger] is_hop_route(nodes, *start, *end, s) implies hops_found(
                    paths@,
                    s,
                ) || hops_stacked(rest, s) || hop_prefix(q, s) by {
                    if hops_stacked(prev, s) && !hops_found(paths@, s) {
                        let i = choose|i: int| 0 <= i < prev.len() && hop_prefix((#[trigger] prev[i]).hops(), s);
                        if i < rest.len() {
                            assert(rest[i] == prev[i]);
                        }
                    }
                }
            }
            let last_step = path.steps[path.steps.len() - 1];
            let ghost t = *last_step.token_out;
            proof {
                assert(q[l - 1] == (*last_step.pool, *last_step.token_in, *last_step.token_out));
                assert(q.last() == q[l - 1]);
                let lp = q[l - 1].0;
                if l - 1 == 0 {
                    assert(trades(nodes, lp, *start));
                } else {
                    assert(trades(nodes, lp, q[l - 1].1));
                }
                let p = choose|p: int| 0 <= p < nodes.len() && #[trigger] nodes[p] == lp;
                assert(self.has_token(nodes[p].spec_token0()));
                assert(self.has_token(nodes[p].spec_token1()));
                assert(self.has_token(t));
                lemma_pools_at_members(nodes, t);
                lemma_hop_weight_positive(b, (l + 1) as nat);
                if simple_pools(nodes) {
                    lemma_pools_at_rising(nodes, t);
                }
                assert(hops_of(prev) =~= hops_of(rest).push(q));
                assert(hops_of(prev).drop_last() =~= hops_of(rest));
                lemma_open_kids_len(nodes, *end, q, pools_at(nodes, t));
                lemma_found_below_all_stack(nodes, *end, open_kids(nodes, *end, q, pools_at(nodes, t)), (l + 1) as nat);
                assert(found_below_stack(nodes, *end, hops_of(prev)) == reaching_kids(nodes, *end, q, pools_at(nodes, t))
                    + found_below_stack(nodes, *end, open_kids(nodes, *end, q, pools_at(nodes, t)))
                    + found_below_stack(nodes, *end, hops_of(rest)));
                assert(pools_at(nodes, t).take(0) =~= Seq::<usize>::empty());
                assert(hops_of(stack@) =~= hops_of(rest) + Seq::<Seq<Hop>>::empty());
                assert(p0 =~= p0 + Seq::<Seq<Hop>>::empty());
            }
            let pos = find_key(&self.edges, last_step.token_out).unwrap();
            let pools = &self.edges[pos].1;
            let mut j: usize = 0;
            while j < pools.len()
                invariant
                    self.wf(),
                    nodes == self.nodes@,
                    b == 2 * nodes.len() + 1,
                    pools@ == pools_at(nodes, t),
                    pools@.len() <= 2 * nodes.len(),
                    forall|jj: int| 0 <= jj < pools@.len() ==> (#[trigger] pools@[jj]) < nodes.len()
                        && (nodes[pools@[jj] as int].spec_token0() == t || nodes[pools@[jj] as int].spec_token1() == t),
                    q == path.hops(),
                    l == q.len(),
                    is_hop_open(nodes, *start, *end, q),
                    bookkept(path),
                    t == q.last().2,
                    *last_step.token_out == t,
                    0 <= j <= pools.len(),
                    forall|i: int|
                        0 <= i < stack.len() ==> is_hop_open(nodes, *start, *end, (#[trigger] stack[i]).hops())
                            && bookkept(stack[i]),
                    forall|i: int|
                        0 <= i < paths.len() ==> is_hop_route(nodes, *start, *end, (#[trigger] paths[i]).hops())
                            && bookkept(paths[i]),
                    forall|s: Seq<Hop>|
                        #[trigger] is_hop_route(nodes, *start, *end, s) ==> hops_found(paths@, s)
                            || hops_stacked(stack@, s) || (hop_prefix(q, s) && forall|jj: int|
                            0 <= jj < j ==> nodes[pools@[jj] as int] != s[l as int].0),
                    hop_stack_weight(stack@, b) <= hop_stack_weight(rest, b) + j * hop_weight(b, (l + 1) as nat),
                    simple_pools(nodes) ==> distinct_hop_routes(paths@) && hops_apart(stack@)
                        && hops_lead_none(stack@, paths@),
                    simple_pools(nodes) ==> forall|a: int, c: int|
                        0 <= a < c < pools@.len() ==> pools@[a] < pools@[c],
                    simple_pools(nodes) ==> forall|i: int|
                        0 <= i < stack.len() ==> !hop_begins((#[trigger] stack[i]).hops(), q),
                    simple_pools(nodes) ==> forall|i: int|
                        0 <= i < stack.len() ==> (hop_begins(q, (#[trigger] stack[i]).hops()) ==> stack[i].hops().len()
                            == l + 1 && exists|jj: int| 0 <= jj < j && stack[i].hops()[l as int].0 == nodes[pools@[jj] as int]),
                    simple_pools(nodes) ==> forall|k: int|
                        0 <= k < paths.len() ==> (hop_begins(q, (#[trigger] paths[k]).hops()) ==> paths[k].hops().len()
                            == l + 1 && exists|jj: int| 0 <= jj < j && paths[k].hops()[l as int].0 == nodes[pools@[jj] as int]),
                    hops_of(paths@) == p0 + reaching_kids(nodes, *end, q, pools@.take(j as int)),
                    hops_of(stack@) == hops_of(rest) + open_kids(nodes, *end, q, pools@.take(j as int)),
                    p0 + found_below_stack(nodes, *end, hops_of(prev)) == dfs_order(nodes, *start, *end),
                    found_below_stack(nodes, *end, hops_of(prev)) == reaching_kids(nodes, *end, q, pools@)
                        + found_below_stack(nodes, *end, open_kids(nodes, *end, q, pools@))
                        + found_below_stack(nodes, *end, hops_of(rest)),
                    q.len() >= 1,
                decreases pools.len() - j,
            {
                let idx = pools[j];
                assert(pools@[j as int] == idx);
                let pool = &self.nodes[idx];
                let ghost paths0 = paths@;
                let ghost stack0 = stack@;
                let ghost v = *pool;
                proof {
                    assert(pools@.take(j + 1).drop_last() =~= pools@.take(j as int));
                    assert(pools@.take(j + 1).last() == idx);
                    assert(next_hop(nodes, q, idx) == (v, t, v.spec_token_out(t)));
                    assert(trades(nodes, v, t));
                    assert(path.addrs@ == seq![q[0].0.spec_addr()]);
                    assert(path.steps[0].pool.spec_addr() == q[0].0.spec_addr());
                }
                if !addrs_contain(&path.addrs, pool.addr()) {
                    let token_in = last_step.token_out;
                    let token_out = pool.token_out(token_in);
                    proof {
                        assert(path.addrs@[0] == q[0].0.spec_addr());
                        assert(v.spec_addr() != q[0].0.spec_addr());
                        assert forall|i: int| 0 <= i < path.steps.len() implies (#[trigger] path.steps[i]).token_out == q[i].2 by {
                            assert(q[i] == (*path.steps[i].pool, *path.steps[i].token_in, *path.steps[i].token_out));
                        }
                    }
                    if !path.contains_token(token_out) {
                        let step = Step { pool, token_in, token_out, amount_in: ZERO, amount_out: ZERO };
                        let p = path.extended(step);
                        let ghost x = (v, t, *token_out);
                        proof {
                            if simple_pools(nodes) {
                                assert forall|jj: int| 0 <= jj < j implies nodes[pools@[jj] as int] != x.0 by {
                                    assert(pools@[jj] < pools@[j as int]);
                                }
                            }
                            assert forall|i: int| 0 <= i < q.len() implies (#[trigger] q[i]).2 != x.2 by {
                                assert(q[i] == (*path.steps[i].pool, *path.steps[i].token_in, *path.steps[i].token_out));
                            }
                            lemma_extend_hops(nodes, *start, *end, q, x);
                            assert(p.hops() =~= q.push(x));
                            assert(p.steps[0] == path.steps[0]);
                            assert forall|k: int| 0 <= k < p.steps.len() implies (#[trigger] p.steps[k]).amount_in == ZERO && p.steps[k].amount_out == ZERO by {
                                if k < path.steps.len() {
                                    assert(p.steps[k] == path.steps[k]);
                                }
                            }
                        }
                        if same_address(token_out, end) {
                            paths.push(p);
                            proof {
                                assert(hop_fits(nodes, q, idx));
                                assert(hops_of(paths@) =~= hops_of(paths0).push(p.hops()));
                                assert(p0 + reaching_kids(nodes, *end, q, pools@.take(j + 1)) =~= (p0
                                    + reaching_kids(nodes, *end, q, pools@.take(j as int))).push(q.push(x)));
                                if simple_pools(nodes) {
                                    assert(paths@ == paths0.push(p));
                                    assert(p.hops()[l as int] == x);
                                    assert forall|k: int| 0 <= k < paths0.len() implies (#[trigger] paths0[k]).hops() != p.hops()
                                        && !hop_begins(p.hops(), paths0[k].hops()) by {
                                        lemma_hop_child_apart(q, x, paths0[k].hops(), nodes, pools@, j as int);
                                    }
                                    assert forall|i: int| 0 <= i < stack.len() implies !hop_begins(
                                        (#[trigger] stack[i]).hops(),
                                        p.hops(),
                                    ) by {
                                        lemma_hop_child_apart(q, x, stack[i].hops(), nodes, pools@, j as int);
                                    }
                                    assert forall|a: int, c: int| 0 <= a < c < paths.len() implies (
                                    #[trigger] paths[a]).hops() != (#[trigger] paths[c]).hops() by {
                                        assert(paths[a] == paths0[a]);
                                        if c < paths0.len() {
                                            assert(paths[c] == paths0[c]);
                                        }
                                    }
                                    assert forall|i: int, k: int|
                                        0 <= i < stack.len() && 0 <= k < paths.len() implies !hop_begins(
                                        (#[trigger] stack[i]).hops(),
                                        (#[trigger] paths[k]).hops(),
                                    ) by {
                                        if k < paths0.len() {
                                            assert(paths[k] == paths0[k]);
                                        }
                                    }
                                    assert forall|k: int| 0 <= k < paths.len() && hop_begins(q, (#[trigger] paths[k]).hops())
                                        implies paths[k].hops().len() == l + 1 && exists|jj: int|
                                        0 <= jj < j + 1 && paths[k].hops()[l as int].0 == nodes[pools@[jj] as int] by {
                                        if k < paths0.len() {
                                            assert(paths[k] == paths0[k]);
                                        } else {
                                            assert(paths[k].hops()[l as int].0 == nodes[pools@[j as int] as int]);
                                        }
                                    }
                                    assert forall|i: int| 0 <= i < stack.len() && hop_begins(q, (#[trigger] stack[i]).hops())
                                        implies stack[i].hops().len() == l + 1 && exists|jj: int|
                                        0 <= jj < j + 1 && stack[i].hops()[l as int].0 == nodes[pools@[jj] as int] by {}
                                }
                                assert forall|i: int| 0 <= i < paths.len() implies is_hop_route(
                                    nodes,
                                    *start,
                                    *end,
                                    (#[trigger] paths[i]).hops(),
                                ) && bookkept(paths[i]) by {
                                    if i < paths0.len() {
                                        assert(paths[i] == paths0[i]);
                                    }
                                }
                                assert forall|s: Seq<Hop>| #[trigger] is_hop_route(nodes, *start, *end, s) implies hops_found(
                                    paths@,
                                    s,
                                ) || hops_stacked(stack@, s) || (hop_prefix(q, s) && forall|jj: int|
                                    0 <= jj < j + 1 ==> nodes[pools@[jj] as int] != s[l as int].0) by {
                                    lemma_hops_found_push(paths0, p, s);
                                    if hop_prefix(q, s) && s[l as int].0 == v && !hops_found(paths0, s) && !hops_stacked(stack@, s) {
                                        lemma_next_hop(nodes, *start, *end, q, s);
                                    }
                                }
                            }
                        } else if p.steps.len() < MAXLEN {
                            stack.push(p);
                            proof {
                                lemma_hop_stack_weight_push(stack0, p, b);
                                assert(hop_fits(nodes, q, idx));
                                assert(hops_of(stack@) =~= hops_of(stack0).push(p.hops()));
                                assert(hops_of(rest) + open_kids(nodes, *end, q, pools@.take(j + 1)) =~= (
                                hops_of(rest) + open_kids(nodes, *end, q, pools@.take(j as int))).push(q.push(x)));
                                if simple_pools(nodes) {
                                    assert(stack@ == stack0.push(p));
                                    assert(p.hops()[l as int] == x);
                                    assert forall|i: int| 0 <= i < stack0.len() implies !hop_begins(
                                        (#[trigger] stack0[i]).hops(),
                                        p.hops(),
                                    ) && !hop_begins(p.hops(), stack0[i].hops()) by {
                                        lemma_hop_child_apart(q, x, stack0[i].hops(), nodes, pools@, j as int);
                                    }
                                    assert forall|k: int| 0 <= k < paths.len() implies !hop_begins(
                                        p.hops(),
                                        (#[trigger] paths[k]).hops(),
                                    ) by {
                                        lemma_hop_child_apart(q, x, paths[k].hops(), nodes, pools@, j as int);
                                    }
                                    assert forall|a: int, c: int|
                                        0 <= a < stack.len() && 0 <= c < stack.len() && a != c implies !hop_begins(
                                        (#[trigger] stack[a]).hops(),
                                        (#[trigger] stack[c]).hops(),
                                    ) by {
                                        if a < stack0.len() {
                                            assert(stack[a] == stack0[a]);
                                        }
                                        if c < stack0.len() {
                                            assert(stack[c] == stack0[c]);
                                        }
                                    }
                                    assert forall|i: int, k: int|
                                        0 <= i < stack.len() && 0 <= k < paths.len() implies !hop_begins(
                                        (#[trigger] stack[i]).hops(),
                                        (#[trigger] paths[k]).hops(),
                                    ) by {
                                        if i < stack0.len() {
                                            assert(stack[i] == stack0[i]);
                                        }
                                    }
                                    assert forall|i: int| 0 <= i < stack.len() implies !hop_begins(
                                        (#[trigger] stack[i]).hops(),
                                        q,
                                    ) by {
                                        if i < stack0.len() {
                                            assert(stack[i] == stack0[i]);
                                        }
                                    }
                                    assert forall|i: int| 0 <= i < stack.len() && hop_begins(q, (#[trigger] stack[i]).hops())
                                        implies stack[i].hops().len() == l + 1 && exists|jj: int|
                                        0 <= jj < j + 1 && stack[i].hops()[l as int].0 == nodes[pools@[jj] as int] by {
                                        if i < stack0.len() {
                                            assert(stack[i] == stack0[i]);
                                        } else {
                                            assert(stack[i].hops()[l as int].0 == nodes[pools@[j as int] as int]);
                                        }
                                    }
                                    assert forall|k: int| 0 <= k < paths.len() && hop_begins(q, (#[trigger] paths[k]).hops())
                                        implies paths[k].hops().len() == l + 1 && exists|jj: int|
                                        0 <= jj < j + 1 && paths[k].hops()[l as int].0 == nodes[pools@[jj] as int] by {}
                                }
                                assert forall|i: int| 0 <= i < stack.len() implies is_hop_open(
                                    nodes,
                                    *start,
                                    *end,
                                    (#[trigger] stack[i]).hops(),
                                ) && bookkept(stack[i]) by {
                                    if i < stack0.len() {
                                        assert(stack[i] == stack0[i]);
                                    }
                                }
                                assert forall|s: Seq<Hop>| #[trigger] is_hop_route(nodes, *start, *end, s) implies hops_found(
                                    paths@,
                                    s,
                                ) || hops_stacked(stack@, s) || (hop_prefix(q, s) && forall|jj: int|
                                    0 <= jj < j + 1 ==> nodes[pools@[jj] as int] != s[l as int].0) by {
                                    lemma_hops_stacked_push(stack0, p, s);
                                    if hop_prefix(q, s) && s[l as int].0 == v && !hops_found(paths0, s) && !hops_stacked(stack0, s) {
                                        lemma_next_hop(nodes, *start, *end, q, s);
                                    }
                                }
                            }
                        } else {
                            proof {
                                assert forall|s: Seq<Hop>| #[trigger] is_hop_route(nodes, *start, *end, s) implies hops_found(
                                    paths@,
                                    s,
                                ) || hops_stacked(stack@, s) || (hop_prefix(q, s) && forall|jj: int|
                                    0 <= jj < j + 1 ==> nodes[pools@[jj] as int] != s[l as int].0) by {
                                    if hop_prefix(q, s) && s[l as int].0 == v && !hops_found(paths0, s) && !hops_stacked(stack0, s) {
                                        lemma_next_hop(nodes, *start, *end, q, s);
                                    }
                                }
                            }
                        }
                    } else {
                        proof {
                            assert forall|s: Seq<Hop>| #[trigger] is_hop_route(nodes, *start, *end, s) implies hops_found(
                                paths@,
                                s,
                            ) || hops_stacked(stack@, s) || (hop_prefix(q, s) && forall|jj: int|
                                0 <= jj < j + 1 ==> nodes[pools@[jj] as int] != s[l as int].0) by {
                                if hop_prefix(q, s) && s[l as int].0 == v && !hops_found(paths0, s) && !hops_stacked(stack0, s) {
                                    lemma_next_hop(nodes, *start, *end, q, s);
                                }
                            }
                        }
                    }
                } else {
                    proof {
                        assert forall|s: Seq<Hop>| #[trigger] is_hop_route(nodes, *start, *end, s) implies hops_found(
                            paths@,
                            s,
                        ) || hops_stacked(stack@, s) || (hop_prefix(q, s) && forall|jj: int|
                            0 <= jj < j + 1 ==> nodes[pools@[jj] as int] != s[l as int].0) by {
                            if hop_prefix(q, s) && s[l as int].0 == v && !hops_found(paths0, s) && !hops_stacked(stack0, s) {
                                lemma_next_hop(nodes, *start, *end, q, s);
                            }
                        }
                    }
                }
                proof {
                    assert(hop_stack_weight(stack@, b) <= hop_stack_weight(rest, b) + (j + 1) * hop_weight(b, (l + 1) as nat)) by (nonlinear_arith)
                        requires
                            hop_stack_weight(stack@, b) <= hop_stack_weight(stack0, b) + hop_weight(b, (l + 1) as nat),
                            hop_stack_weight(stack0, b) <= hop_stack_weight(rest, b) + j * hop_weight(b, (l + 1) as nat),
                    ;
                }
                j = j + 1;
            }
            proof {
                assert(pools@.take(pools@.len() as int) =~= pools@);
                let rk = reaching_kids(nodes, *end, q, pools@);
                let ok = open_kids(nodes, *end, q, pools@);
                lemma_found_below_stack_append(nodes, *end, hops_of(rest), ok);
                assert(hops_of(paths@) + found_below_stack(nodes, *end, hops_of(stack@)) =~= p0 + (rk + found_below_stack(
                    nodes,
                    *end,
                    ok,
                ) + found_below_stack(nodes, *end, hops_of(rest))));
                assert forall|s: Seq<Hop>| #[trigger] is_hop_route(nodes, *start, *end, s) implies hops_found(
                    paths@,
                    s,
                ) || hops_stacked(stack@, s) by {
                    if !hops_found(paths@, s) && !hops_stacked(stack@, s) {
                        lemma_next_hop(nodes, *start, *end, q, s);
                        let x = s[l as int];
                        let p = choose|p: int| 0 <= p < nodes.len() && #[trigger] nodes[p] == x.0 && (x.0.spec_token0() == x.1 || x.0.spec_token1() == x.1);
                        assert(pools_at(nodes, t).contains(p as usize));
                        let jj = choose|jj: int| 0 <= jj < pools@.len() && pools@[jj] == p as usize;
                    }
                }
                assert(hop_weight(b, l as nat) == b * hop_weight(b, (l + 1) as nat));
                assert(hop_stack_weight(stack@, b) < hop_stack_weight(prev, b)) by (nonlinear_arith)
                    requires
                        hop_stack_weight(stack@, b) <= hop_stack_weight(rest, b) + pools@.len() * hop_weight(b, (l + 1) as nat),
                        hop_stack_weight(prev, b) == hop_stack_weight(rest, b) + hop_weight(b, l as nat),
                        hop_weight(b, l as nat) == b * hop_weight(b, (l + 1) as nat),
                        pools@.len() < b,
                        hop_weight(b, (l + 1) as nat) >= 1,
                ;
            }
        }
        paths
    }
}

impl<'a> SwapPath<'a> {
    /// The route's swaps by value.
    pub open spec fn hops(&self) -> Seq<Hop> {
        self.steps@.map_values(|st: Step<'a>| (*st.pool, *st.token_in, *st.token_out))
    }

    /// Whether the route already reaches the token.
    pub fn contains_token(&self, target: &Address) -> (r: bool)
        ensures
            r == exists|i: int| 0 <= i < self.steps.len() && *(#[trigger] self.steps[i]).token_out == *target,
    {
        let mut i: usize = 0;
        while i < self.steps.len()
            invariant
                0 <= i <= self.steps.len(),
                forall|j: int| 0 <= j < i ==> *(#[trigger] self.steps[j]).token_out != *target,
            decreases self.steps.len() - i,
        {
            if same_address(self.steps[i].token_out, target) {
                return true;
            }
            i = i + 1;
        }
        false
    }

    /// The route with one more swap at its end.
    fn extended(&self, step: Step<'a>) -> (r: SwapPath<'a>)
        ensures
            r.steps@ == self.steps@.push(step),
            r.addrs@ == self.addrs@,
    {
        let mut steps: Vec<Step<'a>> = Vec::new();
        let mut i: usize = 0;
        while i < self.steps.len()
            invariant
                0 <= i <= self.steps.len(),
                steps@ == self.steps@.take(i as int),
            decreases self.steps.len() - i,
        {
            steps.push(self.steps[i]);
            i = i + 1;
            assert(steps@ =~= self.steps@.take(i as int));
        }
        assert(steps@ =~= self.steps@);
        steps.push(step);
        let mut addrs: Vec<Address> = Vec::new();
        let mut k: usize = 0;
        while k < self.addrs.len()
            invariant
                0 <= k <= self.addrs.len(),
                addrs@ == self.addrs@.take(k as int),
            decreases self.addrs.len() - k,
        {
            addrs.push(self.addrs[k]);
            k = k + 1;
            assert(addrs@ =~= self.addrs@.take(k as int));
        }
        assert(addrs@ =~= self.addrs@);
        SwapPath { steps, addrs }
    }
}

/// Two routes are equal when they swap through pools of the same addresses.
impl<'a> PartialEq for SwapPath<'a> {
    fn eq(&self, other: &Self) -> (r: bool) {
        if self.steps.len() != other.steps.len() {
            return false;
        }
        let mut i: usize = 0;
        while i < self.steps.len()
            invariant
                0 <= i <= self.steps.len(),
                self.steps.len() == other.steps.len(),
                forall|j: int|
                    0 <= j < i ==> (#[trigger] self.steps[j]).pool.spec_addr()
                        == other.steps[j].pool.spec_addr(),
            decreases self.steps.len() - i,
        {
            if !same_address(self.steps[i].pool.addr(), other.steps[i].pool.addr()) {
                return false;
            }
            i = i + 1;
        }
        true
    }
}

impl<'a> vstd::std_specs::cmp::PartialEqSpecImpl for SwapPath<'a> {
    open spec fn obeys_eq_spec() -> bool {
        true
    }

    open spec fn eq_spec(&self, other: &Self) -> bool {
        &&& self.steps.len() == other.steps.len()
        &&& forall|j: int|
            0 <= j < self.steps.len() ==> (#[trigger] self.steps[j]).pool.spec_addr()
                == other.steps[j].pool.spec_addr()
    }
}

/// The pools at a token number are the pools at the token it numbers, where
/// each pool's numbers match its tokens.
proof fn lemma_touching_is_pools_at(ptt: Seq<[usize; 2]>, pools: Seq<Pool>, t: usize, a: Address)
    requires
        ptt.len() == pools.len(),
        forall|p: int|
            0 <= p < ptt.len() ==> ((#[trigger] ptt[p])[0] == t <==> pools[p].spec_token0() == a) && (
            ptt[p][1] == t <==> pools[p].spec_token1() == a),
    ensures
        touching(ptt, t) == pools_at(pools, a),
    decreases ptt.len(),
{
    if ptt.len() > 0 {
        let d = ptt.drop_last();
        let e = pools.drop_last();
        assert forall|p: int| 0 <= p < d.len() implies ((#[trigger] d[p])[0] == t <==> e[p].spec_token0()
            == a) && (d[p][1] == t <==> e[p].spec_token1() == a) by {
            assert(d[p] == ptt[p] && e[p] == pools[p]);
        }
        lemma_touching_is_pools_at(d, e, t, a);
        assert(ptt.last() == ptt[ptt.len() - 1]);
        assert(pools.last() == pools[pools.len() - 1]);
    }
}

/// Built from the same pools, the indexed graph and the token-keyed graph
/// list the same pools, in the same order, at each token that both know.
pub proof fn lemma_same_markets(
    indexed: &crate::poolgraph::Graph<Pool, Address, usize>,
    keyed: &Graph<Pool, Address>,
    a: Address,
)
    requires
        indexed.wf(),
        keyed.wf(),
        indexed.pool_list() == keyed.pool_list(),
        indexed.token_numbers().contains_key(a),
    ensures
        indexed.token_pools().contains_key(indexed.token_numbers()[a]),
        indexed.token_pools()[indexed.token_numbers()[a]] == pools_at(keyed.pool_list(), a),
{
    indexed.lemma_wf_facts();
    let ptt = indexed.pool_tokens();
    let pools = indexed.pool_list();
    let t = indexed.token_numbers()[a];
    let nt = indexed.number_tokens();
    let tn = indexed.token_numbers();
    assert(nt.contains_key(t) && nt[t] == a);
    assert forall|p: int| 0 <= p < ptt.len() implies ((#[trigger] ptt[p])[0] == t <==> pools[p].spec_token0()
        == a) && (ptt[p][1] == t <==> pools[p].spec_token1() == a) by {
        assert(ptt.len() == pools.len());
        assert(0 <= p < pools.len());
        assert(nt.contains_key(indexed.pool_tokens()[p][0]));
        assert(nt.contains_key(ptt[p][0]) && nt.contains_key(ptt[p][1]));
        assert(tn[nt[ptt[p][0]]] == ptt[p][0]);
        assert(tn[nt[ptt[p][1]]] == ptt[p][1]);
    }
    lemma_touching_is_pools_at(ptt, pools, t, a);
}

/// Built from the same pools, the indexed graph and the token-keyed graph
/// know the same tokens, so their `markets_of_token` answer `None` for the
/// same tokens: those that no pool trades.
pub proof fn lemma_same_tokens(
    indexed: &crate::poolgraph::Graph<Pool, Address, usize>,
    keyed: &Graph<Pool, Address>,
    pools: Seq<Pool>,
    a: Address,
)
    requires
        forall|i: int|
            0 <= i < token_order(pools).len() ==> indexed.token_numbers().contains_key(
                #[trigger] token_order(pools)[i],
            ),
        forall|b: Address| #[trigger]
            indexed.token_numbers().contains_key(b) ==> token_order(pools).contains(b),
        forall|b: Address|
            #[trigger] keyed.has_token(b) <==> exists|p: int|
                0 <= p < pools.len() && (pools[p].spec_token0() == b || pools[p].spec_token1() == b),
    ensures
        indexed.token_numbers().contains_key(a) <==> keyed.has_token(a),
{
    lemma_token_order_members(pools, a);
    if token_order(pools).contains(a) {
        let i = choose|i: int| 0 <= i < token_order(pools).len() && token_order(pools)[i] == a;
        assert(indexed.token_numbers().contains_key(token_order(pools)[i]));
    }
}

} // verus!
