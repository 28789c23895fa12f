//! What the graph's maps hold, in terms of the pool list.
use vstd::prelude::*;
use crate::pool::Pool;
use crate::types::Address;

verus! {

/// The tokens of each pool, `token0` then `token1`, pool after pool.
pub open spec fn endpoints(pools: Seq<Pool>) -> Seq<Address>
    decreases pools.len(),
{
    if pools.len() == 0 {
        Seq::empty()
    } else {
        endpoints(pools.drop_last()).push(pools.last().spec_token0()).push(
            pools.last().spec_token1(),
        )
    }
}

/// Each address of a sequence once, in the order of its first appearance.
pub open spec fn first_appearance(s: Seq<Address>) -> Seq<Address>
    decreases s.len(),
{
    if s.len() == 0 {
        Seq::empty()
    } else {
        let d = first_appearance(s.drop_last());
        if d.contains(s.last()) {
            d
        } else {
            d.push(s.last())
        }
    }
}

/// The tokens of a pool list in the order that the graph numbers them.
pub open spec fn token_order(pools: Seq<Pool>) -> Seq<Address> {
    first_appearance(endpoints(pools))
}

/// The pools at token number `t`, in pool order, a pool twice where both of
/// its tokens are `t`.
pub open spec fn touching(ptt: Seq<[usize; 2]>, t: usize) -> Seq<usize>
    decreases ptt.len(),
{
    if ptt.len() == 0 {
        Seq::empty()
    } else {
        let prev = touching(ptt.drop_last(), t);
        let p = (ptt.len() - 1) as usize;
        let a = if ptt.last()[0] == t {
            prev.push(p)
        } else {
            prev
        };
        if ptt.last()[1] == t {
            a.push(p)
        } else {
            a
        }
    }
}

/// One more pool adds its two tokens to the endpoints.
pub proof fn lemma_endpoints_step(pools: Seq<Pool>, k: int)
    requires
        0 <= k < pools.len(),
    ensures
        endpoints(pools.take(k + 1)) == endpoints(pools.take(k)).push(pools[k].spec_token0()).push(
            pools[k].spec_token1(),
        ),
{
    assert(pools.take(k + 1).drop_last() =~= pools.take(k));
}

/// One more address is kept where it is new.
pub proof fn lemma_first_appearance_prefix(e: Seq<Address>, x: Address)
    ensures
        first_appearance(e.push(x)) == (if first_appearance(e).contains(x) {
            first_appearance(e)
        } else {
            first_appearance(e).push(x)
        }),
{
    assert(e.push(x).drop_last() =~= e);
}

/// One more pool joins the lists of its tokens.
pub proof fn lemma_touching_push(ptt: Seq<[usize; 2]>, entry: [usize; 2], t: usize)
    ensures
        touching(ptt.push(entry), t) == ({
            let prev = touching(ptt, t);
            let p = ptt.len() as usize;
            let a = if entry[0] == t {
                prev.push(p)
            } else {
                prev
            };
            if entry[1] == t {
                a.push(p)
            } else {
                a
            }
        }),
{
    assert(ptt.push(entry).drop_last() =~= ptt);
}

/// No pool is at a token number that no pool names.
pub proof fn lemma_touching_absent(ptt: Seq<[usize; 2]>, t: usize, bound: nat)
    requires
        t >= bound,
        forall|p: int| 0 <= p < ptt.len() ==> (#[trigger] ptt[p])[0] < bound && ptt[p][1] < bound,
    ensures
        touching(ptt, t) == Seq::<usize>::empty(),
    decreases ptt.len(),
{
    if ptt.len() > 0 {
        let d = ptt.drop_last();
        assert forall|p: int| 0 <= p < d.len() implies (#[trigger] d[p])[0] < bound && d[p][1]
            < bound by {
            assert(d[p] == ptt[p]);
        }
        lemma_touching_absent(d, t, bound);
        assert(ptt.last() == ptt[ptt.len() - 1]);
    }
}

/// The pools listed at a token are pools at that token, and every pool at it
/// is listed.
pub proof fn lemma_touching_members(ptt: Seq<[usize; 2]>, t: usize)
    requires
        ptt.len() <= usize::MAX,
    ensures
        forall|j: int|
            0 <= j < touching(ptt, t).len() ==> {
                let p = #[trigger] touching(ptt, t)[j];
                &&& p < ptt.len()
                &&& (ptt[p as int][0] == t || ptt[p as int][1] == t)
            },
        forall|p: usize|
            p < ptt.len() && (ptt[p as int][0] == t || ptt[p as int][1] == t) ==> #[trigger] touching(
                ptt,
                t,
            ).contains(p),
        touching(ptt, t).len() <= 2 * ptt.len(),
    decreases ptt.len(),
{
    if ptt.len() > 0 {
        let d = ptt.drop_last();
        lemma_touching_members(d, t);
        let prev = touching(d, t);
        let n = (ptt.len() - 1) as usize;
        let last = ptt[n as int];
        assert(ptt.last() == last);
        let a = if last[0] == t {
            prev.push(n)
        } else {
            prev
        };
        let s = touching(ptt, t);
        assert(s == (if last[1] == t {
            a.push(n)
        } else {
            a
        }));
        assert forall|j: int| 0 <= j < s.len() implies {
            let p = #[trigger] s[j];
            &&& p < ptt.len()
            &&& (ptt[p as int][0] == t || ptt[p as int][1] == t)
        } by {
            if j < prev.len() {
                assert(s[j] == prev[j]);
                assert(ptt[prev[j] as int] == d[prev[j] as int]);
            } else if j < a.len() {
                assert(a[j] == n);
                assert(s[j] == n);
            } else {
                assert(s[j] == n);
            }
        }
        assert forall|p: usize|
            p < ptt.len() && (ptt[p as int][0] == t || ptt[p as int][1] == t) implies #[trigger] s.contains(
            p,
        ) by {
            if p < n {
                assert(d[p as int] == ptt[p as int]);
                assert(prev.contains(p));
                let j = choose|j: int| 0 <= j < prev.len() && prev[j] == p;
                assert(s[j] == prev[j]);
            } else {
                assert(p == n);
                if last[0] == t {
                    assert(s[prev.len() as int] == n);
                } else {
                    assert(s[s.len() - 1] == n);
                }
            }
        }
    }
}

/// The tokens that the graph numbers are exactly the tokens that some pool
/// trades.
pub proof fn lemma_token_order_members(pools: Seq<Pool>, a: Address)
    ensures
        token_order(pools).contains(a) <==> exists|p: int|
            0 <= p < pools.len() && (pools[p].spec_token0() == a || pools[p].spec_token1() == a),
    decreases pools.len(),
{
    lemma_first_appearance_members(endpoints(pools), a);
    if pools.len() > 0 {
        let d = pools.drop_last();
        lemma_token_order_members(d, a);
        lemma_first_appearance_members(endpoints(d), a);
        let e = endpoints(d);
        let last = pools.last();
        assert(endpoints(pools) == e.push(last.spec_token0()).push(last.spec_token1()));
        assert(pools[pools.len() - 1] == last);
        if exists|p: int| 0 <= p < pools.len() && (pools[p].spec_token0() == a || pools[p].spec_token1() == a) {
            let p = choose|p: int| 0 <= p < pools.len() && (pools[p].spec_token0() == a || pools[p].spec_token1() == a);
            if p < d.len() {
                assert(d[p] == pools[p]);
                assert(e.contains(a));
                let i = choose|i: int| 0 <= i < e.len() && e[i] == a;
                assert(endpoints(pools)[i] == a);
            } else {
                if last.spec_token0() == a {
                    assert(endpoints(pools)[e.len() as int] == a);
                } else {
                    assert(endpoints(pools)[e.len() as int + 1] == a);
                }
            }
        }
        if endpoints(pools).contains(a) {
            let i = choose|i: int| 0 <= i < endpoints(pools).len() && endpoints(pools)[i] == a;
            if i < e.len() {
                assert(e[i] == a);
                assert(e.contains(a));
                let p = choose|p: int| 0 <= p < d.len() && (d[p].spec_token0() == a || d[p].spec_token1() == a);
                assert(d[p] == pools[p]);
            }
        }
    }
}

/// An address is among those kept once each exactly when it is in the sequence.
pub proof fn lemma_first_appearance_members(e: Seq<Address>, x: Address)
    ensures
        first_appearance(e).contains(x) <==> e.contains(x),
    decreases e.len(),
{
    if e.len() > 0 {
        let d = e.drop_last();
        lemma_first_appearance_members(d, x);
        let f = first_appearance(d);
        assert(e == d.push(e.last()));
        if e.contains(x) && !d.contains(x) {
            let i = choose|i: int| 0 <= i < e.len() && e[i] == x;
            if i < d.len() {
                assert(d[i] == x);
            }
            assert(e.last() == x);
            if !f.contains(x) {
                assert(f.push(x)[f.len() as int] == x);
            }
        }
        if d.contains(x) {
            let i = choose|i: int| 0 <= i < d.len() && d[i] == x;
            assert(e[i] == x);
            if !f.contains(e.last()) {
                let k = choose|k: int| 0 <= k < f.len() && f[k] == x;
                assert(f.push(e.last())[k] == x);
            }
        }
        if first_appearance(e).contains(x) && !f.contains(x) {
            assert(first_appearance(e) == f.push(e.last()));
            let k = choose|k: int| 0 <= k < f.push(e.last()).len() && f.push(e.last())[k] == x;
            assert(e[e.len() - 1] == e.last());
        }
    }
}

} // verus!
