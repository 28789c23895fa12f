//! The search for swap cycles: every route of at most `MAXLEN` pools from one
//! token to another that uses no pool twice and reaches no token twice.
use vstd::prelude::*;
use std::sync::Arc;
use crate::constants::MAXLEN;
use crate::pool::Pool;
use crate::types::Address;
use crate::maps::{address_index_get, index_list_get};
use super::Graph;
use super::spec::{touching, lemma_touching_members};

verus! {

/// A pool, the token number it is entered with and the one it gives back.
pub type Triple = (usize, usize, usize);

/// One swap of a route: a pool index and two token numbers.
#[derive(Clone, Copy)]
struct PathStep {
    pool: usize,
    token_in: usize,
    token_out: usize,
}

/// A route through the graph by indices.
pub struct Path {
    steps: Vec<PathStep>,
}

impl View for Path {
    type V = Seq<Triple>;

    closed spec fn view(&self) -> Seq<Triple> {
        self.steps@.map_values(|s: PathStep| (s.pool, s.token_in, s.token_out))
    }
}

impl Clone for Path {
    fn clone(&self) -> (r: Self)
        ensures
            r@ == self@,
    {
        let mut steps: Vec<PathStep> = Vec::new();
        let mut i: usize = 0;
        while i < self.steps.len()
            invariant
                0 <= i <= self.steps.len(),
                steps@ == self.steps@.take(i as int),
            decreases self.steps.len() - i,
        {
            steps.push(self.steps[i]);
            i = i + 1;
            assert(steps@ =~= self.steps@.take(i as int));
        }
        assert(steps@ =~= self.steps@);
        Path { steps }
    }
}

impl Path {
    /// The route's swaps as index triples.
    pub fn triples(&self) -> (r: Vec<Triple>)
        ensures
            r@ == self@,
    {
        let mut r: Vec<Triple> = Vec::new();
        let mut i: usize = 0;
        while i < self.steps.len()
            invariant
                0 <= i <= self.steps.len(),
                r@ == self@.take(i as int),
            decreases self.steps.len() - i,
        {
            let s = self.steps[i];
            r.push((s.pool, s.token_in, s.token_out));
            i = i + 1;
            assert(r@ =~= self@.take(i as int));
        }
        assert(r@ =~= self@);
        r
    }

    /// Whether the route swaps through the pool.
    fn contains(&self, pool: &usize) -> (r: bool)
        ensures
            r == exists|i: int| 0 <= i < self@.len() && (#[trigger] self@[i]).0 == *pool,
    {
        let mut i: usize = 0;
        while i < self.steps.len()
            invariant
                0 <= i <= self.steps.len(),
                self@.len() == self.steps.len(),
                forall|j: int| 0 <= j < i ==> (#[trigger] self@[j]).0 != *pool,
            decreases self.steps.len() - i,
        {
            if self.steps[i].pool == *pool {
                assert(self@[i as int].0 == *pool);
                return true;
            }
            i = i + 1;
        }
        false
    }

    /// Whether the route already reaches the token.
    fn used_token(&self, token: &usize) -> (r: bool)
        ensures
            r == exists|i: int| 0 <= i < self@.len() && (#[trigger] self@[i]).2 == *token,
    {
        let mut i: usize = 0;
        while i < self.steps.len()
            invariant
                0 <= i <= self.steps.len(),
                self@.len() == self.steps.len(),
                forall|j: int| 0 <= j < i ==> (#[trigger] self@[j]).2 != *token,
            decreases self.steps.len() - i,
        {
            if self.steps[i].token_out == *token {
                assert(self@[i as int].2 == *token);
                return true;
            }
            i = i + 1;
        }
        false
    }

    /// The route of one swap.
    fn single(step: PathStep) -> (r: Path)
        ensures
            r@ == seq![(step.pool, step.token_in, step.token_out)],
    {
        let mut steps: Vec<PathStep> = Vec::new();
        steps.push(step);
        let r = Path { steps };
        assert(r@ =~= seq![(step.pool, step.token_in, step.token_out)]);
        r
    }

    /// The route with one more swap at its end.
    fn extended(&self, step: PathStep) -> (r: Path)
        ensures
            r@ == self@.push((step.pool, step.token_in, step.token_out)),
    {
        let mut p = self.clone();
        p.steps.push(step);
        assert(p@ =~= self@.push((step.pool, step.token_in, step.token_out)));
        p
    }

    /// The last swap of a non-empty route.
    fn last_step(&self) -> (r: PathStep)
        requires
            self@.len() > 0,
        ensures
            (r.pool, r.token_in, r.token_out) == self@.last(),
    {
        self.steps[self.steps.len() - 1]
    }
}

/// The token that pool `pool` gives back for token number `token_in`.
pub open spec fn step_out(ptt: Seq<[usize; 2]>, pool: usize, token_in: usize) -> usize {
    if ptt[pool as int][0] == token_in {
        ptt[pool as int][1]
    } else {
        ptt[pool as int][0]
    }
}

/// Whether pool `pool` trades token number `t`.
pub open spec fn at_token(ptt: Seq<[usize; 2]>, pool: usize, t: usize) -> bool {
    pool < ptt.len() && (ptt[pool as int][0] == t || ptt[pool as int][1] == t)
}

/// Whether a sequence of swaps starts at `start`, each swap leaving with the
/// token the next one enters with, through pools that trade the token they
/// are entered with, never using a pool twice nor reaching a token twice,
/// and reaching `target` at most with its last swap.
pub open spec fn chained(ptt: Seq<[usize; 2]>, start: usize, target: usize, s: Seq<Triple>) -> bool {
    &&& s.len() >= 1
    &&& s[0].1 == start
    &&& forall|i: int|
        0 <= i < s.len() ==> at_token(ptt, (#[trigger] s[i]).0, s[i].1) && s[i].2 == step_out(
            ptt,
            s[i].0,
            s[i].1,
        )
    &&& forall|i: int, j: int|
        0 <= i && j == i + 1 && j < s.len() ==> (#[trigger] s[j]).1 == (#[trigger] s[i]).2
    &&& forall|i: int, j: int|
        0 <= i < j < s.len() ==> (#[trigger] s[i]).0 != (#[trigger] s[j]).0 && s[i].2 != s[j].2
    &&& forall|i: int| 0 <= i < s.len() - 1 ==> (#[trigger] s[i]).2 != target
}

/// A swap route from `start` to `target` of at most `MAXLEN` swaps.
pub open spec fn is_route(ptt: Seq<[usize; 2]>, start: usize, target: usize, maxlen: usize, s: Seq<Triple>) -> bool {
    &&& chained(ptt, start, target, s)
    &&& s.len() <= maxlen
    &&& s.last().2 == target
}

/// A route still open: it has not reached `target` and may grow.
pub open spec fn open_route(ptt: Seq<[usize; 2]>, start: usize, target: usize, maxlen: usize, s: Seq<Triple>) -> bool {
    &&& chained(ptt, start, target, s)
    &&& s.len() < maxlen
    &&& s.last().2 != target
}

/// Whether `q` is a proper beginning of `s`.
pub open spec fn strict_prefix(q: Seq<Triple>, s: Seq<Triple>) -> bool {
    q.len() < s.len() && s.take(q.len() as int) == q
}

/// Whether a list of routes holds the route `s`.
pub open spec fn found_in(found: Seq<Path>, s: Seq<Triple>) -> bool {
    exists|i: int| 0 <= i < found.len() && (#[trigger] found[i])@ == s
}

/// Whether a list of routes holds a proper beginning of `s`.
pub open spec fn prefix_on(stack: Seq<Path>, s: Seq<Triple>) -> bool {
    exists|i: int| 0 <= i < stack.len() && strict_prefix((#[trigger] stack[i])@, s)
}

/// The weight of a route of `len` swaps: `b` to the power of the swaps it may
/// still take.
pub open spec fn weight(b: nat, len: nat, maxlen: usize) -> nat
    decreases maxlen - len,
{
    if len >= maxlen {
        1
    } else {
        b * weight(b, len + 1, maxlen)
    }
}

/// The summed weight of the routes on a stack.
pub open spec fn stack_weight(stack: Seq<Path>, b: nat, maxlen: usize) -> nat
    decreases stack.len(),
{
    if stack.len() == 0 {
        0
    } else {
        stack_weight(stack.drop_last(), b, maxlen) + weight(b, stack.last()@.len(), maxlen)
    }
}

proof fn lemma_weight_positive(b: nat, len: nat, maxlen: usize)
    requires
        b >= 1,
    ensures
        weight(b, len, maxlen) >= 1,
    decreases maxlen - len,
{
    if len < maxlen {
        lemma_weight_positive(b, len + 1, maxlen);
        assert(b * weight(b, len + 1, maxlen) >= weight(b, len + 1, maxlen)) by (nonlinear_arith)
            requires
                b >= 1,
                weight(b, len + 1, maxlen) >= 1,
        ;
    }
}

proof fn lemma_stack_weight_push(stack: Seq<Path>, x: Path, b: nat, maxlen: usize)
    ensures
        stack_weight(stack.push(x), b, maxlen) == stack_weight(stack, b, maxlen) + weight(b, x@.len(), maxlen),
{
    assert(stack.push(x).drop_last() =~= stack);
}

proof fn lemma_found_in_push(found: Seq<Path>, x: Path, s: Seq<Triple>)
    ensures
        found_in(found, s) ==> found_in(found.push(x), s),
        found_in(found.push(x), x@),
{
    if found_in(found, s) {
        let i = choose|i: int| 0 <= i < found.len() && (#[trigger] found[i])@ == s;
        assert(found.push(x)[i] == found[i]);
    }
    assert(found.push(x)[found.len() as int] == x);
}

proof fn lemma_prefix_on_push(stack: Seq<Path>, x: Path, s: Seq<Triple>)
    ensures
        prefix_on(stack, s) ==> prefix_on(stack.push(x), s),
        strict_prefix(x@, s) ==> prefix_on(stack.push(x), s),
{
    if prefix_on(stack, s) {
        let i = choose|i: int| 0 <= i < stack.len() && strict_prefix((#[trigger] stack[i])@, s);
        assert(stack.push(x)[i] == stack[i]);
    }
    assert(stack.push(x)[stack.len() as int] == x);
}

/// A route that is still open, with one more fitting swap, is chained.
proof fn lemma_extend_chained(ptt: Seq<[usize; 2]>, start: usize, target: usize, q: Seq<Triple>, t: Triple)
    requires
        chained(ptt, start, target, q),
        q.last().2 != target,
        at_token(ptt, t.0, t.1),
        t.1 == q.last().2,
        t.2 == step_out(ptt, t.0, t.1),
        forall|i: int| 0 <= i < q.len() ==> (#[trigger] q[i]).0 != t.0 && q[i].2 != t.2,
    ensures
        chained(ptt, start, target, q.push(t)),
{
    let s = q.push(t);
    assert forall|i: int| 0 <= i < q.len() implies #[trigger] s[i] == q[i] by {}
    assert(s[q.len() as int] == t);
    assert forall|i: int, j: int|
        0 <= i && j == i + 1 && j < s.len() implies (#[trigger] s[j]).1 == (#[trigger] s[i]).2 by {
        if j < q.len() {
            assert(s[j] == q[j] && s[i] == q[i]);
        } else {
            assert(q.last() == q[i]);
        }
    }
    assert forall|i: int, j: int| 0 <= i < j < s.len() implies (#[trigger] s[i]).0 != (
    #[trigger] s[j]).0 && s[i].2 != s[j].2 by {
        if j < q.len() {
            assert(s[j] == q[j] && s[i] == q[i]);
        } else {
            assert(s[i] == q[i]);
        }
    }
    assert forall|i: int| 0 <= i < s.len() - 1 implies (#[trigger] s[i]).2 != target by {
        assert(s[i] == q[i]);
        if i < q.len() - 1 {
        } else {
            assert(q.last() == q[i]);
        }
    }
}


/// The swap that follows a proper beginning `q` of a route `s` fits `q`:
/// it enters with the token `q` reaches, through a pool `q` has not used, and
/// reaches a token `q` has not reached.
proof fn lemma_next_step_of_route(ptt: Seq<[usize; 2]>, start: usize, target: usize, maxlen: usize, q: Seq<Triple>, s: Seq<Triple>)
    requires
        is_route(ptt, start, target, maxlen, s),
        strict_prefix(q, s),
        open_route(ptt, start, target, maxlen, q),
    ensures
        ({
            let x = s[q.len() as int];
            &&& x.1 == q.last().2
            &&& at_token(ptt, x.0, x.1)
            &&& x.2 == step_out(ptt, x.0, x.1)
            &&& forall|i: int| 0 <= i < q.len() ==> (#[trigger] q[i]).0 != x.0 && q[i].2 != x.2
            &&& s.take(q.len() as int + 1) == q.push(x)
            &&& x.2 == target ==> s == q.push(x)
            &&& x.2 != target ==> q.len() + 1 < s.len()
        }),
{
    let l = q.len() as int;
    let x = s[l];
    assert forall|i: int| 0 <= i < l implies #[trigger] q[i] == s[i] by {
        assert(s.take(l)[i] == s[i]);
    }
    assert(q.last() == s[l - 1]);
    assert(s[l].1 == s[l - 1].2);
    assert(at_token(ptt, s[l].0, s[l].1));
    assert forall|i: int| 0 <= i < l implies (#[trigger] q[i]).0 != x.0 && q[i].2 != x.2 by {
        assert(q[i] == s[i]);
        assert(s[i].0 != s[l].0 && s[i].2 != s[l].2);
    }
    assert(s.take(l + 1) =~= q.push(x));
    if x.2 == target {
        if l < s.len() - 1 {
            assert(s[l].2 != target);
        }
        assert(s =~= s.take(l + 1));
    } else {
        assert(s.last() == s[s.len() - 1]);
    }
}

/// Whether `a` is a beginning of `b`, `b` itself included.
pub open spec fn is_prefix(a: Seq<Triple>, b: Seq<Triple>) -> bool {
    a.len() <= b.len() && b.take(a.len() as int) == a
}

/// Whether no pool has its two token numbers equal.
pub open spec fn simple_ends(ptt: Seq<[usize; 2]>) -> bool {
    forall|p: int| 0 <= p < ptt.len() ==> (#[trigger] ptt[p])[0] != ptt[p][1]
}

/// Whether no route of a list is listed twice.
pub open spec fn distinct_routes(paths: Seq<Path>) -> bool {
    forall|i: int, j: int| 0 <= i < j < paths.len() ==> (#[trigger] paths[i])@ != (#[trigger] paths[j])@
}

/// Whether no route of a stack begins another one.
spec fn stack_apart(stack: Seq<Path>) -> bool {
    forall|i: int, j: int|
        0 <= i < stack.len() && 0 <= j < stack.len() && i != j ==> !is_prefix(
            (#[trigger] stack[i])@,
            (#[trigger] stack[j])@,
        )
}

/// Whether no route of a stack begins a found route.
spec fn none_leads(stack: Seq<Path>, found: Seq<Path>) -> bool {
    forall|i: int, k: int|
        0 <= i < stack.len() && 0 <= k < found.len() ==> !is_prefix(
            (#[trigger] stack[i])@,
            (#[trigger] found[k])@,
        )
}

/// How beginnings relate to a route grown by one swap.
proof fn lemma_prefix_grow(q: Seq<Triple>, x: Triple, s: Seq<Triple>)
    ensures
        is_prefix(q, q.push(x)),
        is_prefix(q.push(x), s) ==> is_prefix(q, s) && s[q.len() as int] == x,
        is_prefix(s, q.push(x)) && s.len() <= q.len() ==> is_prefix(s, q),
        is_prefix(s, q.push(x)) && s.len() == q.len() + 1 ==> s == q.push(x),
        is_prefix(q, s) && s.len() == q.len() + 1 ==> s == q.push(s[q.len() as int]),
{
    let c = q.push(x);
    assert(c.take(q.len() as int) =~= q);
    if is_prefix(c, s) {
        assert(s.take(q.len() as int) =~= s.take(c.len() as int).take(q.len() as int));
        assert(s.take(c.len() as int)[q.len() as int] == s[q.len() as int]);
    }
    if is_prefix(s, c) && s.len() <= q.len() {
        assert(q.take(s.len() as int) =~= c.take(s.len() as int));
    }
    if is_prefix(s, c) && s.len() == q.len() + 1 {
        assert(s =~= c.take(s.len() as int));
        assert(c.take(c.len() as int) =~= c);
    }
    if is_prefix(q, s) && s.len() == q.len() + 1 {
        assert(s =~= q.push(s[q.len() as int]));
    }
}

/// Under simple ends the pools at a token come in strictly rising order.
proof fn lemma_touching_rising(ptt: Seq<[usize; 2]>, t: usize)
    requires
        simple_ends(ptt),
        ptt.len() <= usize::MAX,
    ensures
        forall|i: int, j: int|
            0 <= i < j < touching(ptt, t).len() ==> touching(ptt, t)[i] < touching(ptt, t)[j],
        forall|i: int| 0 <= i < touching(ptt, t).len() ==> touching(ptt, t)[i] < ptt.len(),
    decreases ptt.len(),
{
    if ptt.len() > 0 {
        let d = ptt.drop_last();
        assert forall|p: int| 0 <= p < d.len() implies (#[trigger] d[p])[0] != d[p][1] by {
            assert(d[p] == ptt[p]);
        }
        lemma_touching_rising(d, t);
        let prev = touching(d, t);
        let n = (ptt.len() - 1) as usize;
        let last = ptt[n as int];
        assert(ptt.last() == last);
        assert(last[0] != last[1]);
        let a = if last[0] == t {
            prev.push(n)
        } else {
            prev
        };
        let r = touching(ptt, t);
        assert(r == (if last[1] == t {
            a.push(n)
        } else {
            a
        }));
        assert(last[0] == t ==> last[1] != t);
        assert forall|i: int| 0 <= i < r.len() implies #[trigger] r[i] < ptt.len() && (i < prev.len()
            ==> r[i] == prev[i] && r[i] < n) && (i >= prev.len() ==> r[i] == n) by {
            if i < prev.len() {
                assert(a[i] == prev[i]);
            }
        }
        assert(r.len() <= prev.len() + 1);
    }
}

/// A route grown by the pool at position `j` of a rising pool list stays
/// apart from a route that only an earlier pool of the list grows out of `q`.
proof fn lemma_child_apart(q: Seq<Triple>, x: Triple, s: Seq<Triple>, pools: Seq<usize>, j: int)
    requires
        0 <= j < pools.len(),
        x.0 == pools[j],
        forall|a: int, b: int| 0 <= a < b < pools.len() ==> pools[a] < pools[b],
        is_prefix(q, s) ==> s.len() == q.len() + 1 && exists|jj: int|
            0 <= jj < j && s[q.len() as int].0 == pools[jj],
    ensures
        !is_prefix(s, q) ==> !is_prefix(s, q.push(x)),
        !is_prefix(q.push(x), s),
        s != q.push(x),
{
    let c = q.push(x);
    lemma_prefix_grow(q, x, s);
    assert(c.take(c.len() as int) =~= c);
    if is_prefix(q, s) && s.len() == q.len() + 1 && s[q.len() as int] == x {
        let jj = choose|jj: int| 0 <= jj < j && s[q.len() as int].0 == pools[jj];
        assert(pools[jj] < pools[j]);
    }
    if s == c {
        assert(s[q.len() as int] == x);
    }
}

/// A single swap through the pool at position `j` of a rising pool list
/// stays apart from a single swap through an earlier pool of the list.
proof fn lemma_single_apart(x: Triple, s: Seq<Triple>, pools: Seq<usize>, j: int)
    requires
        0 <= j < pools.len(),
        x.0 == pools[j],
        forall|a: int, b: int| 0 <= a < b < pools.len() ==> pools[a] < pools[b],
        s.len() == 1,
        exists|jj: int| 0 <= jj < j && s[0].0 == pools[jj],
    ensures
        !is_prefix(s, seq![x]),
        !is_prefix(seq![x], s),
        s != seq![x],
{
    let jj = choose|jj: int| 0 <= jj < j && s[0].0 == pools[jj];
    assert(pools[jj] < pools[j]);
    assert(s.take(1) =~= s);
    assert(seq![x].take(1) =~= seq![x]);
    assert(seq![x][0] == x);
}

/// Takes routes off the stack until it is empty, growing each by every pool
/// at its last token that it has not used into a token it has not reached:
/// a grown route that reaches the target is found, any other is stacked
/// while shorter than `MAXLEN`.
fn search(
    graph: &Graph<Pool, Address, usize>,
    stack: &mut Vec<Path>,
    found: &mut Vec<Path>,
    target_index: usize,
    maxlen: usize,
    Ghost(start): Ghost<usize>,
)
    requires
        graph.wf(),
        forall|i: int|
            0 <= i < old(stack).len() ==> open_route(
                graph.pool_tokens(),
                start,
                target_index,
                maxlen,
                (#[trigger] old(stack)[i])@,
            ),
        forall|i: int|
            0 <= i < old(found).len() ==> is_route(
                graph.pool_tokens(),
                start,
                target_index,
                maxlen,
                (#[trigger] old(found)[i])@,
            ),
        forall|s: Seq<Triple>|
            #[trigger] is_route(graph.pool_tokens(), start, target_index, maxlen, s) ==> found_in(
                old(found)@,
                s,
            ) || prefix_on(old(stack)@, s),
        simple_ends(graph.pool_tokens()) ==> distinct_routes(old(found)@) && stack_apart(
            old(stack)@,
        ) && none_leads(old(stack)@, old(found)@),
    ensures
        final(stack).len() == 0,
        simple_ends(graph.pool_tokens()) ==> distinct_routes(final(found)@),
        forall|i: int|
            0 <= i < final(found).len() ==> is_route(
                graph.pool_tokens(),
                start,
                target_index,
                maxlen,
                (#[trigger] final(found)[i])@,
            ),
        forall|s: Seq<Triple>|
            #[trigger] is_route(graph.pool_tokens(), start, target_index, maxlen, s) ==> found_in(
                final(found)@,
                s,
            ),
{
    let ghost ptt = graph.pool_tokens();
    let ghost b: nat = (2 * ptt.len() + 1) as nat;
    loop
        invariant
            graph.wf(),
            ptt == graph.pool_tokens(),
            b == 2 * ptt.len() + 1,
            forall|i: int|
                0 <= i < stack.len() ==> open_route(ptt, start, target_index, maxlen, (#[trigger] stack[i])@),
            forall|i: int|
                0 <= i < found.len() ==> is_route(ptt, start, target_index, maxlen, (#[trigger] found[i])@),
            forall|s: Seq<Triple>|
                #[trigger] is_route(ptt, start, target_index, maxlen, s) ==> found_in(found@, s)
                    || prefix_on(stack@, s),
            simple_ends(ptt) ==> distinct_routes(found@) && stack_apart(stack@) && none_leads(
                stack@,
                found@,
            ),
        ensures
            forall|i: int|
                0 <= i < found.len() ==> is_route(ptt, start, target_index, maxlen, (#[trigger] found[i])@),
            forall|s: Seq<Triple>|
                #[trigger] is_route(ptt, start, target_index, maxlen, s) ==> found_in(found@, s),
            stack.len() == 0,
            simple_ends(ptt) ==> distinct_routes(found@),
        decreases stack_weight(stack@, b, maxlen),
    {
        let ghost prev = stack@;
        let popped = stack.pop();
        let path = match popped {
            Some(path) => path,
            None => {
                assert(stack@.len() == 0);
                break;
            },
        };
        let ghost rest = stack@;
        let ghost q = path@;
        let ghost l = q.len();
        proof {
            assert(prev == rest.push(path));
            lemma_stack_weight_push(rest, path, b, maxlen);
            assert(prev[prev.len() - 1] == path);
            assert forall|i: int| 0 <= i < rest.len() implies #[trigger] rest[i] == prev[i] by {}
            if simple_ends(ptt) {
                let ip = prev.len() - 1;
                assert forall|i: int| 0 <= i < rest.len() implies !is_prefix((#[trigger] rest[i])@, q)
                    && !is_prefix(q, rest[i]@) by {
                    assert(prev[i] == rest[i]);
                    assert(!is_prefix(prev[i]@, prev[ip]@));
                    assert(!is_prefix(prev[ip]@, prev[i]@));
                }
                assert forall|k: int| 0 <= k < found.len() implies !is_prefix(q, (#[trigger] found[k])@) by {
                    assert(!is_prefix(prev[ip]@, found[k]@));
                }
                assert forall|i: int, k: int| 0 <= i < rest.len() && 0 <= k < found.len() implies !is_prefix(
                    (#[trigger] rest[i])@,
                    (#[trigger] found[k])@,
                ) by {
                    assert(prev[i] == rest[i]);
                }
                assert forall|i: int, k: int| 0 <= i < rest.len() && 0 <= k < rest.len() && i != k implies !is_prefix(
                    (#[trigger] rest[i])@,
                    (#[trigger] rest[k])@,
                ) by {
                    assert(prev[i] == rest[i]);
                    assert(prev[k] == rest[k]);
                }
            }
            assert forall|s: Seq<Triple>| #[trigger] is_route(ptt, start, target_index, maxlen, s) implies found_in(
                found@,
                s,
            ) || prefix_on(rest, s) || strict_prefix(q, s) by {
                if prefix_on(prev, s) && !found_in(found@, s) {
                    let i = choose|i: int| 0 <= i < prev.len() && strict_prefix((#[trigger] prev[i])@, s);
                    if i < rest.len() {
                        assert(rest[i] == prev[i]);
                    }
                }
            }
        }
        let last = path.last_step();
        let t = last.token_out;
        proof {
            let lp = q.last();
            assert(q[q.len() - 1] == lp);
            assert(at_token(ptt, lp.0, lp.1));
            assert(graph.number_tokens().contains_key(ptt[lp.0 as int][0]));
            assert(graph.number_tokens().contains_key(ptt[lp.0 as int][1]));
            assert(graph.token_pools().contains_key(t));
        }
        let pools = match index_list_get(&graph.ttp, t) {
            Some(p) => p,
            None => {
                break;
            },
        };
        proof {
            lemma_touching_members(ptt, t);
            assert(pools@ == touching(ptt, t));
            lemma_weight_positive(b, (l + 1) as nat, maxlen);
            if simple_ends(ptt) {
                lemma_touching_rising(ptt, t);
            }
        }
        let mut j: usize = 0;
        while j < pools.len()
            invariant
                graph.wf(),
                ptt == graph.pool_tokens(),
                b == 2 * ptt.len() + 1,
                pools@ == touching(ptt, t),
                pools@.len() <= 2 * ptt.len(),
                forall|jj: int| 0 <= jj < pools@.len() ==> at_token(ptt, #[trigger] pools@[jj], t),
                q == path@,
                l == q.len(),
                open_route(ptt, start, target_index, maxlen, q),
                t == q.last().2,
                0 <= j <= pools.len(),
                forall|i: int|
                    0 <= i < stack.len() ==> open_route(ptt, start, target_index, maxlen, (#[trigger] stack[i])@),
                forall|i: int|
                    0 <= i < found.len() ==> is_route(ptt, start, target_index, maxlen, (#[trigger] found[i])@),
                forall|s: Seq<Triple>|
                    #[trigger] is_route(ptt, start, target_index, maxlen, s) ==> found_in(found@, s)
                        || prefix_on(stack@, s) || (strict_prefix(q, s) && forall|jj: int|
                        0 <= jj < j ==> pools@[jj] != s[l as int].0),
                stack_weight(stack@, b, maxlen) <= stack_weight(rest, b, maxlen) + j * weight(b, (l + 1) as nat, maxlen),
                simple_ends(ptt) ==> distinct_routes(found@) && stack_apart(stack@) && none_leads(
                    stack@,
                    found@,
                ),
                simple_ends(ptt) ==> forall|a: int, c: int|
                    0 <= a < c < pools@.len() ==> pools@[a] < pools@[c],
                simple_ends(ptt) ==> forall|i: int|
                    0 <= i < stack.len() ==> !is_prefix((#[trigger] stack[i])@, q),
                simple_ends(ptt) ==> forall|i: int|
                    0 <= i < stack.len() ==> (is_prefix(q, (#[trigger] stack[i])@) ==> stack[i]@.len()
                        == l + 1 && exists|jj: int| 0 <= jj < j && stack[i]@[l as int].0 == pools@[jj]),
                simple_ends(ptt) ==> forall|k: int|
                    0 <= k < found.len() ==> (is_prefix(q, (#[trigger] found[k])@) ==> found[k]@.len()
                        == l + 1 && exists|jj: int| 0 <= jj < j && found[k]@[l as int].0 == pools@[jj]),
            decreases pools.len() - j,
        {
            let pool = pools[j];
            let ghost found0 = found@;
            let ghost stack0 = stack@;
            proof {
                assert(at_token(ptt, pools@[j as int], t));
            }
            if !path.contains(&pool) {
                let token_out = *graph.token_out(pool, t);
                if !path.used_token(&token_out) {
                    let step = PathStep { pool, token_in: t, token_out };
                    let p = path.extended(step);
                    let ghost x = (pool, t, token_out);
                    proof {
                        lemma_extend_chained(ptt, start, target_index, q, x);
                    }
                    if token_out == target_index {
                        found.push(p);
                        proof {
                            if simple_ends(ptt) {
                                assert(found@ == found0.push(p));
                                assert(p@[l as int] == x);
                                assert forall|k: int| 0 <= k < found0.len() implies found0[k]@ != p@
                                    && !is_prefix(p@, (#[trigger] found0[k])@) by {
                                    lemma_child_apart(q, x, found0[k]@, pools@, j as int);
                                }
                                assert forall|i: int| 0 <= i < stack.len() implies !is_prefix(
                                    (#[trigger] stack[i])@,
                                    p@,
                                ) by {
                                    lemma_child_apart(q, x, stack[i]@, pools@, j as int);
                                }
                                assert forall|a: int, c: int| 0 <= a < c < found.len() implies (
                                #[trigger] found[a])@ != (#[trigger] found[c])@ by {
                                    assert(found[a] == found0[a]);
                                    if c < found0.len() {
                                        assert(found[c] == found0[c]);
                                    }
                                }
                                assert forall|i: int, k: int|
                                    0 <= i < stack.len() && 0 <= k < found.len() implies !is_prefix(
                                    (#[trigger] stack[i])@,
                                    (#[trigger] found[k])@,
                                ) by {
                                    if k < found0.len() {
                                        assert(found[k] == found0[k]);
                                    }
                                }
                                assert forall|k: int| 0 <= k < found.len() && is_prefix(q, (#[trigger] found[k])@) implies found[k]@.len() == l + 1 && exists|jj: int|
                                    0 <= jj < j + 1 && found[k]@[l as int].0 == pools@[jj] by {
                                    if k < found0.len() {
                                        assert(found[k] == found0[k]);
                                    } else {
                                        assert(found[k]@[l as int].0 == pools@[j as int]);
                                    }
                                }
                                assert forall|i: int| 0 <= i < stack.len() && is_prefix(q, (#[trigger] stack[i])@) implies stack[i]@.len() == l + 1 && exists|jj: int|
                                    0 <= jj < j + 1 && stack[i]@[l as int].0 == pools@[jj] by {}
                            }
                            assert forall|i: int| 0 <= i < found.len() implies is_route(
                                ptt,
                                start,
                                target_index,
                                maxlen,
                                (#[trigger] found[i])@,
                            ) by {
                                if i < found0.len() {
                                    assert(found[i] == found0[i]);
                                }
                            }
                            assert forall|s: Seq<Triple>| #[trigger]
                                is_route(ptt, start, target_index, maxlen, s) implies found_in(found@, s)
                                || prefix_on(stack@, s) || (strict_prefix(q, s) && forall|jj: int|
                                0 <= jj < j + 1 ==> pools@[jj] != s[l as int].0) by {
                                lemma_found_in_push(found0, p, s);
                                if strict_prefix(q, s) && s[l as int].0 == pool && !found_in(found0, s) && !prefix_on(stack@, s) {
                                    lemma_next_step_of_route(ptt, start, target_index, maxlen, q, s);
                                }
                            }
                        }
                    } else if p.steps.len() < maxlen {
                        stack.push(p);
                        proof {
                            lemma_stack_weight_push(stack0, p, b, maxlen);
                            if simple_ends(ptt) {
                                assert(stack@ == stack0.push(p));
                                assert(p@[l as int] == x);
                                assert forall|i: int| 0 <= i < stack0.len() implies !is_prefix(
                                    (#[trigger] stack0[i])@,
                                    p@,
                                ) && !is_prefix(p@, stack0[i]@) by {
                                    lemma_child_apart(q, x, stack0[i]@, pools@, j as int);
                                }
                                assert forall|k: int| 0 <= k < found.len() implies !is_prefix(
                                    p@,
                                    (#[trigger] found[k])@,
                                ) by {
                                    lemma_child_apart(q, x, found[k]@, pools@, j as int);
                                }
                                assert forall|a: int, c: int|
                                    0 <= a < stack.len() && 0 <= c < stack.len() && a != c implies !is_prefix(
                                    (#[trigger] stack[a])@,
                                    (#[trigger] stack[c])@,
                                ) by {
                                    if a < stack0.len() {
                                        assert(stack[a] == stack0[a]);
                                    }
                                    if c < stack0.len() {
                                        assert(stack[c] == stack0[c]);
                                    }
                                }
                                assert forall|i: int, k: int|
                                    0 <= i < stack.len() && 0 <= k < found.len() implies !is_prefix(
                                    (#[trigger] stack[i])@,
                                    (#[trigger] found[k])@,
                                ) by {
                                    if i < stack0.len() {
                                        assert(stack[i] == stack0[i]);
                                    }
                                }
                                assert forall|i: int| 0 <= i < stack.len() implies !is_prefix(
                                    (#[trigger] stack[i])@,
                                    q,
                                ) by {
                                    if i < stack0.len() {
                                        assert(stack[i] == stack0[i]);
                                    }
                                }
                                assert forall|i: int| 0 <= i < stack.len() && is_prefix(q, (#[trigger] stack[i])@) implies stack[i]@.len() == l + 1 && exists|jj: int|
                                    0 <= jj < j + 1 && stack[i]@[l as int].0 == pools@[jj] by {
                                    if i < stack0.len() {
                                        assert(stack[i] == stack0[i]);
                                    } else {
                                        assert(stack[i]@[l as int].0 == pools@[j as int]);
                                    }
                                }
                                assert forall|k: int| 0 <= k < found.len() && is_prefix(q, (#[trigger] found[k])@) implies found[k]@.len() == l + 1 && exists|jj: int|
                                    0 <= jj < j + 1 && found[k]@[l as int].0 == pools@[jj] by {}
                            }
                            assert forall|i: int| 0 <= i < stack.len() implies open_route(
                                ptt,
                                start,
                                target_index,
                                maxlen,
                                (#[trigger] stack[i])@,
                            ) by {
                                if i < stack0.len() {
                                    assert(stack[i] == stack0[i]);
                                }
                            }
                            assert forall|s: Seq<Triple>| #[trigger]
                                is_route(ptt, start, target_index, maxlen, s) implies found_in(found@, s)
                                || prefix_on(stack@, s) || (strict_prefix(q, s) && forall|jj: int|
                                0 <= jj < j + 1 ==> pools@[jj] != s[l as int].0) by {
                                lemma_prefix_on_push(stack0, p, s);
                                if strict_prefix(q, s) && s[l as int].0 == pool && !found_in(found0, s) && !prefix_on(stack0, s) {
                                    lemma_next_step_of_route(ptt, start, target_index, maxlen, q, s);
                                }
                            }
                        }
                    } else {
                        proof {
                            assert forall|s: Seq<Triple>| #[trigger]
                                is_route(ptt, start, target_index, maxlen, s) implies found_in(found@, s)
                                || prefix_on(stack@, s) || (strict_prefix(q, s) && forall|jj: int|
                                0 <= jj < j + 1 ==> pools@[jj] != s[l as int].0) by {
                                if strict_prefix(q, s) && s[l as int].0 == pool && !found_in(found0, s) && !prefix_on(stack0, s) {
                                    lemma_next_step_of_route(ptt, start, target_index, maxlen, q, s);
                                }
                            }
                        }
                    }
                } else {
                    proof {
                        assert forall|s: Seq<Triple>| #[trigger]
                            is_route(ptt, start, target_index, maxlen, s) implies found_in(found@, s)
                            || prefix_on(stack@, s) || (strict_prefix(q, s) && forall|jj: int|
                            0 <= jj < j + 1 ==> pools@[jj] != s[l as int].0) by {
                            if strict_prefix(q, s) && s[l as int].0 == pool && !found_in(found0, s) && !prefix_on(stack0, s) {
                                lemma_next_step_of_route(ptt, start, target_index, maxlen, q, s);
                            }
                        }
                    }
                }
            } else {
                proof {
                    assert forall|s: Seq<Triple>| #[trigger]
                        is_route(ptt, start, target_index, maxlen, s) implies found_in(found@, s)
                        || prefix_on(stack@, s) || (strict_prefix(q, s) && forall|jj: int|
                        0 <= jj < j + 1 ==> pools@[jj] != s[l as int].0) by {
                        if strict_prefix(q, s) && s[l as int].0 == pool && !found_in(found0, s) && !prefix_on(stack0, s) {
                            lemma_next_step_of_route(ptt, start, target_index, maxlen, q, s);
                        }
                    }
                }
            }
            proof {
                assert(stack_weight(stack@, b, maxlen) <= stack_weight(rest, b, maxlen) + (j + 1) * weight(b, (l + 1) as nat, maxlen)) by (nonlinear_arith)
                    requires
                        stack_weight(stack@, b, maxlen) <= stack_weight(stack0, b, maxlen) + weight(b, (l + 1) as nat, maxlen),
                        stack_weight(stack0, b, maxlen) <= stack_weight(rest, b, maxlen) + j * weight(b, (l + 1) as nat, maxlen),
                ;
            }
            j = j + 1;
        }
        proof {
            assert forall|s: Seq<Triple>| #[trigger] is_route(ptt, start, target_index, maxlen, s) implies found_in(
                found@,
                s,
            ) || prefix_on(stack@, s) by {
                if !found_in(found@, s) && !prefix_on(stack@, s) {
                    lemma_next_step_of_route(ptt, start, target_index, maxlen, q, s);
                    let x = s[l as int];
                    assert(touching(ptt, t).contains(x.0));
                    let jj = choose|jj: int| 0 <= jj < pools@.len() && pools@[jj] == x.0;
                }
            }
            assert(weight(b, l as nat, maxlen) == b * weight(b, (l + 1) as nat, maxlen));
            assert(stack_weight(stack@, b, maxlen) < stack_weight(prev, b, maxlen)) by (nonlinear_arith)
                requires
                    stack_weight(stack@, b, maxlen) <= stack_weight(rest, b, maxlen) + pools@.len() * weight(b, (l + 1) as nat, maxlen),
                    stack_weight(prev, b, maxlen) == stack_weight(rest, b, maxlen) + weight(b, l as nat, maxlen),
                    weight(b, l as nat, maxlen) == b * weight(b, (l + 1) as nat, maxlen),
                    pools@.len() < b,
                    weight(b, (l + 1) as nat, maxlen) >= 1,
            ;
        }
    }
}

/// The first swap of a route enters with `start`; it is the whole route when
/// it reaches the target, and a proper beginning of it otherwise.
proof fn lemma_first_step_of_route(ptt: Seq<[usize; 2]>, start: usize, target: usize, maxlen: usize, s: Seq<Triple>)
    requires
        is_route(ptt, start, target, maxlen, s),
    ensures
        ({
            let x = s[0];
            &&& x.1 == start
            &&& at_token(ptt, x.0, x.1)
            &&& x.2 == step_out(ptt, x.0, x.1)
            &&& x.2 == target ==> s == seq![x]
            &&& x.2 != target ==> 1 < s.len() && s.take(1) == seq![x]
        }),
{
    let x = s[0];
    assert(at_token(ptt, s[0].0, s[0].1));
    if x.2 == target {
        if 0 < s.len() - 1 {
            assert(s[0].2 != target);
        }
        assert(s =~= seq![x]);
    } else {
        assert(s.last() == s[s.len() - 1]);
        assert(s.take(1) =~= seq![x]);
    }
}

/// A single swap from `start` through a pool at `start` is chained.
proof fn lemma_single_chained(ptt: Seq<[usize; 2]>, start: usize, target: usize, x: Triple)
    requires
        x.1 == start,
        at_token(ptt, x.0, x.1),
        x.2 == step_out(ptt, x.0, x.1),
    ensures
        chained(ptt, start, target, seq![x]),
{
    let s = seq![x];
    assert(s[0] == x);
}

/// Every swap route from `start` to `finish` of at most `MAXLEN` pools (see
/// `find_path_within`).
pub fn find_path(graph: Arc<Graph<Pool, Address, usize>>, start: &Address, finish: &Address) -> (r:
    Option<Vec<Path>>)
    requires
        graph.wf(),
    ensures
        r is Some <==> graph.token_numbers().contains_key(*finish)
            && graph.token_numbers().contains_key(*start),
        r matches Some(paths) ==> {
            &&& forall|i: int|
                0 <= i < paths.len() ==> is_route(
                    graph.pool_tokens(),
                    graph.token_numbers()[*start],
                    graph.token_numbers()[*finish],
                    MAXLEN,
                    (#[trigger] paths[i])@,
                )
            &&& forall|s: Seq<Triple>|
                #[trigger] is_route(
                    graph.pool_tokens(),
                    graph.token_numbers()[*start],
                    graph.token_numbers()[*finish],
                    MAXLEN,
                    s,
                ) ==> found_in(paths@, s)
            &&& (forall|p: int|
                0 <= p < graph.pool_list().len() ==> (#[trigger] graph.pool_list()[p]).spec_token0()
                    != graph.pool_list()[p].spec_token1()) ==> distinct_routes(paths@)
        },
{
    find_path_within(graph, start, finish, MAXLEN)
}

/// Every swap route from `start` to `finish` of at most `maxlen` pools that
/// uses no pool twice and reaches no token twice (`finish` only at its end),
/// as index triples, each listed once where no pool has its two tokens
/// equal. `None` where either token is not in the graph.
pub fn find_path_within(
    graph: Arc<Graph<Pool, Address, usize>>,
    start: &Address,
    finish: &Address,
    maxlen: usize,
) -> (r: Option<Vec<Path>>)
    requires
        graph.wf(),
        maxlen >= 2,
    ensures
        r is Some <==> graph.token_numbers().contains_key(*finish)
            && graph.token_numbers().contains_key(*start),
        r matches Some(paths) ==> {
            &&& forall|i: int|
                0 <= i < paths.len() ==> is_route(
                    graph.pool_tokens(),
                    graph.token_numbers()[*start],
                    graph.token_numbers()[*finish],
                    maxlen,
                    (#[trigger] paths[i])@,
                )
            &&& forall|s: Seq<Triple>|
                #[trigger] is_route(
                    graph.pool_tokens(),
                    graph.token_numbers()[*start],
                    graph.token_numbers()[*finish],
                    maxlen,
                    s,
                ) ==> found_in(paths@, s)
            &&& (forall|p: int|
                0 <= p < graph.pool_list().len() ==> (#[trigger] graph.pool_list()[p]).spec_token0()
                    != graph.pool_list()[p].spec_token1()) ==> distinct_routes(paths@)
        },
{
    let g: &Graph<Pool, Address, usize> = &*graph;
    let target_index = match address_index_get(&g.tokens, finish) {
        Some(t) => t,
        None => {
            return None;
        },
    };
    let token_index = match address_index_get(&g.tokens, start) {
        Some(t) => t,
        None => {
            return None;
        },
    };
    let ghost ptt = g.pool_tokens();
    proof {
        assert(g.token_numbers().contains_key(*start));
        assert(g.token_numbers()[*start] == token_index);
        assert(g.number_tokens().contains_key(token_index));
    }
    let pool_indices = match index_list_get(&g.ttp, token_index) {
        Some(p) => p,
        None => {
            return None;
        },
    };
    proof {
        lemma_touching_members(ptt, token_index);
        if simple_ends(ptt) {
            lemma_touching_rising(ptt, token_index);
        }
    }
    let mut stack: Vec<Path> = Vec::new();
    let mut found: Vec<Path> = Vec::new();
    let mut j: usize = 0;
    while j < pool_indices.len()
        invariant
            g.wf(),
            maxlen >= 2,
            ptt == g.pool_tokens(),
            pool_indices@ == touching(ptt, token_index),
            forall|jj: int|
                0 <= jj < pool_indices@.len() ==> at_token(ptt, #[trigger] pool_indices@[jj], token_index),
            0 <= j <= pool_indices.len(),
            forall|i: int|
                0 <= i < stack.len() ==> open_route(ptt, token_index, target_index, maxlen, (#[trigger] stack[i])@),
            forall|i: int|
                0 <= i < found.len() ==> is_route(ptt, token_index, target_index, maxlen, (#[trigger] found[i])@),
            forall|s: Seq<Triple>|
                #[trigger] is_route(ptt, token_index, target_index, maxlen, s) ==> found_in(found@, s)
                    || prefix_on(stack@, s) || forall|jj: int| 0 <= jj < j ==> pool_indices@[jj] != s[0].0,
            simple_ends(ptt) ==> distinct_routes(found@) && stack_apart(stack@) && none_leads(
                stack@,
                found@,
            ),
            simple_ends(ptt) ==> forall|a: int, c: int|
                0 <= a < c < pool_indices@.len() ==> pool_indices@[a] < pool_indices@[c],
            simple_ends(ptt) ==> forall|i: int|
                0 <= i < stack.len() ==> (#[trigger] stack[i])@.len() == 1 && exists|jj: int|
                    0 <= jj < j && stack[i]@[0].0 == pool_indices@[jj],
            simple_ends(ptt) ==> forall|k: int|
                0 <= k < found.len() ==> (#[trigger] found[k])@.len() == 1 && exists|jj: int|
                    0 <= jj < j && found[k]@[0].0 == pool_indices@[jj],
        decreases pool_indices.len() - j,
    {
        let pool_index = pool_indices[j];
        proof {
            assert(at_token(ptt, pool_indices@[j as int], token_index));
        }
        let token_out = *g.token_out(pool_index, token_index);
        let step = PathStep { pool: pool_index, token_in: token_index, token_out };
        let ghost x = (pool_index, token_index, token_out);
        let ghost found0 = found@;
        let ghost stack0 = stack@;
        proof {
            lemma_single_chained(ptt, token_index, target_index, x);
        }
        if token_out == target_index {
            found.push(Path::single(step));
            proof {
                if simple_ends(ptt) {
                    let c = found[found.len() - 1];
                    assert(found@ == found0.push(c));
                    assert(c@ == seq![x]);
                    assert forall|k: int| 0 <= k < found0.len() implies (#[trigger] found0[k])@ != c@ by {
                        lemma_single_apart(x, found0[k]@, pool_indices@, j as int);
                    }
                    assert forall|i: int| 0 <= i < stack.len() implies !is_prefix((#[trigger] stack[i])@, c@) by {
                        lemma_single_apart(x, stack[i]@, pool_indices@, j as int);
                    }
                    assert forall|a: int, b: int| 0 <= a < b < found.len() implies (#[trigger] found[a])@
                        != (#[trigger] found[b])@ by {
                        assert(found[a] == found0[a]);
                        if b < found0.len() {
                            assert(found[b] == found0[b]);
                        }
                    }
                    assert forall|i: int, k: int| 0 <= i < stack.len() && 0 <= k < found.len() implies !is_prefix(
                        (#[trigger] stack[i])@,
                        (#[trigger] found[k])@,
                    ) by {
                        if k < found0.len() {
                            assert(found[k] == found0[k]);
                        }
                    }
                    assert forall|k: int| 0 <= k < found.len() implies (#[trigger] found[k])@.len() == 1
                        && exists|jj: int| 0 <= jj < j + 1 && found[k]@[0].0 == pool_indices@[jj] by {
                        if k < found0.len() {
                            assert(found[k] == found0[k]);
                        } else {
                            assert(found[k]@[0].0 == pool_indices@[j as int]);
                        }
                    }
                    assert forall|i: int| 0 <= i < stack.len() implies (#[trigger] stack[i])@.len() == 1
                        && exists|jj: int| 0 <= jj < j + 1 && stack[i]@[0].0 == pool_indices@[jj] by {}
                }
                assert forall|i: int| 0 <= i < found.len() implies is_route(
                    ptt,
                    token_index,
                    target_index,
                    maxlen,
                    (#[trigger] found[i])@,
                ) by {
                    if i < found0.len() {
                        assert(found[i] == found0[i]);
                    }
                }
                assert forall|s: Seq<Triple>| #[trigger]
                    is_route(ptt, token_index, target_index, maxlen, s) implies found_in(found@, s) || prefix_on(
                    stack@,
                    s,
                ) || forall|jj: int| 0 <= jj < j + 1 ==> pool_indices@[jj] != s[0].0 by {
                    lemma_found_in_push(found0, found[found.len() - 1], s);
                    assert(found@ == found0.push(found[found.len() - 1]));
                    if s[0].0 == pool_index {
                        lemma_first_step_of_route(ptt, token_index, target_index, maxlen, s);
                    }
                }
            }
        } else {
            stack.push(Path::single(step));
            proof {
                if simple_ends(ptt) {
                    let c = stack[stack.len() - 1];
                    assert(stack@ == stack0.push(c));
                    assert(c@ == seq![x]);
                    assert forall|i: int| 0 <= i < stack0.len() implies !is_prefix((#[trigger] stack0[i])@, c@)
                        && !is_prefix(c@, stack0[i]@) by {
                        lemma_single_apart(x, stack0[i]@, pool_indices@, j as int);
                    }
                    assert forall|k: int| 0 <= k < found.len() implies !is_prefix(c@, (#[trigger] found[k])@) by {
                        lemma_single_apart(x, found[k]@, pool_indices@, j as int);
                    }
                    assert forall|a: int, b: int|
                        0 <= a < stack.len() && 0 <= b < stack.len() && a != b implies !is_prefix(
                        (#[trigger] stack[a])@,
                        (#[trigger] stack[b])@,
                    ) by {
                        if a < stack0.len() {
                            assert(stack[a] == stack0[a]);
                        }
                        if b < stack0.len() {
                            assert(stack[b] == stack0[b]);
                        }
                    }
                    assert forall|i: int, k: int| 0 <= i < stack.len() && 0 <= k < found.len() implies !is_prefix(
                        (#[trigger] stack[i])@,
                        (#[trigger] found[k])@,
                    ) by {
                        if i < stack0.len() {
                            assert(stack[i] == stack0[i]);
                        }
                    }
                    assert forall|i: int| 0 <= i < stack.len() implies (#[trigger] stack[i])@.len() == 1
                        && exists|jj: int| 0 <= jj < j + 1 && stack[i]@[0].0 == pool_indices@[jj] by {
                        if i < stack0.len() {
                            assert(stack[i] == stack0[i]);
                        } else {
                            assert(stack[i]@[0].0 == pool_indices@[j as int]);
                        }
                    }
                    assert forall|k: int| 0 <= k < found.len() implies (#[trigger] found[k])@.len() == 1
                        && exists|jj: int| 0 <= jj < j + 1 && found[k]@[0].0 == pool_indices@[jj] by {}
                }
                assert forall|i: int| 0 <= i < stack.len() implies open_route(
                    ptt,
                    token_index,
                    target_index,
                    maxlen,
                    (#[trigger] stack[i])@,
                ) by {
                    if i < stack0.len() {
                        assert(stack[i] == stack0[i]);
                    }
                }
                assert forall|s: Seq<Triple>| #[trigger]
                    is_route(ptt, token_index, target_index, maxlen, s) implies found_in(found@, s) || prefix_on(
                    stack@,
                    s,
                ) || forall|jj: int| 0 <= jj < j + 1 ==> pool_indices@[jj] != s[0].0 by {
                    lemma_prefix_on_push(stack0, stack[stack.len() - 1], s);
                    assert(stack@ == stack0.push(stack[stack.len() - 1]));
                    if s[0].0 == pool_index {
                        lemma_first_step_of_route(ptt, token_index, target_index, maxlen, s);
                    }
                }
            }
        }
        j = j + 1;
    }
    proof {
        assert forall|s: Seq<Triple>| #[trigger] is_route(ptt, token_index, target_index, maxlen, s) implies found_in(
            found@,
            s,
        ) || prefix_on(stack@, s) by {
            if !found_in(found@, s) && !prefix_on(stack@, s) {
                lemma_first_step_of_route(ptt, token_index, target_index, maxlen, s);
                assert(touching(ptt, token_index).contains(s[0].0));
                let jj = choose|jj: int| 0 <= jj < pool_indices@.len() && pool_indices@[jj] == s[0].0;
            }
        }
    }
    search(g, &mut stack, &mut found, target_index, maxlen, Ghost(token_index));
    proof {
        if forall|p: int|
            0 <= p < g.pool_list().len() ==> (#[trigger] g.pool_list()[p]).spec_token0()
                != g.pool_list()[p].spec_token1() {
            g.lemma_simple_ends();
        }
    }
    Some(found)
}

/// The swaps of a found route are real swaps: each pool trades the token it
/// is entered with and gives back, by its own `token_out`, the token the
/// route reaches next; so each route can be spelled out by its pools and
/// tokens.
pub proof fn lemma_route_spells_out(
    g: &Graph<Pool, Address, usize>,
    start: usize,
    target: usize,
    maxlen: usize,
    s: Seq<Triple>,
)
    requires
        g.wf(),
        is_route(g.pool_tokens(), start, target, maxlen, s),
    ensures
        forall|k: int|
            0 <= k < s.len() ==> {
                let t = #[trigger] s[k];
                let pool = g.pool_list()[t.0 as int];
                &&& t.0 < g.pool_list().len()
                &&& g.number_tokens().contains_key(t.1)
                &&& g.number_tokens().contains_key(t.2)
                &&& (pool.spec_token0() == g.number_tokens()[t.1] || pool.spec_token1()
                    == g.number_tokens()[t.1])
                &&& pool.spec_token_out(g.number_tokens()[t.1]) == g.number_tokens()[t.2]
            },
{
    let ptt = g.pool_tokens();
    assert forall|k: int| 0 <= k < s.len() implies {
        let t = #[trigger] s[k];
        let pool = g.pool_list()[t.0 as int];
        &&& t.0 < g.pool_list().len()
        &&& g.number_tokens().contains_key(t.1)
        &&& g.number_tokens().contains_key(t.2)
        &&& (pool.spec_token0() == g.number_tokens()[t.1] || pool.spec_token1()
            == g.number_tokens()[t.1])
        &&& pool.spec_token_out(g.number_tokens()[t.1]) == g.number_tokens()[t.2]
    } by {
        let t = s[k];
        let p = t.0 as int;
        assert(at_token(ptt, t.0, t.1));
        assert(g.number_tokens().contains_key(ptt[p][0]));
        assert(g.number_tokens().contains_key(ptt[p][1]));
        if ptt[p][0] != t.1 {
            assert(ptt[p][1] == t.1);
            if g.pool_list()[p].spec_token0() == g.pool_list()[p].spec_token1() {
                assert(g.token_numbers()[g.number_tokens()[ptt[p][0]]] == ptt[p][0]);
                assert(g.token_numbers()[g.number_tokens()[ptt[p][1]]] == ptt[p][1]);
            }
        }
    }
}

impl Graph<Pool, Address, usize> {
    /// The token that pool `pool` gives back for token number `token_in`.
    pub fn token_out(&self, pool: usize, token_in: usize) -> (r: &usize)
        requires
            pool < self.pool_tokens().len(),
        ensures
            *r == step_out(self.pool_tokens(), pool, token_in),
    {
        if self.ptt[pool][0] == token_in {
            &self.ptt[pool][1]
        } else {
            &self.ptt[pool][0]
        }
    }
}

/// A route walked backwards: the same pools in reverse order, each entered
/// with the token it left with.
pub open spec fn reversed_route(s: Seq<Triple>) -> Seq<Triple> {
    Seq::new(s.len(), |i: int| (s[s.len() - 1 - i].0, s[s.len() - 1 - i].2, s[s.len() - 1 - i].1))
}

/// Where no pool has its two token numbers equal, a cycle from a token back
/// to itself walked backwards is another such cycle, and walking it back
/// again gives the first: the cycles that `find_path` lists from a token to
/// itself come in pairs, each with its reverse.
pub proof fn lemma_cycles_pair_up(ptt: Seq<[usize; 2]>, start: usize, maxlen: usize, s: Seq<Triple>)
    requires
        simple_ends(ptt),
        is_route(ptt, start, start, maxlen, s),
    ensures
        is_route(ptt, start, start, maxlen, reversed_route(s)),
        reversed_route(s) != s,
        reversed_route(reversed_route(s)) == s,
{
    let n = s.len() as int;
    let r = reversed_route(s);
    assert(s.last() == s[n - 1]);
    assert forall|i: int| 0 <= i < n implies {
        &&& at_token(ptt, (#[trigger] r[i]).0, r[i].1)
        &&& r[i].2 == step_out(ptt, r[i].0, r[i].1)
    } by {
        let t = s[n - 1 - i];
        assert(at_token(ptt, t.0, t.1) && t.2 == step_out(ptt, t.0, t.1));
        assert(ptt[t.0 as int][0] != ptt[t.0 as int][1]);
    }
    assert forall|i: int| 0 < i < n implies #[trigger] s[i].1 == s[i - 1].2 by {
        assert(s[i].1 == s[i - 1].2);
    }
    assert forall|a: int, b: int| 0 <= a < b < n implies #[trigger] s[a].1 != #[trigger] s[b].1 by {
        assert(s[b].1 == s[b - 1].2);
        if a > 0 {
            assert(s[a].1 == s[a - 1].2);
            assert(s[a - 1].2 != s[b - 1].2);
        } else {
            assert(s[b - 1].2 != start);
        }
    }
    assert forall|i: int, j: int|
        0 <= i && j == i + 1 && j < r.len() implies (#[trigger] r[j]).1 == (#[trigger] r[i]).2 by {
        assert(s[n - 1 - i].1 == s[n - 2 - i].2);
    }
    assert forall|i: int, j: int| 0 <= i < j < r.len() implies (#[trigger] r[i]).0 != (
    #[trigger] r[j]).0 && r[i].2 != r[j].2 by {
        assert(s[n - 1 - j].0 != s[n - 1 - i].0);
        assert(s[n - 1 - j].1 != s[n - 1 - i].1);
    }
    assert forall|i: int| 0 <= i < r.len() - 1 implies (#[trigger] r[i]).2 != start by {
        let k = n - 1 - i;
        assert(s[k].1 == s[k - 1].2);
        assert(s[k - 1].2 != start);
    }
    assert(r[0].1 == start);
    assert(r.last() == r[n - 1]);
    assert(r.last().2 == s[0].1);
    assert(chained(ptt, start, start, r));
    // a cycle takes at least two swaps, so its first pool differs from its last
    if n == 1 {
        assert(ptt[s[0].0 as int][0] != ptt[s[0].0 as int][1]);
        assert(s[0].2 == step_out(ptt, s[0].0, s[0].1));
        assert(false);
    }
    assert(s[n - 1].0 != s[0].0);
    assert(r[0].0 != s[0].0);
    assert(reversed_route(r) =~= s);
}

} // verus!
