//! Routes spelled out as pools and tokens, and what swapping along them pays.
use vstd::prelude::*;
use crate::constants::ZERO;
use crate::pool::Pool;
use crate::types::{Address, U256, value, word_is_zero, word_lt, word_from_u64};
use crate::univ2pool::v2_amount_out;
use crate::maps::index_address_get;
use super::Graph;
use super::search::{Path, Triple};

verus! {

/// One swap of a route: the pool and the tokens that go in and come out.
#[derive(Debug, Clone, Copy)]
pub struct SwapStep<'a> {
    pub pool: &'a Pool,
    pub token_in: &'a Address,
    pub token_out: &'a Address,
}

/// A route of swaps, and whether every pool of it still trades.
#[derive(Debug, Clone)]
pub struct SwapPath<'a> {
    pub steps: Vec<SwapStep<'a>>,
    pub good: bool,
}

/// What swapping `amount` along the steps pays, `last` being what the swap
/// before paid (what an empty rest of the route leaves): a V3 pool, or a swap
/// that pays nothing, makes the whole route pay nothing. A V2 swap enters
/// `token0` exactly when its input token is the pool's `token0`.
pub open spec fn swap_chain<'a>(steps: Seq<SwapStep<'a>>, amount: nat, last: nat) -> nat
    decreases steps.len(),
{
    if steps.len() == 0 {
        last
    } else {
        match *steps[0].pool {
            Pool::V3(_) => 0,
            Pool::V2(p) => {
                let zf1 = *steps[0].token_in == p.token0.id;
                let out = v2_amount_out(amount, value(p.reserve_in(zf1)), value(p.reserve_out(zf1)));
                if out == 0 {
                    0
                } else {
                    swap_chain(steps.drop_first(), out, out)
                }
            },
        }
    }
}

/// What swapping `amount` along a whole route pays; nothing for an empty route.
pub open spec fn swap_result<'a>(steps: Seq<SwapStep<'a>>, amount: nat) -> nat {
    swap_chain(steps, amount, 0)
}

/// The trial inputs of `maximize_profit`: 10^15 up to 10^20.
pub open spec fn trial_amounts() -> Seq<nat> {
    seq![
        1000000000000000nat,
        10000000000000000nat,
        100000000000000000nat,
        1000000000000000000nat,
        10000000000000000000nat,
        100000000000000000000nat,
    ]
}

/// The trial from the `i`-th input on, `most` being the best output so far:
/// an input whose route pays nothing ends with `(0, 0)`; an output below the
/// best ends with the input before it and the best; after the last input the
/// result is the last input and the best.
pub open spec fn best_trial<'a>(steps: Seq<SwapStep<'a>>, i: int, most: nat) -> (nat, nat)
    decreases 6 - i,
{
    if i >= 6 || i < 0 {
        (trial_amounts()[5], most)
    } else {
        let out = swap_result(steps, trial_amounts()[i]);
        if out == 0 {
            (0, 0)
        } else if out > most {
            best_trial(steps, i + 1, out)
        } else if out < most {
            (trial_amounts()[i - 1], most)
        } else {
            best_trial(steps, i + 1, most)
        }
    }
}

/// What the trial settles on: `(0, 0)`, or the `k`-th trial input with what
/// the route pays for it, something, no less than any earlier trial input
/// pays and more than the next trial input pays, which pays something.
pub open spec fn best_of_trials<'a>(steps: Seq<SwapStep<'a>>, r: (nat, nat)) -> bool {
    r == (0nat, 0nat) || exists|k: int|
        0 <= k < 6 && r.0 == trial_amounts()[k] && r.1 == swap_result(steps, trial_amounts()[k])
            && r.1 > 0 && (forall|m: int| 0 <= m <= k ==> #[trigger] swap_result(steps, trial_amounts()[m]) <= r.1)
            && (k < 5 ==> 0 < swap_result(steps, trial_amounts()[k + 1]) < r.1)
}

/// The trial from the `i`-th input on settles on the best of the trials, as
/// long as `most` is what the input before the `i`-th pays and no earlier
/// input pays more.
proof fn lemma_best_trial_from<'a>(steps: Seq<SwapStep<'a>>, i: int, most: nat)
    requires
        1 <= i <= 6,
        most == swap_result(steps, trial_amounts()[i - 1]),
        most > 0,
        forall|m: int| 0 <= m < i ==> #[trigger] swap_result(steps, trial_amounts()[m]) <= most,
    ensures
        best_of_trials(steps, best_trial(steps, i, most)),
    decreases 6 - i,
{
    if i < 6 {
        let out = swap_result(steps, trial_amounts()[i]);
        if out >= most {
            let next = if out > most { out } else { most };
            assert forall|m: int| 0 <= m < i + 1 implies #[trigger] swap_result(steps, trial_amounts()[m]) <= next by {}
            lemma_best_trial_from(steps, i + 1, next);
        } else if out != 0 {
            assert(best_trial(steps, i, most) == (trial_amounts()[i - 1], most));
            assert(forall|m: int| 0 <= m <= i - 1 ==> #[trigger] swap_result(steps, trial_amounts()[m]) <= most);
        }
    } else {
        assert(forall|m: int| 0 <= m <= 5 ==> #[trigger] swap_result(steps, trial_amounts()[m]) <= most);
    }
}

/// What `maximize_profit` settles on is `(0, 0)`, or one of the trial inputs
/// together with what the route pays for it, which no earlier trial input
/// beats.
pub proof fn lemma_profit_pays_its_input<'a>(steps: Seq<SwapStep<'a>>)
    ensures
        best_of_trials(steps, best_trial(steps, 0, 0)),
{
    let out = swap_result(steps, trial_amounts()[0]);
    if out != 0 {
        lemma_best_trial_from(steps, 1, out);
    }
}

/// Each swap of a route is fed what the swap before paid out: where the
/// first swap is through a V2 pool that pays `out` for `a`, the route pays
/// `out` when that is its only swap, and otherwise what the rest of the route
/// pays for `out`.
pub proof fn lemma_swap_feeds_forward<'a>(steps: Seq<SwapStep<'a>>, a: nat)
    requires
        steps.len() >= 1,
        match *steps[0].pool {
            Pool::V2(p) => {
                let zf1 = *steps[0].token_in == p.token0.id;
                v2_amount_out(a, value(p.reserve_in(zf1)), value(p.reserve_out(zf1))) > 0
            },
            Pool::V3(_) => false,
        },
    ensures
        match *steps[0].pool {
            Pool::V2(p) => {
                let zf1 = *steps[0].token_in == p.token0.id;
                let out = v2_amount_out(a, value(p.reserve_in(zf1)), value(p.reserve_out(zf1)));
                swap_result(steps, a) == (if steps.len() == 1 {
                    out
                } else {
                    swap_result(steps.drop_first(), out)
                })
            },
            Pool::V3(_) => true,
        },
{
    let rest = steps.drop_first();
    match *steps[0].pool {
        Pool::V2(p) => {
            let zf1 = *steps[0].token_in == p.token0.id;
            let out = v2_amount_out(a, value(p.reserve_in(zf1)), value(p.reserve_out(zf1)));
            assert(swap_result(steps, a) == swap_chain(rest, out, out));
            if rest.len() > 0 {
                assert(swap_chain(rest, out, out) == swap_chain(rest, out, 0));
            }
        },
        Pool::V3(_) => {},
    }
}

/// A route whose first swap, through a V2 pool, pays nothing pays nothing.
pub proof fn lemma_dry_first_step<'a>(steps: Seq<SwapStep<'a>>, a: nat)
    requires
        steps.len() >= 1,
        match *steps[0].pool {
            Pool::V2(p) => {
                let zf1 = *steps[0].token_in == p.token0.id;
                v2_amount_out(a, value(p.reserve_in(zf1)), value(p.reserve_out(zf1))) == 0
            },
            Pool::V3(_) => true,
        },
    ensures
        swap_result(steps, a) == 0,
{
}

/// A route through a V3 pool pays nothing, whatever goes in.
pub proof fn lemma_v3_step_pays_nothing<'a>(steps: Seq<SwapStep<'a>>, a: nat, k: int)
    requires
        0 <= k < steps.len(),
        steps[k].pool is V3,
    ensures
        swap_result(steps, a) == 0,
    decreases k,
{
    lemma_chain_v3_pays_nothing(steps, a, 0, k);
}

proof fn lemma_chain_v3_pays_nothing<'a>(steps: Seq<SwapStep<'a>>, a: nat, last: nat, k: int)
    requires
        0 <= k < steps.len(),
        steps[k].pool is V3,
    ensures
        swap_chain(steps, a, last) == 0,
    decreases k,
{
    if k > 0 {
        match *steps[0].pool {
            Pool::V3(_) => {},
            Pool::V2(p) => {
                let rest = steps.drop_first();
                assert(rest[k - 1] == steps[k]);
                let zf1 = *steps[0].token_in == p.token0.id;
                let out = v2_amount_out(a, value(p.reserve_in(zf1)), value(p.reserve_out(zf1)));
                lemma_chain_v3_pays_nothing(rest, out, out, k - 1);
            },
        }
    }
}

/// The trial from the `i`-th input on settles on `(0, 0)` only where a trial
/// input from the `i`-th on pays nothing.
proof fn lemma_best_trial_zero_from<'a>(steps: Seq<SwapStep<'a>>, i: int, most: nat)
    requires
        0 <= i <= 6,
    ensures
        best_trial(steps, i, most) == (0nat, 0nat) ==> exists|k: int|
            i <= k < 6 && #[trigger] swap_result(steps, trial_amounts()[k]) == 0,
    decreases 6 - i,
{
    if i < 6 {
        let out = swap_result(steps, trial_amounts()[i]);
        if out != 0 {
            if out > most {
                lemma_best_trial_zero_from(steps, i + 1, out);
            } else if out < most {
                if i > 0 {
                    assert(trial_amounts()[i - 1] > 0);
                }
            } else {
                lemma_best_trial_zero_from(steps, i + 1, most);
            }
        }
    }
}

/// `maximize_profit` answers `(0, 0)` only where some trial input pays nothing.
pub proof fn lemma_profit_zero_only_if_a_trial_pays_nothing<'a>(steps: Seq<SwapStep<'a>>)
    ensures
        best_trial(steps, 0, 0) == (0nat, 0nat) ==> exists|k: int|
            0 <= k < 6 && #[trigger] swap_result(steps, trial_amounts()[k]) == 0,
{
    lemma_best_trial_zero_from(steps, 0, 0);
}

/// Where every trial input from the `i`-th on pays something and no trial
/// pays less than the one before, the trial settles on the last input and
/// what it pays.
proof fn lemma_best_trial_rising_from<'a>(steps: Seq<SwapStep<'a>>, i: int, most: nat)
    requires
        0 <= i <= 6,
        i == 0 ==> most == 0,
        i > 0 ==> most == swap_result(steps, trial_amounts()[i - 1]),
        forall|k: int| 0 <= k < 6 ==> #[trigger] swap_result(steps, trial_amounts()[k]) > 0,
        forall|k: int|
            0 <= k < 5 ==> #[trigger] swap_result(steps, trial_amounts()[k]) <= swap_result(
                steps,
                trial_amounts()[k + 1],
            ),
    ensures
        i == 6 ==> best_trial(steps, i, most) == (trial_amounts()[5], most),
        i < 6 ==> best_trial(steps, i, most) == (trial_amounts()[5], swap_result(steps, trial_amounts()[5])),
    decreases 6 - i,
{
    if i < 6 {
        let out = swap_result(steps, trial_amounts()[i]);
        assert(out > 0);
        if i > 0 {
            assert(swap_result(steps, trial_amounts()[i - 1]) <= swap_result(steps, trial_amounts()[i]));
        }
        if out > most {
            lemma_best_trial_rising_from(steps, i + 1, out);
        } else {
            lemma_best_trial_rising_from(steps, i + 1, most);
        }
    }
}

/// Where every trial input pays something and no trial pays less than the
/// one before, `maximize_profit` settles on the largest trial input and what
/// it pays.
pub proof fn lemma_profit_of_a_rising_route<'a>(steps: Seq<SwapStep<'a>>)
    requires
        forall|k: int| 0 <= k < 6 ==> #[trigger] swap_result(steps, trial_amounts()[k]) > 0,
        forall|k: int|
            0 <= k < 5 ==> #[trigger] swap_result(steps, trial_amounts()[k]) <= swap_result(
                steps,
                trial_amounts()[k + 1],
            ),
    ensures
        best_trial(steps, 0, 0) == (trial_amounts()[5], swap_result(steps, trial_amounts()[5])),
{
    lemma_best_trial_rising_from(steps, 0, 0);
}

/// Whether every swap of the steps is through a V2 pool that pays something
/// for 10^6 of the input in the `zf1` direction.
pub open spec fn all_pools_pay<'a>(steps: Seq<SwapStep<'a>>) -> bool {
    forall|i: int|
        0 <= i < steps.len() ==> match *(#[trigger] steps[i]).pool {
            Pool::V2(p) => v2_amount_out(1000000, value(p.reserve_in(true)), value(p.reserve_out(true)))
                != 0,
            Pool::V3(_) => false,
        }
}

impl<'a> SwapPath<'a> {
    /// Swaps `initial_amount_in` along the route, each output the next input.
    pub fn swap_along_path(&self, initial_amount_in: U256) -> (r: U256)
        ensures
            value(r) == swap_result(self.steps@, value(initial_amount_in)),
    {
        let mut amount_in: U256 = initial_amount_in;
        let mut amount_out: U256 = ZERO;
        let mut i: usize = 0;
        assert(self.steps@.skip(0) =~= self.steps@);
        while i < self.steps.len()
            invariant
                0 <= i <= self.steps.len(),
                swap_result(self.steps@, value(initial_amount_in)) == swap_chain(
                    self.steps@.skip(i as int),
                    value(amount_in),
                    value(amount_out),
                ),
            decreases self.steps.len() - i,
        {
            let step = &self.steps[i];
            let ghost rest = self.steps@.skip(i as int);
            proof {
                assert(rest[0] == self.steps[i as int]);
                assert(rest.drop_first() =~= self.steps@.skip(i + 1));
            }
            let zf1: bool = crate::types::same_address(step.token_in, step.pool.token0());
            match step.pool {
                Pool::V2(pool) => {
                    amount_out = pool.get_amount_out(zf1, amount_in);
                    if word_is_zero(&amount_out) {
                        return ZERO;
                    }
                    amount_in = amount_out;
                },
                Pool::V3(_) => {
                    return ZERO;
                },
            }
            i = i + 1;
        }
        assert(self.steps@.skip(i as int).len() == 0);
        amount_out
    }

    /// Tries the route with the inputs 10^15, 10^16, ..., 10^20 while the
    /// output grows, and gives the input before the first that pays less,
    /// with the best output; `(0, 0)` where an input pays nothing.
    pub fn maximize_profit(&self) -> (r: (U256, U256))
        ensures
            (value(r.0), value(r.1)) == best_trial(self.steps@, 0, 0),
    {
        let initial_amounts: [U256; 6] = [
            [1000000000000000, 0, 0, 0],
            [10000000000000000, 0, 0, 0],
            [100000000000000000, 0, 0, 0],
            [1000000000000000000, 0, 0, 0],
            [10000000000000000000, 0, 0, 0],
            [7766279631452241920, 5, 0, 0],
        ];
        proof {
            assert forall|k: int| 0 <= k < 6 implies value(#[trigger] initial_amounts[k])
                == trial_amounts()[k] by {}
        }
        let mut most: U256 = ZERO;
        let mut i: usize = 0;
        while i < 6
            invariant
                0 <= i <= 6,
                forall|k: int| 0 <= k < 6 ==> value(#[trigger] initial_amounts[k]) == trial_amounts()[k],
                i == 0 ==> value(most) == 0,
                best_trial(self.steps@, 0, 0) == best_trial(self.steps@, i as int, value(most)),
            decreases 6 - i,
        {
            let amount = initial_amounts[i];
            let amount_out = self.swap_along_path(amount);
            if word_is_zero(&amount_out) {
                return (ZERO, ZERO);
            } else if word_lt(&most, &amount_out) {
                most = amount_out;
            } else if word_lt(&amount_out, &most) {
                return (initial_amounts[i - 1], most);
            }
            i = i + 1;
        }
        (initial_amounts[5], most)
    }

    /// Marks the route bad unless each of its pools is a V2 pool that pays
    /// something for 10^6 of `token1`.
    pub fn check_path(&mut self)
        ensures
            final(self).steps@ == old(self).steps@,
            final(self).good == (old(self).good && all_pools_pay(old(self).steps@)),
    {
        let probe = word_from_u64(1000000);
        let mut i: usize = 0;
        while i < self.steps.len()
            invariant
                0 <= i <= self.steps.len(),
                self.steps@ == old(self).steps@,
                self.good == old(self).good,
                value(probe) == 1000000,
                forall|k: int| 0 <= k < i ==> match *(#[trigger] self.steps@[k]).pool {
                    Pool::V2(p) => v2_amount_out(1000000, value(p.reserve_in(true)), value(p.reserve_out(true)))
                        != 0,
                    Pool::V3(_) => false,
                },
            decreases self.steps.len() - i,
        {
            let r = match self.steps[i].pool {
                Pool::V2(pool) => pool.get_amount_out(true, probe),
                Pool::V3(_) => ZERO,
            };
            if word_is_zero(&r) {
                self.good = false;
                return;
            }
            i = i + 1;
        }
    }
}

impl Graph<Pool, Address, usize> {
    /// Spells out routes by their pools and tokens. Each pool index must
    /// name a pool and each token number a token.
    pub fn path_from_indices(&self, paths: &Vec<Path>) -> (r: Vec<SwapPath<'_>>)
        requires
            self.wf(),
            forall|i: int, k: int|
                0 <= i < paths.len() && 0 <= k < paths[i]@.len() ==> {
                    let t = #[trigger] paths[i]@[k];
                    &&& t.0 < self.pool_list().len()
                    &&& self.number_tokens().contains_key(t.1)
                    &&& self.number_tokens().contains_key(t.2)
                },
        ensures
            r.len() == paths.len(),
            forall|i: int|
                0 <= i < r.len() ==> {
                    &&& (#[trigger] r[i]).good
                    &&& r[i].steps.len() == paths[i]@.len()
                    &&& forall|k: int|
                        0 <= k < r[i].steps.len() ==> {
                            let t = paths[i]@[k];
                            &&& *(#[trigger] r[i].steps[k]).pool == self.pool_list()[t.0 as int]
                            &&& *r[i].steps[k].token_in == self.number_tokens()[t.1]
                            &&& *r[i].steps[k].token_out == self.number_tokens()[t.2]
                        }
                },
    {
        let mut swap_paths: Vec<SwapPath<'_>> = Vec::new();
        let mut i: usize = 0;
        while i < paths.len()
            invariant
                0 <= i <= paths.len(),
                self.wf(),
                forall|i: int, k: int|
                    0 <= i < paths.len() && 0 <= k < paths[i]@.len() ==> {
                        let t = #[trigger] paths[i]@[k];
                        &&& t.0 < self.pool_list().len()
                        &&& self.number_tokens().contains_key(t.1)
                        &&& self.number_tokens().contains_key(t.2)
                    },
                swap_paths.len() == i,
                forall|j: int|
                    0 <= j < i ==> {
                        &&& (#[trigger] swap_paths[j]).good
                        &&& swap_paths[j].steps.len() == paths[j]@.len()
                        &&& forall|k: int|
                            0 <= k < swap_paths[j].steps.len() ==> {
                                let t = paths[j]@[k];
                                &&& *(#[trigger] swap_paths[j].steps[k]).pool == self.pool_list()[t.0 as int]
                                &&& *swap_paths[j].steps[k].token_in == self.number_tokens()[t.1]
                                &&& *swap_paths[j].steps[k].token_out == self.number_tokens()[t.2]
                            }
                    },
            decreases paths.len() - i,
        {
            let triples: Vec<Triple> = paths[i].triples();
            let mut swap_path = SwapPath { steps: Vec::new(), good: true };
            let mut k: usize = 0;
            while k < triples.len()
                invariant
                    0 <= k <= triples.len(),
                    triples@ == paths[i as int]@,
                    self.wf(),
                    forall|k: int|
                        0 <= k < triples.len() ==> {
                            let t = #[trigger] triples@[k];
                            &&& t.0 < self.pool_list().len()
                            &&& self.number_tokens().contains_key(t.1)
                            &&& self.number_tokens().contains_key(t.2)
                        },
                    swap_path.good,
                    swap_path.steps.len() == k,
                    forall|m: int|
                        0 <= m < k ==> {
                            let t = triples@[m];
                            &&& *(#[trigger] swap_path.steps[m]).pool == self.pool_list()[t.0 as int]
                            &&& *swap_path.steps[m].token_in == self.number_tokens()[t.1]
                            &&& *swap_path.steps[m].token_out == self.number_tokens()[t.2]
                        },
                decreases triples.len() - k,
            {
                let t = triples[k];
                assert(triples@[k as int] == t);
                let pool = &self.pools[t.0];
                let token_in = index_address_get(&self.itt, t.1).unwrap();
                let token_out = index_address_get(&self.itt, t.2).unwrap();
                swap_path.steps.push(SwapStep { pool, token_in, token_out });
                k = k + 1;
            }
            swap_paths.push(swap_path);
            i = i + 1;
        }
        swap_paths
    }

    /// Spells out routes (see `path_from_indices`) and tests each with
    /// `check_path`: a route stays good exactly when all its pools pay.
    pub fn decode_and_test_path(&self, paths: &Vec<Path>) -> (r: Vec<SwapPath<'_>>)
        requires
            self.wf(),
            forall|i: int, k: int|
                0 <= i < paths.len() && 0 <= k < paths[i]@.len() ==> {
                    let t = #[trigger] paths[i]@[k];
                    &&& t.0 < self.pool_list().len()
                    &&& self.number_tokens().contains_key(t.1)
                    &&& self.number_tokens().contains_key(t.2)
                },
        ensures
            r.len() == paths.len(),
            forall|i: int|
                0 <= i < r.len() ==> {
                    &&& (#[trigger] r[i]).good == all_pools_pay(r[i].steps@)
                    &&& r[i].steps.len() == paths[i]@.len()
                    &&& forall|k: int|
                        0 <= k < r[i].steps.len() ==> {
                            let t = paths[i]@[k];
                            &&& *(#[trigger] r[i].steps[k]).pool == self.pool_list()[t.0 as int]
                            &&& *r[i].steps[k].token_in == self.number_tokens()[t.1]
                            &&& *r[i].steps[k].token_out == self.number_tokens()[t.2]
                        }
                },
    {
        let decoded = self.path_from_indices(paths);
        let ghost d = decoded@;
        let mut tested: Vec<SwapPath<'_>> = Vec::new();
        for path in iter: decoded
            invariant
                iter.seq() == d,
                d.len() == paths.len(),
                forall|i: int|
                    0 <= i < d.len() ==> {
                        &&& (#[trigger] d[i]).good
                        &&& d[i].steps.len() == paths[i]@.len()
                        &&& forall|k: int|
                            0 <= k < d[i].steps.len() ==> {
                                let t = paths[i]@[k];
                                &&& *(#[trigger] d[i].steps[k]).pool == self.pool_list()[t.0 as int]
                                &&& *d[i].steps[k].token_in == self.number_tokens()[t.1]
                                &&& *d[i].steps[k].token_out == self.number_tokens()[t.2]
                            }
                    },
                tested.len() == iter.index(),
                forall|i: int|
                    0 <= i < iter.index() ==> {
                        &&& (#[trigger] tested[i]).steps@ == d[i].steps@
                        &&& tested[i].good == all_pools_pay(d[i].steps@)
                    },
        {
            let mut p = path;
            p.check_path();
            tested.push(p);
        }
        proof {
            assert forall|i: int| 0 <= i < tested.len() implies {
                &&& (#[trigger] tested[i]).good == all_pools_pay(tested[i].steps@)
                &&& tested[i].steps.len() == paths[i]@.len()
                &&& forall|k: int|
                    0 <= k < tested[i].steps.len() ==> {
                        let t = paths[i]@[k];
                        &&& *(#[trigger] tested[i].steps[k]).pool == self.pool_list()[t.0 as int]
                        &&& *tested[i].steps[k].token_in == self.number_tokens()[t.1]
                        &&& *tested[i].steps[k].token_out == self.number_tokens()[t.2]
                    }
            } by {
                assert(tested[i].steps@ == d[i].steps@);
                assert forall|k: int| 0 <= k < tested[i].steps.len() implies
                    tested[i].steps[k] == d[i].steps[k] by {}
            }
        }
        tested
    }
}

} // verus!
