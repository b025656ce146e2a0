//! The start of a search: several first assignments, each improved for a while, and the best of
//! them.

use rand::rngs::ThreadRng;
use vstd::prelude::*;

use crate::climb::{climb_ends, enhanced_hill_climb};
use crate::context::OptContext;
use crate::descent::{coordinate_descent, descends, settled_at, well_founded};
use crate::evaluator::Evaluator;
use crate::lists::copy_of;
use crate::moves::{can_judge, judged, scored};
use crate::order::descending;
use crate::starts::{
    balanced, greedy_balance_init, is_order, random_valid_init, spread, spread_greedy_init, top_key,
};

verus! {

/// Up to how many groups the best start is polished group by group.
pub const POLISH_LIMIT: usize = 500;

/// How many starts are tried.
pub open spec fn starts_for(n: int) -> int {
    if n < 1000 {
        50
    } else {
        30
    }
}

/// How many starts are tried: 50, or 30 where there are a thousand groups or more.
pub fn start_count(n: usize) -> (r: usize)
    ensures
        r == starts_for(n as int),
{
    if n < 1000 {
        50
    } else {
        30
    }
}

/// For how many steps a start is improved.
pub open spec fn warmup(n: int) -> int {
    let wanted = n * 30;
    if wanted < 2000 {
        2000
    } else if wanted > 50_000 {
        50_000
    } else {
        wanted
    }
}

/// For how many steps a start is improved: thirty for each group, no less than 2000 and no more than
/// 50000.
pub fn warmup_steps(n: usize) -> (r: usize)
    ensures
        r == warmup(n as int),
{
    if n > 1666 {
        50_000
    } else if n * 30 < 2000 {
        2000
    } else {
        n * 30
    }
}

/// How a start is made.
#[derive(Clone, Copy, Debug, PartialEq, Eq, Structural)]
pub enum StartKind {
    /// The largest groups first, each on a least used key.
    Balanced,
    /// The heaviest groups first, each where it costs least.
    Frequent,
    /// In random order, each on the key that was unused for longest.
    Spread,
    /// At random.
    Random,
}

/// How the start with a given number is made.
pub open spec fn kind_of(trial: int) -> StartKind {
    if trial % 5 == 0 {
        StartKind::Balanced
    } else if trial % 5 <= 2 {
        StartKind::Frequent
    } else if trial % 5 == 3 {
        StartKind::Spread
    } else {
        StartKind::Random
    }
}

/// How the starts are made: of five in a row one is balanced, two go by frequency, one is spread and
/// one is random.
pub fn start_kind(trial: usize) -> (r: StartKind)
    ensures
        r == kind_of(trial as int),
{
    let m: usize = trial % 5;
    if m == 0 {
        StartKind::Balanced
    } else if m <= 2 {
        StartKind::Frequent
    } else if m == 3 {
        StartKind::Spread
    } else {
        StartKind::Random
    }
}

/// Whether an assignment is a start of a kind.
pub open spec fn starts_as<K: Fn() -> Vec<u8>>(
    ctx: &OptContext,
    allowed: Seq<char>,
    frequent: &K,
    kind: StartKind,
    a: Seq<u8>,
) -> bool {
    &&& ctx.permits(a)
    &&& match kind {
        StartKind::Balanced => exists|order: Seq<usize>| #[trigger]
            descending(ctx.sizes(), order) && balanced(ctx, order, a, top_key(ctx.layout, allowed)),
        StartKind::Frequent => exists|v: Vec<u8>| #[trigger] call_ensures(frequent, (), v) && v@ == a,
        StartKind::Spread => exists|order: Seq<usize>| #[trigger]
            is_order(order, ctx.num_groups()) && spread(ctx, order, a),
        StartKind::Random => true,
    }
}

/// The starts of a search, where each of them led, what that scored, and which was the best after
/// each.
pub struct Trials<S> {
    pub starts: Seq<Seq<u8>>,
    pub ends: Seq<Seq<u8>>,
    pub scores: Seq<S>,
    pub best: Seq<int>,
}

impl<S> Trials<S> {
    /// One trial is in order: its start is of the kind that its number calls for, it was improved for
    /// as long as starts are, and it is the best so far where it scores lower than the best before.
    pub open spec fn trial_went<
        F: Fn(&Evaluator, &Vec<u8>) -> S,
        G: Fn(&S, &S) -> bool,
        H: Fn(&S, &S) -> bool,
        K: Fn() -> Vec<u8>,
    >(
        &self,
        ctx: &OptContext,
        allowed: Seq<char>,
        frequent: &K,
        score: &F,
        accept: &G,
        lower: &H,
        i: int,
    ) -> bool {
        &&& starts_as(ctx, allowed, frequent, kind_of(i), self.starts[i])
        &&& climb_ends(
            ctx,
            false,
            score,
            accept,
            self.starts[i],
            warmup(ctx.num_groups() as int),
            self.ends[i],
        )
        &&& scored(ctx, false, score, self.ends[i], self.scores[i])
        &&& if i == 0 {
            self.best[i] == 0
        } else {
            &&& 0 <= self.best[i - 1] < i
            &&& {
                ||| self.best[i] == i && call_ensures(
                    lower,
                    (&self.scores[self.best[i - 1]], &self.scores[i]),
                    true,
                )
                ||| self.best[i] == self.best[i - 1] && call_ensures(
                    lower,
                    (&self.scores[self.best[i - 1]], &self.scores[i]),
                    false,
                )
            }
        }
    }

    /// So many trials were made, and all are in order.
    pub open spec fn went<
        F: Fn(&Evaluator, &Vec<u8>) -> S,
        G: Fn(&S, &S) -> bool,
        H: Fn(&S, &S) -> bool,
        K: Fn() -> Vec<u8>,
    >(
        &self,
        ctx: &OptContext,
        allowed: Seq<char>,
        frequent: &K,
        score: &F,
        accept: &G,
        lower: &H,
        n: int,
    ) -> bool {
        &&& self.starts.len() == n
        &&& self.ends.len() == n
        &&& self.scores.len() == n
        &&& self.best.len() == n
        &&& forall|i: int|
            0 <= i < n ==> #[trigger] self.trial_went(
                ctx,
                allowed,
                frequent,
                score,
                accept,
                lower,
                i,
            )
    }
}

/// One more trial.
proof fn one_more_trial<
    S,
    F: Fn(&Evaluator, &Vec<u8>) -> S,
    G: Fn(&S, &S) -> bool,
    H: Fn(&S, &S) -> bool,
    K: Fn() -> Vec<u8>,
>(
    ctx: &OptContext,
    allowed: Seq<char>,
    frequent: &K,
    score: &F,
    accept: &G,
    lower: &H,
    t: Trials<S>,
    start: Seq<u8>,
    end: Seq<u8>,
    s: S,
    wins: bool,
) -> (r: Trials<S>)
    requires
        t.went(ctx, allowed, frequent, score, accept, lower, t.starts.len() as int),
        starts_as(ctx, allowed, frequent, kind_of(t.starts.len() as int), start),
        climb_ends(ctx, false, score, accept, start, warmup(ctx.num_groups() as int), end),
        scored(ctx, false, score, end, s),
        t.starts.len() > 0 ==> {
            &&& 0 <= t.best[t.starts.len() - 1] < t.starts.len()
            &&& call_ensures(lower, (&t.scores[t.best[t.starts.len() - 1]], &s), wins)
        },
        t.starts.len() == 0 ==> wins,
    ensures
        r.went(ctx, allowed, frequent, score, accept, lower, t.starts.len() as int + 1),
        r.starts.len() == t.starts.len() + 1,
        0 <= r.best[t.starts.len() as int] < r.starts.len(),
        ({
            let b = r.best[t.starts.len() as int];
            if wins {
                r.ends[b] == end && r.scores[b] == s
            } else {
                let was = t.best[t.starts.len() - 1];
                r.ends[b] == t.ends[was] && r.scores[b] == t.scores[was]
            }
        }),
{
    let n = t.starts.len() as int;
    let now = if wins {
        n
    } else {
        t.best[n - 1]
    };
    let r = Trials {
        starts: t.starts.push(start),
        ends: t.ends.push(end),
        scores: t.scores.push(s),
        best: t.best.push(now),
    };
    assert forall|i: int| 0 <= i < n + 1 implies #[trigger] r.trial_went(
        ctx,
        allowed,
        frequent,
        score,
        accept,
        lower,
        i,
    ) by {
        if i < n {
            assert(t.trial_went(ctx, allowed, frequent, score, accept, lower, i));
        }
    }
    r
}

/// Whether an assignment is the start that the best of the first assignments leads to. Small ones
/// are polished until no single group has a better key, and the polished one is taken where it
/// scores lower.
pub open spec fn polished<
    S,
    F: Fn(&Evaluator, &Vec<u8>) -> S,
    H: Fn(&S, &S) -> bool,
    B: Fn(&S, &S) -> bool,
>(ctx: &OptContext, simple: bool, score: &F, lower: &H, better: &B, best: Seq<u8>, r: Seq<u8>) -> bool {
    ||| r == best && ctx.num_groups() > POLISH_LIMIT
    ||| {
        &&& ctx.num_groups() <= POLISH_LIMIT
        &&& exists|p: Seq<u8>|
            {
                &&& #[trigger] descends(ctx, simple, score, better, best, p)
                &&& forall|g: int|
                    0 <= g < ctx.num_groups() ==> #[trigger] settled_at(ctx, simple, score, better, p, g)
                &&& {
                    ||| r == p && judged(ctx, simple, score, lower, best, p, true)
                    ||| r == best && judged(ctx, simple, score, lower, best, p, false)
                }
            }
    }
}

/// The start of a search. Starts that go by frequency are made by `frequent`; `accept` decides on
/// moves while a start is improved, `lower` says whether the second score is the lower one, and
/// `better` whether it is lower by enough to move a group.
pub fn multi_start_init<
    S,
    F: Fn(&Evaluator, &Vec<u8>) -> S,
    G: Fn(&S, &S) -> bool,
    H: Fn(&S, &S) -> bool,
    B: Fn(&S, &S) -> bool,
    K: Fn() -> Vec<u8>,
>(
    ctx: &OptContext,
    allowed: &Vec<char>,
    rng: &mut ThreadRng,
    frequent: &K,
    score: &F,
    accept: &G,
    lower: &H,
    better: &B,
) -> (r: Vec<u8>)
    requires
        ctx.wf_full(),
        ctx.wf_simple(),
        ctx.playable(),
        call_requires(frequent, ()),
        forall|a: Vec<u8>| #[trigger] call_ensures(frequent, (), a) ==> ctx.permits(a@),
        can_judge(score, accept),
        can_judge(score, lower),
        can_judge(score, better),
        well_founded(ctx, false, score, better),
    ensures
        ctx.permits(r@),
        ctx.num_groups() > 0 ==> exists|t: Trials<S>|
            {
                &&& #[trigger] t.went(
                    ctx,
                    allowed@,
                    frequent,
                    score,
                    accept,
                    lower,
                    starts_for(ctx.num_groups() as int),
                )
                &&& polished(ctx, false, score, lower, better, t.ends[t.best.last()], r@)
            },
{
    let n = ctx.groups.len();
    if n == 0 {
        let empty: Vec<u8> = Vec::new();
        return empty;
    }
    let n_candidates = start_count(n);
    let steps = warmup_steps(n);
    let begin = greedy_balance_init(ctx, allowed, rng);
    let ghost from = begin@;
    let (mut best, ev) = enhanced_hill_climb(ctx, begin, rng, steps, true, score, accept);
    let mut best_score = score(&ev, &best);
    proof {
        assert(call_ensures(score, (&ev, &best), best_score));
        assert(scored(ctx, false, score, best@, best_score));
    }
    let ghost mut t = Trials {
        starts: Seq::empty(),
        ends: Seq::empty(),
        scores: Seq::empty(),
        best: Seq::empty(),
    };
    proof {
        t =
            one_more_trial(
                ctx,
                allowed@,
                frequent,
                score,
                accept,
                lower,
                t,
                from,
                best@,
                best_score,
                true,
            );
    }
    let mut trial: usize = 1;
    while trial < n_candidates
        invariant
            ctx.wf_full(),
            ctx.wf_simple(),
            ctx.playable(),
            call_requires(frequent, ()),
            forall|a: Vec<u8>| #[trigger] call_ensures(frequent, (), a) ==> ctx.permits(a@),
            can_judge(score, accept),
            can_judge(score, lower),
            n == ctx.num_groups(),
            1 <= trial <= n_candidates,
            ctx.permits(best@),
            scored(ctx, false, score, best@, best_score),
            steps == warmup(n as int),
            t.went(ctx, allowed@, frequent, score, accept, lower, trial as int),
            t.starts.len() == trial,
            0 <= t.best[trial - 1] < trial,
            t.ends[t.best[trial - 1]] == best@,
            t.scores[t.best[trial - 1]] == best_score,
        decreases n_candidates - trial,
    {
        let candidate = match start_kind(trial) {
            StartKind::Balanced => greedy_balance_init(ctx, allowed, rng),
            StartKind::Frequent => frequent(),
            StartKind::Spread => spread_greedy_init(ctx, rng),
            StartKind::Random => random_valid_init(ctx, rng),
        };
        let ghost from = candidate@;
        let (refined, ev) = enhanced_hill_climb(ctx, candidate, rng, steps, true, score, accept);
        let s = score(&ev, &refined);
        proof {
            assert(call_ensures(score, (&ev, &refined), s));
            assert(scored(ctx, false, score, refined@, s));
        }
        let wins = lower(&best_score, &s);
        proof {
            t =
                one_more_trial(
                    ctx,
                    allowed@,
                    frequent,
                    score,
                    accept,
                    lower,
                    t,
                    from,
                    refined@,
                    s,
                    wins,
                );
        }
        if wins {
            best = refined;
            best_score = s;
        }
        trial = trial + 1;
    }
    if n <= POLISH_LIMIT {
        let copy = copy_of(&best);
        let (p, ev) = coordinate_descent(ctx, copy, true, score, better);
        let s = score(&ev, &p);
        proof {
            assert(call_ensures(score, (&ev, &p), s));
            assert(scored(ctx, false, score, p@, s));
        }
        let wins = lower(&best_score, &s);
        proof {
            assert(judged(ctx, false, score, lower, best@, p@, wins));
        }
        if wins {
            assert(polished(ctx, false, score, lower, better, best@, p@));
            return p;
        }
        assert(polished(ctx, false, score, lower, better, best@, best@));
    }
    best
}

} // verus!
