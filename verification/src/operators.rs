//! Operators that look at a random neighbour of an assignment: one group on another key, or two
//! groups with their keys swapped. They say what the neighbour would change in the score, and leave
//! everything as it was.

use rand::rngs::ThreadRng;
use vstd::prelude::*;

use crate::climb::draw_two;
use crate::context::OptContext;
use crate::dice::below;
use crate::evaluator::Evaluator;
use crate::moves::{lists_key, scored, swappable, swapped};
use crate::neighbours::{other_keys, others, without_in};
use crate::types::EQUIV_TABLE_SIZE;

verus! {

/// How often an operator draws again when what it drew is no neighbour.
pub const MAX_RETRY: u32 = 16;

/// One group on another key.
#[derive(Clone, Debug)]
pub struct PointwiseResult<D> {
    pub delta_score: D,
    pub task_index: usize,
    pub radical_idx: usize,
    pub new_key: u8,
}

/// Two groups with their keys swapped.
#[derive(Clone, Debug)]
pub struct ExchangeResult<D> {
    pub delta_score: D,
    pub task_index: usize,
    pub radical_idx1: usize,
    pub radical_idx2: usize,
}

/// A neighbour that an operator found.
#[derive(Clone, Debug)]
pub enum OperatorResult<D> {
    Pointwise(PointwiseResult<D>),
    Exchange(ExchangeResult<D>),
}

impl<D: Copy> OperatorResult<D> {
    /// What the neighbour changes in the score.
    pub open spec fn delta(&self) -> D {
        match self {
            OperatorResult::Pointwise(r) => r.delta_score,
            OperatorResult::Exchange(r) => r.delta_score,
        }
    }

    /// The task that the neighbour was found for.
    pub open spec fn task(&self) -> usize {
        match self {
            OperatorResult::Pointwise(r) => r.task_index,
            OperatorResult::Exchange(r) => r.task_index,
        }
    }

    /// The neighbour of an assignment.
    pub open spec fn of(&self, a: Seq<u8>) -> Seq<u8> {
        match self {
            OperatorResult::Pointwise(r) => a.update(r.radical_idx as int, r.new_key),
            OperatorResult::Exchange(r) => swapped(a, r.radical_idx1 as int, r.radical_idx2 as int),
        }
    }

    /// Whether the groups are groups and the key is a key.
    pub open spec fn fits(&self, ctx: &OptContext) -> bool {
        match self {
            OperatorResult::Pointwise(r) => r.radical_idx < ctx.num_groups() && r.new_key
                < EQUIV_TABLE_SIZE,
            OperatorResult::Exchange(r) => r.radical_idx1 < ctx.num_groups() && r.radical_idx2
                < ctx.num_groups(),
        }
    }

    /// What the neighbour changes in the score.
    pub fn delta_score(&self) -> (d: D)
        ensures
            d == self.delta(),
    {
        match self {
            OperatorResult::Pointwise(r) => r.delta_score,
            OperatorResult::Exchange(r) => r.delta_score,
        }
    }

    /// The task that the neighbour was found for.
    pub fn task_index(&self) -> (t: usize)
        ensures
            t == self.task(),
    {
        match self {
            OperatorResult::Pointwise(r) => r.task_index,
            OperatorResult::Exchange(r) => r.task_index,
        }
    }

    /// Goes to the neighbour.
    pub fn apply(&self, ctx: &OptContext, evaluator: &mut Evaluator, assignment: &mut Vec<u8>)
        requires
            ctx.wf_full(),
            ctx.wf_simple(),
            old(evaluator).in_step(ctx, old(assignment)@),
            old(evaluator).searches(),
            self.fits(ctx),
        ensures
            final(assignment)@ == self.of(old(assignment)@),
            final(evaluator).in_step(ctx, final(assignment)@),
            final(evaluator).searches(),
            final(evaluator).simple_active == old(evaluator).simple_active,
            final(evaluator).rebuilds() == old(evaluator).rebuilds(),
    {
        match self {
            OperatorResult::Pointwise(r) => {
                evaluator.apply_move(ctx, assignment, r.radical_idx, r.new_key);
            },
            OperatorResult::Exchange(r) => {
                evaluator.apply_swap(ctx, assignment, r.radical_idx1, r.radical_idx2);
            },
        }
    }
}

/// Whether `d` is the difference that `gap` makes of scores of two assignments.
pub open spec fn differs_by<S, D, F: Fn(&Evaluator, &Vec<u8>) -> S, G: Fn(&S, &S) -> D>(
    ctx: &OptContext,
    simple: bool,
    score: &F,
    gap: &G,
    a: Seq<u8>,
    b: Seq<u8>,
    d: D,
) -> bool {
    exists|s: S, t: S|
        {
            &&& scored(ctx, simple, score, a, s)
            &&& scored(ctx, simple, score, b, t)
            &&& #[trigger] call_ensures(gap, (&s, &t), d)
        }
}

/// Whether states can be scored, and scores compared.
pub open spec fn can_weigh<S, D, F: Fn(&Evaluator, &Vec<u8>) -> S, G: Fn(&S, &S) -> D>(
    score: &F,
    gap: &G,
) -> bool {
    &&& forall|e: &Evaluator, a: &Vec<u8>| call_requires(score, (e, a))
    &&& forall|s: &S, t: &S| call_requires(gap, (s, t))
}

/// Whether a group can be moved: it may be put on two keys or more, and on one that it is not on.
pub open spec fn movable(ctx: &OptContext, a: Seq<u8>, g: int) -> bool {
    ctx.choices(g).len() > 1 && others(ctx, a, g).len() > 0
}

/// A group that was drawn, and a place among its other keys.
#[derive(Clone, Copy, Debug)]
pub struct PointDraw {
    pub group: usize,
    pub pick: usize,
}

impl PointDraw {
    /// The group is one of the first `n`, and the place is among its other keys, if it can be moved.
    pub open spec fn fits(&self, ctx: &OptContext, a: Seq<u8>, n: int) -> bool {
        &&& self.group < n
        &&& movable(ctx, a, self.group as int) ==> self.pick < others(ctx, a, self.group as int).len()
    }
}

/// What looking at groups that were drawn, one after the other, comes to: the first that can be moved
/// makes a neighbour, and those before it are wasted; if there is none, all are.
pub open spec fn point_looked<S, D: Copy, F: Fn(&Evaluator, &Vec<u8>) -> S, G: Fn(&S, &S) -> D>(
    ctx: &OptContext,
    simple: bool,
    score: &F,
    gap: &G,
    a: Seq<u8>,
    draws: Seq<PointDraw>,
    task_index: usize,
    r: (Option<(D, OperatorResult<D>)>, u32),
) -> bool {
    &&& r.1 <= draws.len()
    &&& forall|i: int| 0 <= i < r.1 ==> !movable(ctx, a, (#[trigger] draws[i]).group as int)
    &&& match r.0 {
        None => r.1 == draws.len(),
        Some((d, found)) => {
            let draw = draws[r.1 as int];
            &&& r.1 < draws.len()
            &&& movable(ctx, a, draw.group as int)
            &&& found == OperatorResult::Pointwise(
                PointwiseResult {
                    delta_score: d,
                    task_index,
                    radical_idx: draw.group,
                    new_key: others(ctx, a, draw.group as int)[draw.pick as int],
                },
            )
            &&& differs_by(ctx, simple, score, gap, a, found.of(a), d)
        },
    }
}

/// Whether groups were drawn as an operator does: from the first `n`, until one can be moved, but not
/// too often.
pub open spec fn point_drawn(ctx: &OptContext, a: Seq<u8>, n: int, draws: Seq<PointDraw>) -> bool {
    &&& 0 < draws.len() <= MAX_RETRY
    &&& forall|i: int| 0 <= i < draws.len() ==> (#[trigger] draws[i]).fits(ctx, a, n)
    &&& draws.len() < MAX_RETRY ==> movable(ctx, a, draws.last().group as int)
}

/// What an operator that draws from the first `n` groups comes to: what looking at some draws does.
pub open spec fn point_explored<S, D: Copy, F: Fn(&Evaluator, &Vec<u8>) -> S, G: Fn(&S, &S) -> D>(
    ctx: &OptContext,
    simple: bool,
    score: &F,
    gap: &G,
    a: Seq<u8>,
    n: int,
    task_index: usize,
    r: (Option<(D, OperatorResult<D>)>, u32),
) -> bool {
    exists|draws: Seq<PointDraw>|
        {
            &&& point_drawn(ctx, a, n, draws)
            &&& #[trigger] point_looked(ctx, simple, score, gap, a, draws, task_index, r)
        }
}

/// Whether a group can be moved.
fn can_move(ctx: &OptContext, assignment: &Vec<u8>, g: usize) -> (r: bool)
    requires
        g < ctx.num_groups(),
        assignment@.len() == ctx.num_groups(),
    ensures
        r == movable(ctx, assignment@, g as int),
{
    ctx.groups[g].allowed_keys.len() > 1 && other_keys(&ctx.groups[g].allowed_keys, assignment[g]).len() > 0
}

/// Draws from the first `n` groups until one can be moved, but not too often.
pub fn draw_points(ctx: &OptContext, assignment: &Vec<u8>, n: usize, rng: &mut ThreadRng) -> (draws: Vec<PointDraw>)
    requires
        0 < n <= ctx.num_groups(),
        assignment@.len() == ctx.num_groups(),
    ensures
        point_drawn(ctx, assignment@, n as int, draws@),
{
    let mut draws: Vec<PointDraw> = Vec::new();
    while draws.len() < MAX_RETRY as usize
        invariant
            0 < n <= ctx.num_groups(),
            assignment@.len() == ctx.num_groups(),
            draws@.len() <= MAX_RETRY,
            forall|i: int| 0 <= i < draws@.len() ==> (#[trigger] draws@[i]).fits(ctx, assignment@, n as int),
        decreases MAX_RETRY - draws@.len(),
    {
        let group = below(rng, n);
        if can_move(ctx, assignment, group) {
            let pick = below(rng, other_keys(&ctx.groups[group].allowed_keys, assignment[group]).len());
            draws.push(PointDraw { group, pick });
            return draws;
        }
        draws.push(PointDraw { group, pick: 0 });
    }
    draws
}

/// Looks at one group on another key.
#[derive(Clone, Debug)]
pub struct PointwiseOperator {
    /// From how many groups one is drawn.
    pub radicals: Option<usize>,
}

impl PointwiseOperator {
    /// An operator that draws from no groups yet.
    pub fn new(pre_alloc_radical: usize) -> (r: Self)
        ensures
            r.radicals is None,
    {
        PointwiseOperator { radicals: None }
    }

    /// Has the operator draw from the first groups, if there are any.
    pub fn init_distributions(&mut self, num_radical: usize)
        ensures
            final(self).radicals == if num_radical > 0 {
                Some(num_radical)
            } else {
                old(self).radicals
            },
    {
        if num_radical > 0 {
            self.radicals = Some(num_radical);
        }
    }

    /// Looks at groups that were drawn, one after the other: the first that can be moved makes a
    /// neighbour. Says how many came before it.
    pub fn look<S, D: Copy, F: Fn(&Evaluator, &Vec<u8>) -> S, G: Fn(&S, &S) -> D>(
        ctx: &OptContext,
        evaluator: &mut Evaluator,
        assignment: &mut Vec<u8>,
        draws: &Vec<PointDraw>,
        task_index: usize,
        score: &F,
        gap: &G,
    ) -> (r: (Option<(D, OperatorResult<D>)>, u32))
        requires
            ctx.wf_full(),
            ctx.wf_simple(),
            ctx.playable(),
            old(evaluator).in_step(ctx, old(assignment)@),
            old(evaluator).searches(),
            draws@.len() <= u32::MAX,
            forall|i: int|
                0 <= i < draws@.len() ==> (#[trigger] draws@[i]).fits(
                    ctx,
                    old(assignment)@,
                    ctx.num_groups() as int,
                ),
            can_weigh(score, gap),
        ensures
            final(assignment)@ == old(assignment)@,
            final(evaluator).in_step(ctx, final(assignment)@),
            final(evaluator).searches(),
            final(evaluator).same_state(old(evaluator)),
            final(evaluator).rebuilds() == old(evaluator).rebuilds(),
            point_looked(
                ctx,
                old(evaluator).simple_active,
                score,
                gap,
                old(assignment)@,
                draws@,
                task_index,
                r,
            ),
    {
        let ghost simple = evaluator.simple_active;
        let ghost a = assignment@;
        let mut wasted: u32 = 0;
        while (wasted as usize) < draws.len()
            invariant
                draws@.len() <= u32::MAX,
                wasted <= draws@.len(),
                assignment@ == a,
                a.len() == ctx.num_groups(),
                a == old(assignment)@,
                *evaluator == *old(evaluator),
                forall|i: int|
                    0 <= i < draws@.len() ==> (#[trigger] draws@[i]).fits(ctx, a, ctx.num_groups() as int),
                forall|i: int| 0 <= i < wasted ==> !movable(ctx, a, (#[trigger] draws@[i]).group as int),
            ensures
                wasted < draws@.len() ==> movable(ctx, a, draws@[wasted as int].group as int),
            decreases draws@.len() - wasted,
        {
            assert(draws@[wasted as int].fits(ctx, a, ctx.num_groups() as int));
            if can_move(ctx, assignment, draws[wasted as usize].group) {
                break;
            }
            wasted = wasted + 1;
        }
        if (wasted as usize) >= draws.len() {
            return (None, wasted);
        }
        let draw = draws[wasted as usize];
        assert(draws@[wasted as int].fits(ctx, a, ctx.num_groups() as int));
        let gi = draw.group;
        let keys = other_keys(&ctx.groups[gi].allowed_keys, assignment[gi]);
        let new_key = keys[draw.pick];
        proof {
            assert(others(ctx, a, gi as int)[draw.pick as int] == new_key);
            let at = ctx.choices(gi as int).index_of(new_key);
            assert(ctx.choices(gi as int)[at] < EQUIV_TABLE_SIZE);
        }
        let before = score(&*evaluator, &*assignment);
        proof {
            assert(call_ensures(score, (&*evaluator, &*assignment), before));
            assert(scored(ctx, simple, score, a, before));
        }
        let after = evaluator.probe_move(ctx, assignment, gi, new_key, score);
        let delta_score = gap(&before, &after);
        let found = OperatorResult::Pointwise(
            PointwiseResult { delta_score, task_index, radical_idx: gi, new_key },
        );
        (Some((delta_score, found)), wasted)
    }

    /// Looks at a random group on a random other key. Gives up after too many groups that cannot be
    /// moved, and says how many there were.
    pub fn explore<S, D: Copy, F: Fn(&Evaluator, &Vec<u8>) -> S, G: Fn(&S, &S) -> D>(
        &self,
        ctx: &OptContext,
        evaluator: &mut Evaluator,
        assignment: &mut Vec<u8>,
        task_index: usize,
        rng: &mut ThreadRng,
        score: &F,
        gap: &G,
    ) -> (r: (Option<(D, OperatorResult<D>)>, u32))
        requires
            ctx.wf_full(),
            ctx.wf_simple(),
            ctx.playable(),
            old(evaluator).in_step(ctx, old(assignment)@),
            old(evaluator).searches(),
            self.radicals matches Some(n) ==> 0 < n <= ctx.num_groups(),
            can_weigh(score, gap),
        ensures
            final(assignment)@ == old(assignment)@,
            final(evaluator).in_step(ctx, final(assignment)@),
            final(evaluator).searches(),
            final(evaluator).same_state(old(evaluator)),
            final(evaluator).rebuilds() == old(evaluator).rebuilds(),
            self.radicals is None ==> r.0 is None && r.1 == 0,
            self.radicals matches Some(n) ==> point_explored(
                ctx,
                old(evaluator).simple_active,
                score,
                gap,
                old(assignment)@,
                n as int,
                task_index,
                r,
            ),
            self.radicals is Some && r.0 is None ==> r.1 == MAX_RETRY,
            self.radicals is Some && (forall|g: int|
                0 <= g < self.radicals->0 ==> #[trigger] movable(ctx, old(assignment)@, g)) ==> r.0 is Some
                && r.1 == 0,
            r.0 matches Some((d, found)) ==> {
                &&& r.1 < MAX_RETRY
                &&& found.fits(ctx)
                &&& found.task() == task_index
                &&& found.delta() == d
                &&& found matches OperatorResult::Pointwise(p)
                &&& p.radical_idx < self.radicals->0
                &&& movable(ctx, old(assignment)@, p.radical_idx as int)
                &&& others(ctx, old(assignment)@, p.radical_idx as int).contains(p.new_key)
                &&& differs_by(ctx, old(evaluator).simple_active, score, gap, old(assignment)@, found.of(old(assignment)@), d)
            },
    {
        let n = match self.radicals {
            Some(n) => n,
            None => {
                return (None, 0);
            },
        };
        let draws = draw_points(ctx, assignment, n, rng);
        proof {
            assert forall|i: int| 0 <= i < draws@.len() implies (#[trigger] draws@[i]).fits(
                ctx,
                assignment@,
                ctx.num_groups() as int,
            ) by {
                assert(draws@[i].fits(ctx, assignment@, n as int));
            }
        }
        let r = Self::look(ctx, evaluator, assignment, &draws, task_index, score, gap);
        proof {
            let x = draws@[draws@.len() - 1];
            if r.1 < draws@.len() {
                let y = draws@[r.1 as int];
                assert(y.fits(ctx, old(assignment)@, n as int));
                if r.0 is Some {
                    let (g, a) = (y.group as int, old(assignment)@);
                    let k = others(ctx, a, g)[y.pick as int];
                    without_in(ctx.choices(g), a[g], y.pick as int);
                    let at = ctx.choices(g).index_of(k);
                    assert(ctx.choices(g)[at] < EQUIV_TABLE_SIZE);
                }
            }
            if r.1 > 0 {
                let z = draws@[0];
                assert(z.fits(ctx, old(assignment)@, n as int));
                assert(!movable(ctx, old(assignment)@, z.group as int));
            }
        }
        r
    }
}

/// Two different groups that were drawn.
#[derive(Clone, Copy, Debug)]
pub struct SwapDraw {
    pub r1: usize,
    pub r2: usize,
}

impl SwapDraw {
    /// The groups are two of the first `n`.
    pub open spec fn fits(&self, n: int) -> bool {
        self.r1 < n && self.r2 < n && self.r1 != self.r2
    }

    /// The groups can swap their keys.
    pub open spec fn swaps(&self, ctx: &OptContext, a: Seq<u8>) -> bool {
        swappable(ctx, a, self.r1 as int, self.r2 as int)
    }
}

/// What looking at pairs that were drawn, one after the other, comes to: the first that can be swapped
/// makes a neighbour, and those before it are wasted; if there is none, all are.
pub open spec fn swap_looked<S, D: Copy, F: Fn(&Evaluator, &Vec<u8>) -> S, G: Fn(&S, &S) -> D>(
    ctx: &OptContext,
    simple: bool,
    score: &F,
    gap: &G,
    a: Seq<u8>,
    draws: Seq<SwapDraw>,
    task_index: usize,
    r: (Option<(D, OperatorResult<D>)>, u32),
) -> bool {
    &&& r.1 <= draws.len()
    &&& forall|i: int| 0 <= i < r.1 ==> !(#[trigger] draws[i]).swaps(ctx, a)
    &&& match r.0 {
        None => r.1 == draws.len(),
        Some((d, found)) => {
            let draw = draws[r.1 as int];
            &&& r.1 < draws.len()
            &&& draw.swaps(ctx, a)
            &&& found == OperatorResult::Exchange(
                ExchangeResult { delta_score: d, task_index, radical_idx1: draw.r1, radical_idx2: draw.r2 },
            )
            &&& differs_by(ctx, simple, score, gap, a, found.of(a), d)
        },
    }
}

/// Whether pairs were drawn as an operator does: from the first `n` groups, until two can be swapped,
/// but not too often.
pub open spec fn swap_drawn(ctx: &OptContext, a: Seq<u8>, n: int, draws: Seq<SwapDraw>) -> bool {
    &&& 0 < draws.len() <= MAX_RETRY
    &&& forall|i: int| 0 <= i < draws.len() ==> (#[trigger] draws[i]).fits(n)
    &&& draws.len() < MAX_RETRY ==> draws.last().swaps(ctx, a)
}

/// What an operator that draws from the first `n` groups comes to: what looking at some draws does.
pub open spec fn swap_explored<S, D: Copy, F: Fn(&Evaluator, &Vec<u8>) -> S, G: Fn(&S, &S) -> D>(
    ctx: &OptContext,
    simple: bool,
    score: &F,
    gap: &G,
    a: Seq<u8>,
    n: int,
    task_index: usize,
    r: (Option<(D, OperatorResult<D>)>, u32),
) -> bool {
    exists|draws: Seq<SwapDraw>|
        {
            &&& swap_drawn(ctx, a, n, draws)
            &&& #[trigger] swap_looked(ctx, simple, score, gap, a, draws, task_index, r)
        }
}

/// Whether two groups can swap their keys.
fn can_swap(ctx: &OptContext, assignment: &Vec<u8>, draw: &SwapDraw) -> (r: bool)
    requires
        draw.fits(ctx.num_groups() as int),
        assignment@.len() == ctx.num_groups(),
    ensures
        r == draw.swaps(ctx, assignment@),
{
    let k1 = assignment[draw.r1];
    let k2 = assignment[draw.r2];
    k1 != k2 && lists_key(&ctx.groups[draw.r1].allowed_keys, k2) && lists_key(
        &ctx.groups[draw.r2].allowed_keys,
        k1,
    )
}

/// Draws pairs from the first `n` groups until two can be swapped, but not too often.
pub fn draw_swaps(ctx: &OptContext, assignment: &Vec<u8>, n: usize, rng: &mut ThreadRng) -> (draws: Vec<SwapDraw>)
    requires
        1 < n <= ctx.num_groups(),
        assignment@.len() == ctx.num_groups(),
    ensures
        swap_drawn(ctx, assignment@, n as int, draws@),
{
    let mut draws: Vec<SwapDraw> = Vec::new();
    while draws.len() < MAX_RETRY as usize
        invariant
            1 < n <= ctx.num_groups(),
            assignment@.len() == ctx.num_groups(),
            draws@.len() <= MAX_RETRY,
            forall|i: int| 0 <= i < draws@.len() ==> (#[trigger] draws@[i]).fits(n as int),
        decreases MAX_RETRY - draws@.len(),
    {
        let (r1, r2) = draw_two(n, rng);
        let draw = SwapDraw { r1, r2 };
        let found = can_swap(ctx, assignment, &draw);
        draws.push(draw);
        if found {
            return draws;
        }
    }
    draws
}

/// Looks at two groups with their keys swapped.
#[derive(Clone, Debug)]
pub struct ExchangeOperator {
    /// From how many groups two are drawn.
    pub radicals: Option<usize>,
}

impl ExchangeOperator {
    /// An operator that draws from no groups yet.
    pub fn new(pre_alloc_radical: usize) -> (r: Self)
        ensures
            r.radicals is None,
    {
        ExchangeOperator { radicals: None }
    }

    /// Has the operator draw from the first groups, if there are two or more.
    pub fn init_distributions(&mut self, num_radical: usize)
        ensures
            final(self).radicals == if num_radical > 1 {
                Some(num_radical)
            } else {
                old(self).radicals
            },
    {
        if num_radical > 1 {
            self.radicals = Some(num_radical);
        }
    }

    /// Looks at pairs that were drawn, one after the other: the first that can be swapped makes a
    /// neighbour. Says how many came before it.
    pub fn look<S, D: Copy, F: Fn(&Evaluator, &Vec<u8>) -> S, G: Fn(&S, &S) -> D>(
        ctx: &OptContext,
        evaluator: &mut Evaluator,
        assignment: &mut Vec<u8>,
        draws: &Vec<SwapDraw>,
        task_index: usize,
        score: &F,
        gap: &G,
    ) -> (r: (Option<(D, OperatorResult<D>)>, u32))
        requires
            ctx.wf_full(),
            ctx.wf_simple(),
            old(evaluator).in_step(ctx, old(assignment)@),
            old(evaluator).searches(),
            draws@.len() <= u32::MAX,
            forall|i: int| 0 <= i < draws@.len() ==> (#[trigger] draws@[i]).fits(ctx.num_groups() as int),
            can_weigh(score, gap),
        ensures
            final(assignment)@ == old(assignment)@,
            final(evaluator).in_step(ctx, final(assignment)@),
            final(evaluator).searches(),
            final(evaluator).same_state(old(evaluator)),
            final(evaluator).rebuilds() == old(evaluator).rebuilds(),
            swap_looked(
                ctx,
                old(evaluator).simple_active,
                score,
                gap,
                old(assignment)@,
                draws@,
                task_index,
                r,
            ),
    {
        let ghost simple = evaluator.simple_active;
        let ghost a = assignment@;
        let mut wasted: u32 = 0;
        while (wasted as usize) < draws.len()
            invariant
                draws@.len() <= u32::MAX,
                wasted <= draws@.len(),
                assignment@ == a,
                a.len() == ctx.num_groups(),
                a == old(assignment)@,
                *evaluator == *old(evaluator),
                forall|i: int| 0 <= i < draws@.len() ==> (#[trigger] draws@[i]).fits(ctx.num_groups() as int),
                forall|i: int| 0 <= i < wasted ==> !(#[trigger] draws@[i]).swaps(ctx, a),
            ensures
                wasted < draws@.len() ==> draws@[wasted as int].swaps(ctx, a),
            decreases draws@.len() - wasted,
        {
            assert(draws@[wasted as int].fits(ctx.num_groups() as int));
            if can_swap(ctx, assignment, &draws[wasted as usize]) {
                break;
            }
            wasted = wasted + 1;
        }
        if (wasted as usize) >= draws.len() {
            return (None, wasted);
        }
        let draw = draws[wasted as usize];
        assert(draws@[wasted as int].fits(ctx.num_groups() as int));
        let before = score(&*evaluator, &*assignment);
        proof {
            assert(call_ensures(score, (&*evaluator, &*assignment), before));
            assert(scored(ctx, simple, score, a, before));
        }
        let after = evaluator.probe_swap(ctx, assignment, draw.r1, draw.r2, score);
        let delta_score = gap(&before, &after);
        let found = OperatorResult::Exchange(
            ExchangeResult { delta_score, task_index, radical_idx1: draw.r1, radical_idx2: draw.r2 },
        );
        (Some((delta_score, found)), wasted)
    }

    /// Looks at two random groups with their keys swapped. Gives up after too many pairs that cannot
    /// be swapped, and says how many there were.
    pub fn explore<S, D: Copy, F: Fn(&Evaluator, &Vec<u8>) -> S, G: Fn(&S, &S) -> D>(
        &self,
        ctx: &OptContext,
        evaluator: &mut Evaluator,
        assignment: &mut Vec<u8>,
        task_index: usize,
        rng: &mut ThreadRng,
        score: &F,
        gap: &G,
    ) -> (r: (Option<(D, OperatorResult<D>)>, u32))
        requires
            ctx.wf_full(),
            ctx.wf_simple(),
            old(evaluator).in_step(ctx, old(assignment)@),
            old(evaluator).searches(),
            self.radicals matches Some(n) ==> 1 < n <= ctx.num_groups(),
            can_weigh(score, gap),
        ensures
            final(assignment)@ == old(assignment)@,
            final(evaluator).in_step(ctx, final(assignment)@),
            final(evaluator).searches(),
            final(evaluator).same_state(old(evaluator)),
            final(evaluator).rebuilds() == old(evaluator).rebuilds(),
            self.radicals is None ==> r.0 is None && r.1 == 0,
            self.radicals matches Some(n) ==> swap_explored(
                ctx,
                old(evaluator).simple_active,
                score,
                gap,
                old(assignment)@,
                n as int,
                task_index,
                r,
            ),
            self.radicals is Some && r.0 is None ==> r.1 == MAX_RETRY,
            self.radicals is Some && (forall|g: int, h: int|
                0 <= g < self.radicals->0 && 0 <= h < self.radicals->0 && g != h ==> #[trigger] swappable(
                    ctx,
                    old(assignment)@,
                    g,
                    h,
                )) ==> r.0 is Some && r.1 == 0,
            r.0 matches Some((d, found)) ==> {
                &&& r.1 < MAX_RETRY
                &&& found.fits(ctx)
                &&& found.task() == task_index
                &&& found.delta() == d
                &&& found matches OperatorResult::Exchange(p)
                &&& p.radical_idx1 < self.radicals->0
                &&& p.radical_idx2 < self.radicals->0
                &&& swappable(ctx, old(assignment)@, p.radical_idx1 as int, p.radical_idx2 as int)
                &&& differs_by(ctx, old(evaluator).simple_active, score, gap, old(assignment)@, found.of(old(assignment)@), d)
            },
    {
        let n = match self.radicals {
            Some(n) => n,
            None => {
                return (None, 0);
            },
        };
        let draws = draw_swaps(ctx, assignment, n, rng);
        proof {
            assert forall|i: int| 0 <= i < draws@.len() implies (#[trigger] draws@[i]).fits(
                ctx.num_groups() as int,
            ) by {
                assert(draws@[i].fits(n as int));
            }
        }
        let r = Self::look(ctx, evaluator, assignment, &draws, task_index, score, gap);
        proof {
            let x = draws@[draws@.len() - 1];
            if r.1 < draws@.len() {
                let y = draws@[r.1 as int];
                assert(y.fits(n as int));
            }
            if r.1 > 0 {
                let z = draws@[0];
                assert(z.fits(n as int));
                assert(!z.swaps(ctx, old(assignment)@));
                assert(!swappable(ctx, old(assignment)@, z.r1 as int, z.r2 as int));
            }
        }
        r
    }
}

/// An operator.
#[derive(Clone, Debug)]
pub enum AmhbOperator {
    Pointwise(PointwiseOperator),
    Exchange(ExchangeOperator),
}

impl AmhbOperator {
    /// The name of the operator.
    pub fn name(&self) -> (r: &str)
        ensures
            r@ == match self {
                AmhbOperator::Pointwise(_) => "Pointwise"@,
                AmhbOperator::Exchange(_) => "Exchange"@,
            },
    {
        match self {
            AmhbOperator::Pointwise(_) => "Pointwise",
            AmhbOperator::Exchange(_) => "Exchange",
        }
    }

    /// Whether the operator draws from groups that there are.
    pub open spec fn ready(&self, ctx: &OptContext) -> bool {
        match self {
            AmhbOperator::Pointwise(op) => op.radicals matches Some(n) ==> 0 < n <= ctx.num_groups(),
            AmhbOperator::Exchange(op) => op.radicals matches Some(n) ==> 1 < n <= ctx.num_groups(),
        }
    }

    /// From how many groups the operator draws.
    pub open spec fn drawn_from(&self) -> Option<usize> {
        match self {
            AmhbOperator::Pointwise(op) => op.radicals,
            AmhbOperator::Exchange(op) => op.radicals,
        }
    }

    /// Whether a result is a neighbour of an assignment that the operator looks at.
    pub open spec fn finds<D: Copy>(&self, ctx: &OptContext, a: Seq<u8>, found: OperatorResult<D>) -> bool {
        match (self, found) {
            (AmhbOperator::Pointwise(op), OperatorResult::Pointwise(p)) => {
                &&& p.radical_idx < op.radicals->0
                &&& movable(ctx, a, p.radical_idx as int)
                &&& others(ctx, a, p.radical_idx as int).contains(p.new_key)
            },
            (AmhbOperator::Exchange(op), OperatorResult::Exchange(p)) => {
                &&& p.radical_idx1 < op.radicals->0
                &&& p.radical_idx2 < op.radicals->0
                &&& swappable(ctx, a, p.radical_idx1 as int, p.radical_idx2 as int)
            },
            _ => false,
        }
    }

    /// Looks at a random neighbour. Gives up after too many draws that are none, and says how many
    /// there were.
    pub fn explore<S, D: Copy, F: Fn(&Evaluator, &Vec<u8>) -> S, G: Fn(&S, &S) -> D>(
        &self,
        ctx: &OptContext,
        evaluator: &mut Evaluator,
        assignment: &mut Vec<u8>,
        task_index: usize,
        rng: &mut ThreadRng,
        score: &F,
        gap: &G,
    ) -> (r: (Option<(D, OperatorResult<D>)>, u32))
        requires
            ctx.wf_full(),
            ctx.wf_simple(),
            ctx.playable(),
            old(evaluator).in_step(ctx, old(assignment)@),
            old(evaluator).searches(),
            self.ready(ctx),
            can_weigh(score, gap),
        ensures
            final(assignment)@ == old(assignment)@,
            final(evaluator).in_step(ctx, final(assignment)@),
            final(evaluator).searches(),
            final(evaluator).same_state(old(evaluator)),
            final(evaluator).rebuilds() == old(evaluator).rebuilds(),
            self.drawn_from() is None ==> r.0 is None && r.1 == 0,
            self.drawn_from() is Some && r.0 is None ==> r.1 == MAX_RETRY,
            self matches AmhbOperator::Pointwise(op) ==> (op.radicals is Some && (forall|g: int|
                0 <= g < op.radicals->0 ==> #[trigger] movable(ctx, old(assignment)@, g)) ==> r.0 is Some
                && r.1 == 0),
            self matches AmhbOperator::Exchange(op) ==> (op.radicals is Some && (forall|g: int, h: int|
                0 <= g < op.radicals->0 && 0 <= h < op.radicals->0 && g != h ==> #[trigger] swappable(
                    ctx,
                    old(assignment)@,
                    g,
                    h,
                )) ==> r.0 is Some && r.1 == 0),
            self.drawn_from() matches Some(n) ==> match self {
                AmhbOperator::Pointwise(_) => point_explored(
                    ctx,
                    old(evaluator).simple_active,
                    score,
                    gap,
                    old(assignment)@,
                    n as int,
                    task_index,
                    r,
                ),
                AmhbOperator::Exchange(_) => swap_explored(
                    ctx,
                    old(evaluator).simple_active,
                    score,
                    gap,
                    old(assignment)@,
                    n as int,
                    task_index,
                    r,
                ),
            },
            r.0 matches Some((d, found)) ==> {
                &&& r.1 < MAX_RETRY
                &&& found.fits(ctx)
                &&& found.task() == task_index
                &&& found.delta() == d
                &&& self.finds(ctx, old(assignment)@, found)
                &&& differs_by(ctx, old(evaluator).simple_active, score, gap, old(assignment)@, found.of(old(assignment)@), d)
            },
    {
        match self {
            AmhbOperator::Pointwise(op) => op.explore(
                ctx,
                evaluator,
                assignment,
                task_index,
                rng,
                score,
                gap,
            ),
            AmhbOperator::Exchange(op) => op.explore(
                ctx,
                evaluator,
                assignment,
                task_index,
                rng,
                score,
                gap,
            ),
        }
    }
}

} // verus!
