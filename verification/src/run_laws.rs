//! What the steps of a run do to the present assignment, and when they do it, told group by group and
//! step by step.

use vstd::prelude::*;

use crate::annealing::{
    counted, descent_held, final_steps, has_simple, in_heaviest, jostled, jostled_by, kept_lower,
    latch_activation, neighbour_fits, neighbour_tried, neighbour_went, nudged, nudged_to, refined, shaken,
    AnnealPlan, Annealer, Due, DueAfter,
};
use crate::climb::{climb_ends, move_tried, swap_tried};
use crate::context::OptContext;
use crate::descent::{descends, settled_at};
use crate::evaluator::{one_more, Evaluator};
use crate::moves::{judged, scored};
use crate::neighbours::{others, without_in};
use crate::operators::{
    point_explored, point_looked, swap_explored, swap_looked, OperatorResult, PointDraw, SwapDraw,
};
use crate::search_laws::{one_moves, swap_told};

verus! {

/// Whether one assignment becomes another when two groups on different keys, each of which may be put on
/// the key of the other, swap them.
pub open spec fn two_swap(ctx: &OptContext, a: Seq<u8>, b: Seq<u8>, g: int, h: int) -> bool {
    &&& 0 <= g < a.len()
    &&& 0 <= h < a.len()
    &&& g != h
    &&& a[g] != a[h]
    &&& b.len() == a.len()
    &&& b[g] == a[h]
    &&& b[h] == a[g]
    &&& ctx.groups@[g].allowed_keys@.contains(b[g])
    &&& ctx.groups@[h].allowed_keys@.contains(b[h])
    &&& forall|i: int| 0 <= i < a.len() && i != g && i != h ==> #[trigger] b[i] == a[i]
}

/// A swap that was made is one of two groups.
proof fn swap_made<S, F: Fn(&Evaluator, &Vec<u8>) -> S, G: Fn(&S, &S) -> bool>(
    ctx: &OptContext,
    simple: bool,
    score: &F,
    accept: &G,
    a: Seq<u8>,
    b: Seq<u8>,
    g: int,
    h: int,
)
    requires
        a.len() == ctx.groups@.len(),
        swap_tried(ctx, simple, score, accept, a, b, g, h, true),
    ensures
        two_swap(ctx, a, b, g, h),
        judged(ctx, simple, score, accept, a, b, true),
{
    swap_told(a, g, h);
}

/// A move that was made is one of a group.
proof fn move_made<S, F: Fn(&Evaluator, &Vec<u8>) -> S, G: Fn(&S, &S) -> bool>(
    ctx: &OptContext,
    simple: bool,
    score: &F,
    accept: &G,
    a: Seq<u8>,
    b: Seq<u8>,
    g: int,
    pick: int,
)
    requires
        0 <= g < a.len(),
        0 <= pick < ctx.choices(g).len(),
        move_tried(ctx, simple, score, accept, a, b, g, ctx.choices(g)[pick], true),
    ensures
        one_moves(ctx, a, b, g),
        judged(ctx, simple, score, accept, a, b, true),
{
    assert(ctx.choices(g).contains(ctx.choices(g)[pick]));
}

/// A step that goes to a neighbour swaps the keys of two groups, if a swap was asked for, or moves one
/// group to another key that it may be put on. A group is moved instead of swapped only where it cannot
/// swap with the other one. A step that does not go there changes nothing.
pub proof fn neighbours_told<S, F: Fn(&Evaluator, &Vec<u8>) -> S, G: Fn(&S, &S) -> bool>(
    ctx: &OptContext,
    simple: bool,
    score: &F,
    accept: &G,
    swap: bool,
    a: Seq<u8>,
    b: Seq<u8>,
    accepted: bool,
)
    requires
        a.len() == ctx.groups@.len(),
        neighbour_tried(ctx, simple, score, accept, swap, a, b, accepted),
    ensures
        !accepted ==> b == a,
        accepted ==> a != b && judged(ctx, simple, score, accept, a, b, true),
        accepted ==> (exists|g: int, h: int| swap && #[trigger] two_swap(ctx, a, b, g, h)) || exists|g: int|
            0 <= g < a.len() && #[trigger] one_moves(ctx, a, b, g) && (swap && a.len() >= 2 ==> exists|h: int|
                #![trigger a[h]]
                {
                    &&& 0 <= h < a.len()
                    &&& h != g
                    &&& a[g] == a[h] || !ctx.groups@[g].allowed_keys@.contains(a[h])
                        || !ctx.groups@[h].allowed_keys@.contains(a[g])
                }),
{
    let (r, other, pick) = choose|r: usize, other: Option<usize>, pick: usize|
        {
            &&& neighbour_fits(ctx, r, other, pick)
            &&& other is Some <==> swap && ctx.num_groups() >= 2
            &&& #[trigger] neighbour_went(ctx, simple, score, accept, r, other, pick, a, b, accepted)
        };
    let g = r as int;
    if accepted {
        match other {
            Some(h) => {
                let x = a[h as int];
                if crate::moves::swappable(ctx, a, g, h as int) {
                    swap_made(ctx, simple, score, accept, a, b, g, h as int);
                    assert(b[g] != a[g]);
                } else {
                    move_made(ctx, simple, score, accept, a, b, g, pick as int);
                }
            },
            None => {
                move_made(ctx, simple, score, accept, a, b, g, pick as int);
            },
        }
    }
}

/// A group that was nudged is on a key that it may be put on, or where it was; the others are where they
/// were.
proof fn nudge_told<S, F: Fn(&Evaluator, &Vec<u8>) -> S, G: Fn(&S, &S) -> bool>(
    ctx: &OptContext,
    simple: bool,
    score: &F,
    accept: &G,
    a: Seq<u8>,
    b: Seq<u8>,
    g: int,
)
    requires
        0 <= g < a.len(),
        nudged(ctx, simple, score, accept, a, b, g),
    ensures
        a == b || one_moves(ctx, a, b, g),
        b.len() == a.len(),
{
    let (pick, moved) = choose|pick: int, moved: bool|
        0 <= pick < ctx.choices(g).len() && #[trigger] nudged_to(
            ctx,
            simple,
            score,
            accept,
            a,
            b,
            g,
            pick,
            moved,
        );
    if moved {
        move_made(ctx, simple, score, accept, a, b, g, pick);
    }
}

/// Whether a group is one of the first of a list.
pub open spec fn among_first(groups: Seq<usize>, n: int, g: int) -> bool {
    exists|i: int| 0 <= i < n && i < groups.len() && #[trigger] groups[i] == g
}

/// What has moved in the first steps of a shake is one of the first groups.
proof fn shake_course<S, F: Fn(&Evaluator, &Vec<u8>) -> S, G: Fn(&S, &S) -> bool>(
    ctx: &OptContext,
    simple: bool,
    score: &F,
    accept: &G,
    list: Seq<(usize, usize, u64)>,
    groups: Seq<usize>,
    number: int,
    trail: Seq<Seq<u8>>,
    n: int,
)
    requires
        list.len() > 0,
        shaken(ctx, simple, score, accept, list, groups, number, trail),
        0 <= n < trail.len(),
        forall|i: int| 0 <= i < groups.len() ==> (#[trigger] groups[i]) < trail[0].len(),
    ensures
        trail[n].len() == trail[0].len(),
        forall|g: int|
            0 <= g < trail[0].len() && #[trigger] trail[n][g] != trail[0][g] ==> among_first(groups, n, g)
                && ctx.groups@[g].allowed_keys@.contains(trail[n][g]),
    decreases n,
{
    if n > 0 {
        shake_course(ctx, simple, score, accept, list, groups, number, trail, n - 1);
        let was = trail[n - 1];
        let h = groups[n - 1];
        nudge_told(ctx, simple, score, accept, was, trail[n], h as int);
        assert forall|g: int|
            0 <= g < trail[0].len() && #[trigger] trail[n][g] != trail[0][g] implies among_first(groups, n, g)
            && ctx.groups@[g].allowed_keys@.contains(trail[n][g]) by {
            if g == h {
                assert(groups[n - 1] == g);
                if was == trail[n] {
                    assert(was[g] != trail[0][g]);
                }
            } else {
                assert(was[g] == trail[n][g]);
                let i = choose|i: int| 0 <= i < n - 1 && i < groups.len() && #[trigger] groups[i] == g;
                assert(groups[i] == g);
            }
        }
    }
}

/// A shake of an assignment with collisions moves no groups but those of the ten heaviest collisions, no
/// more of them than it is asked to, and only to keys that they may be put on.
pub proof fn shakes_told<S, F: Fn(&Evaluator, &Vec<u8>) -> S, G: Fn(&S, &S) -> bool>(
    ctx: &OptContext,
    simple: bool,
    score: &F,
    accept: &G,
    list: Seq<(usize, usize, u64)>,
    groups: Seq<usize>,
    number: int,
    trail: Seq<Seq<u8>>,
)
    requires
        list.len() > 0,
        0 <= number,
        trail[0].len() == ctx.groups@.len(),
        forall|i: int|
            0 <= i < list.len() ==> (#[trigger] list[i]).0 < ctx.groups@.len() && list[i].1 < ctx.groups@.len(),
        shaken(ctx, simple, score, accept, list, groups, number, trail),
    ensures
        trail.last().len() == trail[0].len(),
        groups.no_duplicates(),
        forall|g: int|
            0 <= g < trail[0].len() && #[trigger] trail.last()[g] != trail[0][g] ==> {
                &&& among_first(groups, number, g)
                &&& exists|i: int|
                    #![trigger list[i]]
                    0 <= i < list.len() && i < 10 && (list[i].0 == g || list[i].1 == g)
                &&& ctx.groups@[g].allowed_keys@.contains(trail.last()[g])
            },
        forall|i: int|
            #![trigger list[i]]
            0 <= i < list.len() && i < 10 ==> groups.contains(list[i].0) && groups.contains(list[i].1),
        trail.len() == 1 + if groups.len() < number {
            groups.len() as int
        } else {
            number
        },
{
    assert forall|i: int| 0 <= i < groups.len() implies (#[trigger] groups[i]) < trail[0].len() by {
        assert(groups.contains(groups[i]));
        assert(in_heaviest(list, groups[i] as int));
    }
    shake_course(ctx, simple, score, accept, list, groups, number, trail, trail.len() - 1);
    assert forall|g: int| 0 <= g < trail[0].len() && #[trigger] trail.last()[g] != trail[0][g] implies {
        &&& among_first(groups, number, g)
        &&& exists|i: int|
            #![trigger list[i]]
            0 <= i < list.len() && i < 10 && (list[i].0 == g || list[i].1 == g)
        &&& ctx.groups@[g].allowed_keys@.contains(trail.last()[g])
    } by {
        assert(trail[trail.len() - 1][g] != trail[0][g]);
        let i = choose|i: int| 0 <= i < trail.len() - 1 && i < groups.len() && #[trigger] groups[i] == g;
        assert(groups.contains(groups[i]));
        assert(in_heaviest(list, g));
    }
    assert forall|i: int| #![trigger list[i]] 0 <= i < list.len() && i < 10 implies groups.contains(list[i].0)
        && groups.contains(list[i].1) by {
        assert(in_heaviest(list, list[i].0 as int));
        assert(in_heaviest(list, list[i].1 as int));
    }
}

/// A swap keeps how many groups are on each key.
proof fn swap_keeps_keys(ctx: &OptContext, a: Seq<u8>, b: Seq<u8>, g: int, h: int)
    requires
        two_swap(ctx, a, b, g, h),
    ensures
        b.to_multiset() == a.to_multiset(),
{
    broadcast use vstd::seq_lib::group_to_multiset_ensures;

    let mid = a.update(g, a[h]);
    assert(b =~= mid.update(h, a[g]));
    assert(mid[h] == a[h]);
    assert(a.to_multiset().contains(a[g])) by {
        assert(a.contains(a[g]));
    }
    assert(mid.to_multiset() =~= a.to_multiset().insert(a[h]).remove(a[g]));
    assert(b.to_multiset() =~= mid.to_multiset().insert(a[g]).remove(a[h]));
    assert(b.to_multiset() =~= a.to_multiset());
}

/// A shake of an assignment without collisions swaps keys only: as many groups as before are on each.
pub proof fn shakes_keep_keys<S, F: Fn(&Evaluator, &Vec<u8>) -> S, G: Fn(&S, &S) -> bool>(
    ctx: &OptContext,
    simple: bool,
    score: &F,
    accept: &G,
    groups: Seq<usize>,
    number: int,
    trail: Seq<Seq<u8>>,
    n: int,
)
    requires
        0 <= n < trail.len(),
        trail[0].len() == ctx.groups@.len(),
        shaken(ctx, simple, score, accept, Seq::empty(), groups, number, trail),
    ensures
        trail.len() == 1 + number,
        trail[n].len() == trail[0].len(),
        trail[n].to_multiset() == trail[0].to_multiset(),
        forall|i: int|
            0 <= i < n ==> trail[i] == #[trigger] trail[i + 1] || exists|g: int, h: int| #[trigger]
                two_swap(ctx, trail[i], trail[i + 1], g, h),
    decreases n,
{
    if n > 0 {
        shakes_keep_keys(ctx, simple, score, accept, groups, number, trail, n - 1);
        let (a, b) = (trail[n - 1], trail[n]);
        assert(jostled(ctx, simple, score, accept, trail[n - 1], trail[n - 1 + 1]));
        let (r1, r2, moved) = choose|r1: int, r2: int, moved: bool|
            {
                &&& 0 <= r1 < ctx.num_groups()
                &&& 0 <= r2 < ctx.num_groups()
                &&& #[trigger] jostled_by(ctx, simple, score, accept, a, b, r1, r2, moved)
            };
        if moved {
            swap_made(ctx, simple, score, accept, a, b, r1, r2);
            swap_keeps_keys(ctx, a, b, r1, r2);
        }
        assert forall|i: int| 0 <= i < n implies trail[i] == #[trigger] trail[i + 1] || exists|g: int, h: int|
            #[trigger] two_swap(ctx, trail[i], trail[i + 1], g, h) by {
            if i == n - 1 {
                assert(trail[i + 1] == b);
            }
        }
    }
}

/// A step later by less than an interval is not due again, and one later by the interval is. Nothing is
/// due at the first step of all.
pub proof fn intervals_told(plan: AnnealPlan, step: int, later: int)
    requires
        plan.wf(),
        0 < step < later,
    ensures
        !plan.shakes_at(0) && !plan.reconciles_at(0) && !plan.reports_at(0),
        plan.perturb_interval == 0 ==> !plan.shakes_at(step),
        plan.shakes_at(step) && later - step < plan.perturb_interval ==> !plan.shakes_at(later),
        plan.shakes_at(step) ==> plan.shakes_at(step + plan.perturb_interval),
        plan.perturb_interval > 0 ==> plan.shakes_at(plan.perturb_interval as int),
        plan.reconciles_at(step) && later - step < plan.reconcile_interval ==> !plan.reconciles_at(later),
        plan.reconciles_at(step) ==> plan.reconciles_at(step + plan.reconcile_interval),
        plan.reconciles_at(plan.reconcile_interval as int),
        plan.total_steps < 40 ==> plan.reports_at(step),
        plan.total_steps >= 20 && plan.reports_at(step) && later - step < plan.total_steps / 20
            ==> !plan.reports_at(later),
        plan.total_steps >= 20 && plan.reports_at(step) ==> plan.reports_at(step + plan.total_steps / 20),
        plan.total_steps >= 20 ==> plan.reports_at(plan.total_steps as int / 20),
{
    if plan.perturb_interval > 0 {
        every(step, later, plan.perturb_interval as int);
    }
    every(step, later, plan.reconcile_interval as int);
    if plan.total_steps >= 20 {
        every(step, later, plan.total_steps as int / 20);
    }
    assert(step % 1 == 0 && later % 1 == 0);
}

/// Multiples of a number are that number apart.
proof fn every(step: int, later: int, n: int)
    requires
        0 < n,
        0 < step < later,
    ensures
        step % n == 0 && later - step < n ==> later % n != 0,
        step % n == 0 ==> (step + n) % n == 0,
        n % n == 0,
{
    vstd::arithmetic::div_mod::lemma_mod_self_0(n);
    vstd::arithmetic::div_mod::lemma_mod_add_multiples_vanish(step, n);
    assert((n + step) % n == step % n);
    if step % n == 0 && later - step < n {
        vstd::arithmetic::div_mod::lemma_add_mod_noop(step, later - step, n);
        vstd::arithmetic::div_mod::lemma_small_mod((later - step) as nat, n as nat);
        assert(later % n == (0 + (later - step)) % n);
    }
}

/// What an operator on single groups finds is an assignment with one group, of the first that was drawn
/// and can be moved, on another key that it may be put on. The groups drawn before have one key or no
/// other key to go to.
pub proof fn found_moves_told<S, D: Copy, F: Fn(&Evaluator, &Vec<u8>) -> S, G: Fn(&S, &S) -> D>(
    ctx: &OptContext,
    simple: bool,
    score: &F,
    gap: &G,
    a: Seq<u8>,
    draws: Seq<PointDraw>,
    task_index: usize,
    d: D,
    found: OperatorResult<D>,
    wasted: u32,
)
    requires
        a.len() == ctx.groups@.len(),
        forall|i: int| 0 <= i < draws.len() ==> (#[trigger] draws[i]).fits(ctx, a, a.len() as int),
        point_looked(ctx, simple, score, gap, a, draws, task_index, (Some((d, found)), wasted)),
    ensures
        found.task() == task_index,
        found.delta() == d,
        wasted < draws.len(),
        one_moves(ctx, a, found.of(a), draws[wasted as int].group as int),
        forall|i: int, j: int|
            #![trigger draws[i], ctx.groups@[draws[i].group as int].allowed_keys@[j]]
            0 <= i < wasted && 0 <= j < ctx.groups@[draws[i].group as int].allowed_keys@.len()
                && ctx.groups@[draws[i].group as int].allowed_keys@.len() > 1
                ==> ctx.groups@[draws[i].group as int].allowed_keys@[j] == a[draws[i].group as int],
{
    let draw = draws[wasted as int];
    let g = draw.group as int;
    without_in(ctx.choices(g), a[g], draw.pick as int);
    assert forall|i: int, j: int|
        #![trigger draws[i], ctx.groups@[draws[i].group as int].allowed_keys@[j]]
        0 <= i < wasted && 0 <= j < ctx.groups@[draws[i].group as int].allowed_keys@.len()
            && ctx.groups@[draws[i].group as int].allowed_keys@.len() > 1 implies ctx.groups@[draws[i].group as int].allowed_keys@[j]
        == a[draws[i].group as int] by {
        let h = draws[i].group as int;
        none_without(ctx.choices(h), a[h], j);
        assert(others(ctx, a, h).len() == 0);
    }
}

/// Where leaving out a key leaves nothing, there is no other.
pub(crate) proof fn none_without(keys: Seq<u8>, k: u8, j: int)
    requires
        0 <= j < keys.len(),
        crate::neighbours::without(keys, k).len() == 0,
    ensures
        keys[j] == k,
    decreases keys.len(),
{
    reveal(Seq::filter);
    let front = keys.drop_last();
    assert(crate::neighbours::without(front, k).len() <= crate::neighbours::without(keys, k).len());
    if j < front.len() {
        none_without(front, k, j);
    }
}

/// What an operator on pairs finds is an assignment with the keys of two groups swapped, of the first pair
/// that was drawn and can be swapped. The pairs drawn before are on one key, or one may not be put on the
/// key of the other.
pub proof fn found_swaps_told<S, D: Copy, F: Fn(&Evaluator, &Vec<u8>) -> S, G: Fn(&S, &S) -> D>(
    ctx: &OptContext,
    simple: bool,
    score: &F,
    gap: &G,
    a: Seq<u8>,
    draws: Seq<SwapDraw>,
    task_index: usize,
    d: D,
    found: OperatorResult<D>,
    wasted: u32,
)
    requires
        a.len() == ctx.groups@.len(),
        forall|i: int| 0 <= i < draws.len() ==> (#[trigger] draws[i]).fits(a.len() as int),
        swap_looked(ctx, simple, score, gap, a, draws, task_index, (Some((d, found)), wasted)),
    ensures
        found.task() == task_index,
        found.delta() == d,
        wasted < draws.len(),
        two_swap(ctx, a, found.of(a), draws[wasted as int].r1 as int, draws[wasted as int].r2 as int),
        forall|i: int|
            #![trigger draws[i]]
            0 <= i < wasted ==> {
                let (g, h) = (draws[i].r1 as int, draws[i].r2 as int);
                a[g] == a[h] || !ctx.groups@[g].allowed_keys@.contains(a[h])
                    || !ctx.groups@[h].allowed_keys@.contains(a[g])
            },
{
    let draw = draws[wasted as int];
    swap_told(a, draw.r1 as int, draw.r2 as int);
}

/// The run looks whether it is to stop at every ten thousandth step, and writes a checkpoint at every
/// multiple of the interval, if it writes any; neither at the step that it began with.
pub proof fn due_told(run: &Annealer, plan: &AnnealPlan, r: Due, m: int)
    requires
        plan.wf(),
        run.start_step <= run.step,
        call_ensures(Annealer::due, (run, plan), r),
    ensures
        run.step == run.start_step ==> !r.stop_check && !r.checkpoint,
        run.step > run.start_step && run.step == m * 10_000 ==> r.stop_check,
        m * 10_000 < run.step < (m + 1) * 10_000 ==> !r.stop_check,
        run.step > run.start_step && run.step == m * plan.checkpoint_interval ==> r.checkpoint
            == plan.writes_checkpoints,
        m * plan.checkpoint_interval < run.step < (m + 1) * plan.checkpoint_interval ==> !r.checkpoint,
        r.checkpoint ==> plan.writes_checkpoints,
{
    multiples(run.step as int, m, 10_000);
    multiples(run.step as int, m, plan.checkpoint_interval as int);
}

/// Multiples of a number leave no remainder, and what lies between them does.
proof fn multiples(x: int, m: int, n: int)
    requires
        0 <= x,
        0 < n,
    ensures
        x == m * n ==> x % n == 0,
        m * n < x < (m + 1) * n ==> x % n != 0,
{
    if x == m * n {
        vstd::arithmetic::div_mod::lemma_mod_multiples_basic(m, n);
    }
    if m * n < x < (m + 1) * n && x % n == 0 {
        vstd::arithmetic::div_mod::lemma_fundamental_div_mod(x, n);
        let q = x / n;
        assert(false) by (nonlinear_arith)
            requires
                x == n * q,
                m * n < x,
                x < (m + 1) * n,
                0 < n,
        ;
    }
}

/// A run is heated up after the step that makes the steps without improvement more than it is to wait for,
/// and collisions are looked for again after as many steps as are set, and not before; never if none are.
pub proof fn waiting_told(plan: AnnealPlan, steps: usize)
    ensures
        steps < usize::MAX ==> counted(steps) == steps + 1,
        counted(usize::MAX) == usize::MAX,
        steps < usize::MAX ==> (plan.reheats_after(steps) <==> steps + 1 > plan.min_improve_steps),
        plan.min_improve_steps < usize::MAX ==> plan.reheats_after(plan.min_improve_steps),
        plan.conflict_refresh == 0 ==> !plan.refreshes_after(steps),
        plan.conflict_refresh > 0 ==> plan.refreshes_after(plan.conflict_refresh),
        plan.refreshes_after(steps) ==> steps >= plan.conflict_refresh,
        forall|more: usize| steps <= more && plan.refreshes_after(steps) ==> #[trigger] plan.refreshes_after(more),
{
}

/// Building anew on demand is counted once each time, as far as the type goes.
pub proof fn rebuilds_counted(n: u64)
    ensures
        n < u64::MAX ==> one_more(n) == n + 1,
        one_more(u64::MAX) == u64::MAX,
{
}

/// What is due as a step ends is what the intervals say; nothing is built anew before simple codes are on.
pub proof fn due_after_told(run: &Annealer, plan: &AnnealPlan, r: DueAfter)
    requires
        plan.wf(),
        call_ensures(Annealer::due_after, (run, plan), r),
    ensures
        run.step == 0 ==> !r.perturb && !r.report && !r.reconcile,
        !run.simple_activated ==> !r.reconcile,
        r.perturb <==> plan.shakes_at(run.step as int),
        r.report <==> plan.reports_at(run.step as int),
        r.reconcile <==> run.simple_activated && plan.reconciles_at(run.step as int),
{
}

/// Simple codes are on from now on if they were, or if it is time, or by force, and for no other reason.
pub proof fn latch_told(on: bool, reached: bool, force: bool, r: bool)
    requires
        call_ensures(latch_activation, (on, reached, force), r),
    ensures
        on ==> r,
        reached ==> r,
        force ==> r,
        r ==> on || reached || force,
{
}

/// An operator gives up after sixteen groups, none of which can be moved, and not before.
pub proof fn exploring_told<S, D: Copy, F: Fn(&Evaluator, &Vec<u8>) -> S, G: Fn(&S, &S) -> D>(
    ctx: &OptContext,
    simple: bool,
    score: &F,
    gap: &G,
    a: Seq<u8>,
    n: int,
    task_index: usize,
    r: (Option<(D, OperatorResult<D>)>, u32),
)
    requires
        point_explored(ctx, simple, score, gap, a, n, task_index, r),
    ensures
        r.0 is None ==> r.1 == 16,
        r.0 is Some ==> r.1 < 16,
{
}

/// An operator on pairs gives up after sixteen pairs, none of which can be swapped, and not before.
pub proof fn pair_exploring_told<S, D: Copy, F: Fn(&Evaluator, &Vec<u8>) -> S, G: Fn(&S, &S) -> D>(
    ctx: &OptContext,
    simple: bool,
    score: &F,
    gap: &G,
    a: Seq<u8>,
    n: int,
    task_index: usize,
    r: (Option<(D, OperatorResult<D>)>, u32),
)
    requires
        swap_explored(ctx, simple, score, gap, a, n, task_index, r),
    ensures
        r.0 is None ==> r.1 == 16,
        r.0 is Some ==> r.1 < 16,
{
}

/// What is left of the best assignment in the end is that assignment, or one that ranks lower. Where there
/// are no more than five hundred groups, a lower one than where no group alone can do better was not
/// passed over.
pub proof fn refining_told<
    S,
    F: Fn(&Evaluator, &Vec<u8>) -> S,
    G: Fn(&S, &S) -> bool,
    H: Fn(&S, &S) -> bool,
    B: Fn(&S, &S) -> bool,
>(
    ctx: &OptContext,
    score: &F,
    accept: &G,
    lower: &H,
    better: &B,
    was: (Seq<u8>, S),
    now: (Seq<u8>, S),
    rank: spec_fn(Seq<u8>) -> int,
    value: spec_fn(S) -> int,
)
    requires
        refined(ctx, score, accept, lower, better, was, now),
        value(was.1) == rank(was.0),
        forall|b: Seq<u8>, s: S| #[trigger] scored(ctx, has_simple(ctx), score, b, s) ==> value(s) == rank(b),
        forall|s: S, u: S| #[trigger] call_ensures(lower, (&s, &u), true) ==> value(u) < value(s),
        forall|s: S, u: S| #[trigger] call_ensures(lower, (&s, &u), false) ==> value(u) >= value(s),
    ensures
        value(now.1) == rank(now.0),
        now == was || rank(now.0) < rank(was.0),
        ctx.groups@.len() <= 500 ==> exists|b: Seq<u8>|
            rank(now.0) <= #[trigger] rank(b) && forall|g: int|
                0 <= g < ctx.groups@.len() ==> #[trigger] settled_at(ctx, has_simple(ctx), score, better, b, g),
{
    let (a, mid) = choose|a: Seq<u8>, mid: (Seq<u8>, S)|
        {
            &&& climb_ends(
                ctx,
                has_simple(ctx),
                score,
                accept,
                was.0,
                final_steps(ctx.num_groups() as int),
                a,
            )
            &&& #[trigger] kept_lower(ctx, has_simple(ctx), score, lower, was, a, mid)
            &&& if ctx.num_groups() <= crate::multistart::POLISH_LIMIT {
                descent_held(ctx, score, lower, better, mid, now)
            } else {
                now == mid
            }
        };
    if ctx.groups@.len() <= 500 {
        let b = choose|b: Seq<u8>|
            {
                &&& descends(ctx, has_simple(ctx), score, better, mid.0, b)
                &&& forall|g: int|
                    0 <= g < ctx.num_groups() ==> #[trigger] settled_at(ctx, has_simple(ctx), score, better, b, g)
                &&& #[trigger] kept_lower(ctx, has_simple(ctx), score, lower, mid, b, now)
            };
        assert(rank(now.0) <= rank(b));
    }
}

} // verus!
