//! What a climb and a descent do step by step, when they end, and what they leave behind.

use vstd::prelude::*;

use crate::climb::{climb_ends, draw_went, idle, step_went, Course, StepDraw};
use crate::context::OptContext;
use crate::descent::{best_of, descends, is_descent, is_round, kept_better, round_leads, settles, sifted};
use crate::evaluator::Evaluator;
use crate::moves::{judged, scored};
use crate::multistart::{polished, starts_for, Trials};
use crate::neighbours::{held, in_turn, offered, others, resolved, without_in};
use crate::run_laws::{none_without, two_swap};
use crate::search_laws::{best_trial_is_lowest, idle_told, one_moves, rotation_told, swap_told};

verus! {

/// Whether one assignment becomes another when three groups pass their keys on, to where each may be put.
pub open spec fn three_pass_on(ctx: &OptContext, a: Seq<u8>, b: Seq<u8>, g1: int, g2: int, g3: int) -> bool {
    &&& 0 <= g1 < a.len()
    &&& 0 <= g2 < a.len()
    &&& 0 <= g3 < a.len()
    &&& g1 != g2
    &&& g2 != g3
    &&& g1 != g3
    &&& b.len() == a.len()
    &&& b[g1] == a[g2]
    &&& b[g2] == a[g3]
    &&& b[g3] == a[g1]
    &&& ctx.groups@[g1].allowed_keys@.contains(b[g1])
    &&& ctx.groups@[g2].allowed_keys@.contains(b[g2])
    &&& ctx.groups@[g3].allowed_keys@.contains(b[g3])
    &&& forall|h: int| 0 <= h < a.len() && h != g1 && h != g2 && h != g3 ==> #[trigger] b[h] == a[h]
}

/// A group that took a key it was offered is on another one that it may be put on.
proof fn offer_taken<S, F: Fn(&Evaluator, &Vec<u8>) -> S, G: Fn(&S, &S) -> bool>(
    ctx: &OptContext,
    simple: bool,
    score: &F,
    accept: &G,
    a: Seq<u8>,
    b: Seq<u8>,
    g: int,
    pick: int,
)
    requires
        0 <= g < a.len(),
        crate::neighbours::picks_among(ctx, a, g, pick),
        offered(ctx, simple, score, accept, a, b, g, pick, true),
    ensures
        one_moves(ctx, a, b, g),
        judged(ctx, simple, score, accept, a, b, true),
{
    without_in(ctx.choices(g), a[g], pick);
}

/// Whether a group stays on its key: it may be put on no other, or one that it may be put on was refused.
pub open spec fn stays<S, F: Fn(&Evaluator, &Vec<u8>) -> S, G: Fn(&S, &S) -> bool>(
    ctx: &OptContext,
    simple: bool,
    score: &F,
    accept: &G,
    a: Seq<u8>,
    g: int,
) -> bool {
    ||| forall|i: int|
        0 <= i < ctx.groups@[g].allowed_keys@.len() ==> #[trigger] ctx.groups@[g].allowed_keys@[i] == a[g]
    ||| exists|k: u8| #[trigger]
        ctx.groups@[g].allowed_keys@.contains(k) && k != a[g] && judged(
            ctx,
            simple,
            score,
            accept,
            a,
            a.update(g, k),
            false,
        )
}

/// A group that is held stays, and one that has to stay is held.
proof fn held_told<S, F: Fn(&Evaluator, &Vec<u8>) -> S, G: Fn(&S, &S) -> bool>(
    ctx: &OptContext,
    simple: bool,
    score: &F,
    accept: &G,
    a: Seq<u8>,
    g: int,
)
    ensures
        held(ctx, simple, score, accept, a, g) ==> stays(ctx, simple, score, accept, a, g),
        (forall|i: int|
            0 <= i < ctx.groups@[g].allowed_keys@.len() ==> #[trigger] ctx.groups@[g].allowed_keys@[i] == a[g])
            ==> held(ctx, simple, score, accept, a, g),
{
    let list = ctx.choices(g);
    if others(ctx, a, g).len() == 0 {
        assert forall|i: int| 0 <= i < list.len() implies #[trigger] ctx.groups@[g].allowed_keys@[i] == a[g] by {
            none_without(list, a[g], i);
        }
    } else {
        without_in(list, a[g], 0);
        let x = list.index_of(others(ctx, a, g)[0]);
        assert(ctx.groups@[g].allowed_keys@[x] != a[g]);
        if held(ctx, simple, score, accept, a, g) {
            let i = choose|i: int|
                {
                    &&& 0 <= i < others(ctx, a, g).len()
                    &&& judged(ctx, simple, score, accept, a, a.update(g, #[trigger] others(ctx, a, g)[i]), false)
                };
            without_in(list, a[g], i);
        }
    }
}

/// A group that refused a key it was offered stays.
proof fn offer_refused<S, F: Fn(&Evaluator, &Vec<u8>) -> S, G: Fn(&S, &S) -> bool>(
    ctx: &OptContext,
    simple: bool,
    score: &F,
    accept: &G,
    a: Seq<u8>,
    b: Seq<u8>,
    g: int,
    pick: int,
)
    requires
        crate::neighbours::picks_among(ctx, a, g, pick),
        offered(ctx, simple, score, accept, a, b, g, pick, false),
    ensures
        stays(ctx, simple, score, accept, a, g),
        b == a,
{
    held_told(ctx, simple, score, accept, a, g);
    if others(ctx, a, g).len() > 0 {
        let k = others(ctx, a, g)[pick];
        assert(judged(ctx, simple, score, accept, a, a.update(g, others(ctx, a, g)[pick]), false));
        assert(held(ctx, simple, score, accept, a, g));
    }
}

/// A collision that was taken on and not resolved is one of the first of the list, and both of its groups
/// stay.
pub proof fn unresolved_told<S, F: Fn(&Evaluator, &Vec<u8>) -> S, G: Fn(&S, &S) -> bool>(
    ctx: &OptContext,
    simple: bool,
    score: &F,
    accept: &G,
    collisions: Seq<(usize, usize, u64)>,
    window: int,
    a: Seq<u8>,
    b: Seq<u8>,
)
    requires
        resolved(ctx, simple, score, accept, collisions, window, a, b, false),
    ensures
        exists|i: int|
            #![trigger collisions[i]]
            0 <= i < collisions.len() && i < window && stays(
                ctx,
                simple,
                score,
                accept,
                a,
                collisions[i].0 as int,
            ) && stays(ctx, simple, score, accept, a, collisions[i].1 as int),
{
    let (i, flip) = choose|i: int, flip: bool|
        {
            &&& 0 <= i < collisions.len() && i < window
            &&& {
                let (first, second) = #[trigger] in_turn(collisions[i], flip);
                &&& held(ctx, simple, score, accept, a, first as int)
                &&& held(ctx, simple, score, accept, a, second as int)
            }
        };
    let x = collisions[i];
    held_told(ctx, simple, score, accept, a, x.0 as int);
    held_told(ctx, simple, score, accept, a, x.1 as int);
}

/// A step of a climb that takes on a collision and does not move has tried both of its groups, and each
/// stays.
pub proof fn climb_stands_told<S, F: Fn(&Evaluator, &Vec<u8>) -> S, G: Fn(&S, &S) -> bool>(
    ctx: &OptContext,
    simple: bool,
    score: &F,
    accept: &G,
    collisions: Seq<(usize, usize, u64)>,
    step: int,
    a: Seq<u8>,
    b: Seq<u8>,
)
    requires
        0 <= step,
        step % 10 < 4,
        collisions.len() > 0,
        step_went(ctx, simple, score, accept, collisions, step, a, b, false),
    ensures
        exists|i: int|
            #![trigger collisions[i]]
            0 <= i < collisions.len() && i < 20 && stays(
                ctx,
                simple,
                score,
                accept,
                a,
                collisions[i].0 as int,
            ) && stays(ctx, simple, score, accept, a, collisions[i].1 as int),
{
    reveal(step_went);
    let draw = choose|draw: StepDraw|
        {
            &&& draw.fits(ctx, a)
            &&& draw.is_for(ctx, collisions, step)
            &&& #[trigger] draw_went(ctx, simple, score, accept, draw, a, b, false)
        };
    let pair = draw->pair;
    let (i, flip) = choose|i: int, flip: bool|
        0 <= i < collisions.len() && i < crate::climb::CLIMB_WINDOW && #[trigger] in_turn(collisions[i], flip) == (
            pair.first,
            pair.second,
        );
    let x = collisions[i];
    offer_refused(ctx, simple, score, accept, a, a, pair.first as int, pair.pick_first as int);
    offer_refused(ctx, simple, score, accept, a, b, pair.second as int, pair.pick_second as int);
}

/// A step of a climb that moves does so in the way of its number. Of ten steps, the first four move one
/// group of one of the twenty heaviest collisions, three swap two groups, one passes the keys of three on,
/// and the last two move one group; always to keys that the groups may be put on, and always with consent.
/// A step that does not move changes nothing.
pub proof fn climb_step_told<S, F: Fn(&Evaluator, &Vec<u8>) -> S, G: Fn(&S, &S) -> bool>(
    ctx: &OptContext,
    simple: bool,
    score: &F,
    accept: &G,
    collisions: Seq<(usize, usize, u64)>,
    step: int,
    a: Seq<u8>,
    b: Seq<u8>,
    moved: bool,
)
    requires
        a.len() == ctx.groups@.len(),
        0 <= step,
        step_went(ctx, simple, score, accept, collisions, step, a, b, moved),
    ensures
        !moved ==> b == a,
        moved ==> a != b && b.len() == a.len() && judged(ctx, simple, score, accept, a, b, true),
        moved && step % 10 < 4 ==> exists|i: int|
            #![trigger collisions[i]]
            0 <= i < collisions.len() && i < 20 && (one_moves(ctx, a, b, collisions[i].0 as int) || one_moves(
                ctx,
                a,
                b,
                collisions[i].1 as int,
            )),
        moved && 4 <= step % 10 < 7 ==> exists|g: int, h: int| #[trigger] two_swap(ctx, a, b, g, h),
        moved && step % 10 == 7 ==> exists|g1: int, g2: int, g3: int| #[trigger]
            three_pass_on(ctx, a, b, g1, g2, g3),
        moved && step % 10 > 7 ==> exists|g: int| 0 <= g < a.len() && #[trigger] one_moves(ctx, a, b, g),
{
    reveal(step_went);
    let draw = choose|draw: StepDraw|
        {
            &&& draw.fits(ctx, a)
            &&& draw.is_for(ctx, collisions, step)
            &&& #[trigger] draw_went(ctx, simple, score, accept, draw, a, b, moved)
        };
    if moved {
        match draw {
            StepDraw::Nothing => {},
            StepDraw::Collision { pair } => {
                let (i, flip) = choose|i: int, flip: bool|
                    0 <= i < collisions.len() && i < crate::climb::CLIMB_WINDOW && #[trigger] in_turn(
                        collisions[i],
                        flip,
                    ) == (pair.first, pair.second);
                let x = collisions[i];
                if offered(
                    ctx,
                    simple,
                    score,
                    accept,
                    a,
                    b,
                    pair.first as int,
                    pair.pick_first as int,
                    true,
                ) {
                    offer_taken(ctx, simple, score, accept, a, b, pair.first as int, pair.pick_first as int);
                } else {
                    offer_taken(ctx, simple, score, accept, a, b, pair.second as int, pair.pick_second as int);
                }
            },
            StepDraw::Swap { r1, r2 } => {
                swap_told(a, r1 as int, r2 as int);
                assert(two_swap(ctx, a, b, r1 as int, r2 as int));
                assert(b[r1 as int] != a[r1 as int]);
            },
            StepDraw::Rotation { g1, g2, g3 } => {
                rotation_told(a, g1 as int, g2 as int, g3 as int);
                assert(three_pass_on(ctx, a, b, g1 as int, g2 as int, g3 as int));
            },
            StepDraw::Off { g, pick } => {
                offer_taken(ctx, simple, score, accept, a, b, g as int, pick as int);
            },
            StepDraw::Move { g, pick } => {
                let k = ctx.choices(g as int)[pick as int];
                assert(ctx.choices(g as int).contains(k));
                assert(one_moves(ctx, a, b, g as int));
            },
        }
    }
}

/// Whether the last `n` of a number of steps have not moved.
pub open spec fn rests(moved: Seq<bool>, len: int, n: int) -> bool {
    &&& n <= len
    &&& forall|i: int| len - n <= i < len ==> !#[trigger] moved[i]
}

/// A climb ends as soon as more than ten steps for each group in a row have not moved, or when its steps
/// are used up, and not before. Each step begins where the one before ended. The collisions that it goes
/// by are those it began with, until a step moves at a multiple of two hundred steps: then they are those
/// of the assignment at hand.
pub proof fn climb_end_told<S, F: Fn(&Evaluator, &Vec<u8>) -> S, G: Fn(&S, &S) -> bool>(
    ctx: &OptContext,
    simple: bool,
    score: &F,
    accept: &G,
    from: Seq<u8>,
    max_steps: int,
    to: Seq<u8>,
)
    requires
        ctx.groups@.len() > 0,
        climb_ends(ctx, simple, score, accept, from, max_steps, to),
    ensures
        exists|c: Course|
            {
                let n = c.moved.len() as int;
                let patience = 10 * ctx.groups@.len() as int + 1;
                &&& #[trigger] c.runs(ctx, simple, score, accept, from)
                &&& c.trail[0] == from
                &&& c.trail[n] == to
                &&& n <= max_steps
                &&& n < max_steps ==> rests(c.moved, n, patience)
                &&& forall|i: int| 0 <= i < n ==> !#[trigger] rests(c.moved, i, patience)
                &&& crate::conflicts::lists_collisions(ctx, ctx.full_codes(from), false, c.lists[0])
                &&& forall|i: int|
                    #![trigger c.moved[i]]
                    0 <= i < n ==> {
                        &&& step_went(
                            ctx,
                            simple,
                            score,
                            accept,
                            c.lists[i],
                            i,
                            c.trail[i],
                            c.trail[i + 1],
                            c.moved[i],
                        )
                        &&& c.moved[i] && i % 200 == 0 ==> crate::conflicts::lists_collisions(
                            ctx,
                            ctx.full_codes(c.trail[i + 1]),
                            false,
                            c.lists[i + 1],
                        )
                        &&& !(c.moved[i] && i % 200 == 0) ==> c.lists[i + 1] == c.lists[i]
                    }
            },
{
    let c = choose|c: Course|
        {
            &&& #[trigger] c.runs(ctx, simple, score, accept, from)
            &&& c.moved.len() <= max_steps
            &&& c.moved.len() == max_steps || idle(c.moved) > ctx.num_groups() * 10
            &&& c.trail[c.moved.len() as int] == to
        };
    let n = c.moved.len() as int;
    let patience = 10 * ctx.groups@.len() as int + 1;
    idle_told(c.moved);
    if n < max_steps {
        assert forall|i: int| n - patience <= i < n implies !#[trigger] c.moved[i] by {}
        assert(rests(c.moved, n, patience));
    }
    assert forall|i: int| 0 <= i < n implies !#[trigger] rests(c.moved, i, patience) by {
        let x = c.moved[i];
        let part = c.moved.take(i);
        idle_told(part);
        if rests(c.moved, i, patience) {
            let j = i - idle(part) - 1;
            assert(part[j] == c.moved[j]);
        }
    }
    assert(c.runs(ctx, simple, score, accept, from));
}

/// What is left of the first keys of a group ranks no higher than any of them and the one it is on, and is
/// another key only where that ranks lower.
proof fn sifting_told<S, F: Fn(&Evaluator, &Vec<u8>) -> S, G: Fn(&S, &S) -> bool>(
    ctx: &OptContext,
    simple: bool,
    score: &F,
    better: &G,
    a: Seq<u8>,
    g: int,
    j: int,
    k: u8,
    s: S,
    rank: spec_fn(Seq<u8>) -> int,
    value: spec_fn(S) -> int,
)
    requires
        0 <= g < a.len(),
        0 <= j <= ctx.choices(g).len(),
        sifted(ctx, simple, score, better, a, g, j, k, s),
        forall|b: Seq<u8>, t: S| #[trigger] scored(ctx, simple, score, b, t) ==> value(t) == rank(b),
        forall|t: S, u: S| #[trigger] call_ensures(better, (&t, &u), true) ==> value(u) < value(t),
        forall|t: S, u: S| #[trigger] call_ensures(better, (&t, &u), false) ==> value(u) >= value(t),
    ensures
        value(s) == rank(a.update(g, k)),
        value(s) <= rank(a),
        k != a[g] ==> value(s) < rank(a) && ctx.choices(g).contains(k),
        forall|i: int| #![trigger ctx.choices(g)[i]] 0 <= i < j ==> value(s) <= rank(a.update(g, ctx.choices(g)[i])),
    decreases j,
{
    assert(a.update(g, a[g]) =~= a);
    if j > 0 {
        let c = ctx.choices(g)[j - 1];
        if c == a[g] {
            sifting_told(ctx, simple, score, better, a, g, j - 1, k, s, rank, value);
        } else {
            let (k0, s0) = choose|k0: u8, s0: S|
                {
                    &&& sifted(ctx, simple, score, better, a, g, j - 1, k0, s0)
                    &&& #[trigger] kept_better(ctx, simple, score, better, a.update(g, c), c, k0, s0, k, s)
                };
            sifting_told(ctx, simple, score, better, a, g, j - 1, k0, s0, rank, value);
            assert(ctx.choices(g).contains(c));
        }
    }
}

/// A group that settles goes to the best of its keys: no other ranks lower, and it leaves its key only for
/// one that does. No other group moves.
pub proof fn settling_told<S, F: Fn(&Evaluator, &Vec<u8>) -> S, G: Fn(&S, &S) -> bool>(
    ctx: &OptContext,
    simple: bool,
    score: &F,
    better: &G,
    a: Seq<u8>,
    g: int,
    b: Seq<u8>,
    rank: spec_fn(Seq<u8>) -> int,
    value: spec_fn(S) -> int,
)
    requires
        0 <= g < a.len(),
        settles(ctx, simple, score, better, a, g, b),
        forall|b: Seq<u8>, t: S| #[trigger] scored(ctx, simple, score, b, t) ==> value(t) == rank(b),
        forall|t: S, u: S| #[trigger] call_ensures(better, (&t, &u), true) ==> value(u) < value(t),
        forall|t: S, u: S| #[trigger] call_ensures(better, (&t, &u), false) ==> value(u) >= value(t),
    ensures
        b == a || (one_moves(ctx, a, b, g) && rank(b) < rank(a)),
        b.len() == a.len(),
        rank(b) <= rank(a),
        forall|k: u8| #[trigger] ctx.groups@[g].allowed_keys@.contains(k) ==> rank(b) <= rank(a.update(g, k)),
{
    let (k, s) = choose|k: u8, s: S| #[trigger]
        best_of(ctx, simple, score, better, a, g, k, s) && b == a.update(g, k);
    let list = ctx.choices(g);
    sifting_told(ctx, simple, score, better, a, g, list.len() as int, k, s, rank, value);
    if k == a[g] {
        assert(b =~= a);
    }
    assert forall|c: u8| #[trigger] ctx.groups@[g].allowed_keys@.contains(c) implies rank(b) <= rank(
        a.update(g, c),
    ) by {
        let i = list.index_of(c);
        assert(ctx.choices(g)[i] == c);
    }
}

/// A round of a descent leads no higher, and lower if it changes anything.
proof fn round_told<S, F: Fn(&Evaluator, &Vec<u8>) -> S, G: Fn(&S, &S) -> bool>(
    ctx: &OptContext,
    simple: bool,
    score: &F,
    better: &G,
    trail: Seq<Seq<u8>>,
    n: int,
    rank: spec_fn(Seq<u8>) -> int,
    value: spec_fn(S) -> int,
)
    requires
        is_round(ctx, simple, score, better, trail),
        trail[0].len() == ctx.groups@.len(),
        0 <= n < trail.len(),
        forall|b: Seq<u8>, t: S| #[trigger] scored(ctx, simple, score, b, t) ==> value(t) == rank(b),
        forall|t: S, u: S| #[trigger] call_ensures(better, (&t, &u), true) ==> value(u) < value(t),
        forall|t: S, u: S| #[trigger] call_ensures(better, (&t, &u), false) ==> value(u) >= value(t),
    ensures
        trail[n].len() == trail[0].len(),
        trail[n] == trail[0] || rank(trail[n]) < rank(trail[0]),
    decreases n,
{
    if n > 0 {
        round_told(ctx, simple, score, better, trail, n - 1, rank, value);
        assert(settles(ctx, simple, score, better, trail[n - 1], n - 1, trail[n - 1 + 1]));
        settling_told(ctx, simple, score, better, trail[n - 1], n - 1, trail[n], rank, value);
    }
}

/// A descent never ends above where it began, and ends elsewhere only below.
pub proof fn descents_told<S, F: Fn(&Evaluator, &Vec<u8>) -> S, G: Fn(&S, &S) -> bool>(
    ctx: &OptContext,
    simple: bool,
    score: &F,
    better: &G,
    from: Seq<u8>,
    to: Seq<u8>,
    rank: spec_fn(Seq<u8>) -> int,
    value: spec_fn(S) -> int,
)
    requires
        from.len() == ctx.groups@.len(),
        descends(ctx, simple, score, better, from, to),
        forall|b: Seq<u8>, t: S| #[trigger] scored(ctx, simple, score, b, t) ==> value(t) == rank(b),
        forall|t: S, u: S| #[trigger] call_ensures(better, (&t, &u), true) ==> value(u) < value(t),
        forall|t: S, u: S| #[trigger] call_ensures(better, (&t, &u), false) ==> value(u) >= value(t),
    ensures
        to == from || rank(to) < rank(from),
        to.len() == from.len(),
{
    let rounds = choose|rounds: Seq<Seq<u8>>| #[trigger]
        is_descent(ctx, simple, score, better, rounds) && rounds[0] == from && rounds.last() == to;
    rounds_told(ctx, simple, score, better, rounds, rounds.len() - 1, rank, value);
}

/// The first rounds of a descent lead no higher.
proof fn rounds_told<S, F: Fn(&Evaluator, &Vec<u8>) -> S, G: Fn(&S, &S) -> bool>(
    ctx: &OptContext,
    simple: bool,
    score: &F,
    better: &G,
    rounds: Seq<Seq<u8>>,
    n: int,
    rank: spec_fn(Seq<u8>) -> int,
    value: spec_fn(S) -> int,
)
    requires
        is_descent(ctx, simple, score, better, rounds),
        rounds[0].len() == ctx.groups@.len(),
        0 <= n < rounds.len(),
        forall|b: Seq<u8>, t: S| #[trigger] scored(ctx, simple, score, b, t) ==> value(t) == rank(b),
        forall|t: S, u: S| #[trigger] call_ensures(better, (&t, &u), true) ==> value(u) < value(t),
        forall|t: S, u: S| #[trigger] call_ensures(better, (&t, &u), false) ==> value(u) >= value(t),
    ensures
        rounds[n].len() == rounds[0].len(),
        rounds[n] == rounds[0] || rank(rounds[n]) < rank(rounds[0]),
    decreases n,
{
    if n > 0 {
        rounds_told(ctx, simple, score, better, rounds, n - 1, rank, value);
        let (a, b) = (rounds[n - 1], rounds[n]);
        assert(round_leads(ctx, simple, score, better, rounds[n - 1], rounds[n - 1 + 1]));
        let trail = choose|trail: Seq<Seq<u8>>| #[trigger]
            is_round(ctx, simple, score, better, trail) && trail[0] == a && trail.last() == b;
        round_told(ctx, simple, score, better, trail, trail.len() - 1, rank, value);
    }
}

/// The start of a run ranks no higher than what any of the trials ended with. It is the end of the best
/// trial where there are more than five hundred groups, and no group alone can do better where there are
/// not, unless the best trial's end ranks no higher.
pub proof fn starts_are_lowest<
    S,
    F: Fn(&Evaluator, &Vec<u8>) -> S,
    G: Fn(&S, &S) -> bool,
    H: Fn(&S, &S) -> bool,
    K: Fn() -> Vec<u8>,
    B: Fn(&S, &S) -> bool,
>(
    ctx: &OptContext,
    allowed: Seq<char>,
    frequent: &K,
    score: &F,
    accept: &G,
    lower: &H,
    better: &B,
    t: Trials<S>,
    r: Seq<u8>,
    rank: spec_fn(Seq<u8>) -> int,
    value: spec_fn(S) -> int,
)
    requires
        t.went(ctx, allowed, frequent, score, accept, lower, starts_for(ctx.groups@.len() as int)),
        polished(ctx, false, score, lower, better, t.ends[t.best.last()], r),
        forall|b: Seq<u8>, s: S| #[trigger] scored(ctx, false, score, b, s) ==> value(s) == rank(b),
        forall|s: S, u: S| #[trigger] call_ensures(lower, (&s, &u), true) ==> value(u) < value(s),
        forall|s: S, u: S| #[trigger] call_ensures(lower, (&s, &u), false) ==> value(u) >= value(s),
    ensures
        t.ends.len() == if ctx.groups@.len() < 1000 {
            50int
        } else {
            30
        },
        forall|i: int| 0 <= i < t.ends.len() ==> rank(r) <= rank(#[trigger] t.ends[i]),
        ctx.groups@.len() > 500 ==> r == t.ends[t.best.last()],
        ctx.groups@.len() <= 500 ==> exists|p: Seq<u8>|
            rank(r) <= #[trigger] rank(p) && forall|g: int|
                0 <= g < ctx.groups@.len() ==> #[trigger] crate::descent::settled_at(
                    ctx,
                    false,
                    score,
                    better,
                    p,
                    g,
                ),
        ctx.groups@.len() <= 500 && r != t.ends[t.best.last()] ==> rank(r) < rank(t.ends[t.best.last()])
            && forall|g: int|
            0 <= g < ctx.groups@.len() ==> #[trigger] crate::descent::settled_at(
                ctx,
                false,
                score,
                better,
                r,
                g,
            ),
{
    let n = starts_for(ctx.groups@.len() as int);
    best_trial_is_lowest(ctx, allowed, frequent, score, accept, lower, t, n, n, value);
    let best = t.best[n - 1];
    assert forall|i: int| 0 <= i < n implies rank(t.ends[best]) <= rank(#[trigger] t.ends[i]) by {
        assert(t.trial_went(ctx, allowed, frequent, score, accept, lower, i));
        assert(t.trial_went(ctx, allowed, frequent, score, accept, lower, best));
        let x = t.scores[i];
    }
    if ctx.groups@.len() <= 500 {
        let end = t.ends[t.best.last()];
        let p = choose|p: Seq<u8>|
            {
                &&& #[trigger] descends(ctx, false, score, better, end, p)
                &&& forall|g: int|
                    0 <= g < ctx.num_groups() ==> #[trigger] crate::descent::settled_at(
                        ctx,
                        false,
                        score,
                        better,
                        p,
                        g,
                    )
                &&& {
                    ||| r == p && judged(ctx, false, score, lower, end, p, true)
                    ||| r == end && judged(ctx, false, score, lower, end, p, false)
                }
            };
        assert(rank(r) <= rank(p));
    }
}

} // verus!
