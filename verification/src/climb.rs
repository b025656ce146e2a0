//! Searches that go from one assignment to a better one until none is found.

use rand::rngs::ThreadRng;
use vstd::prelude::*;

use crate::conflicts::{find_collision_groups, lists_collisions};
use crate::context::OptContext;
use crate::dice::below;
use crate::evaluator::Evaluator;
use crate::moves::{can_judge, judged, lists_key, rotatable, rotated, swappable, swapped};
use crate::neighbours::{
    distinct_groups, draw_off, draw_pair, draw_three, move_permitted, offer_key, offered, others, pair_tried,
    picks_among, resolve_pair, rotate_three, rotation_tried, swap_permitted, without_in, PairDraw,
};
use crate::types::EQUIV_TABLE_SIZE;

verus! {

/// How many of the heaviest collisions a climb draws from.
pub const CLIMB_WINDOW: usize = 20;

/// After how many steps a climb may look for collisions again.
pub const CLIMB_REFRESH: usize = 200;

/// Whether a group goes to a key that it may be put on.
pub open spec fn by_move(ctx: &OptContext, a: Seq<u8>, b: Seq<u8>) -> bool {
    exists|g: int, i: int|
        0 <= g < ctx.num_groups() && 0 <= i < ctx.choices(g).len() && b == a.update(
            g,
            #[trigger] ctx.choices(g)[i],
        )
}

/// Whether two groups swap keys that both may be put on.
pub open spec fn by_swap(ctx: &OptContext, a: Seq<u8>, b: Seq<u8>) -> bool {
    exists|r1: int, r2: int|
        {
            &&& 0 <= r1 < ctx.num_groups()
            &&& 0 <= r2 < ctx.num_groups()
            &&& r1 != r2
            &&& ctx.choices(r1).contains(a[r2])
            &&& ctx.choices(r2).contains(a[r1])
            &&& b == #[trigger] swapped(a, r1, r2)
        }
}

/// Whether three groups pass on keys that they may be put on.
pub open spec fn by_rotation(ctx: &OptContext, a: Seq<u8>, b: Seq<u8>) -> bool {
    exists|g1: int, g2: int, g3: int|
        {
            &&& distinct_groups(ctx, g1, g2, g3)
            &&& rotatable(ctx, a, g1, g2, g3)
            &&& b == #[trigger] rotated(a, g1, g2, g3)
        }
}

/// Whether one assignment leads to another by the kind of move that a step of a climb makes: of ten
/// steps, the first four and the last two move one group, three swap two, and one passes the keys of
/// three on.
pub open spec fn climbs_by(ctx: &OptContext, step: int, a: Seq<u8>, b: Seq<u8>) -> bool {
    if 4 <= step % 10 <= 6 {
        by_swap(ctx, a, b)
    } else if step % 10 == 7 {
        by_rotation(ctx, a, b)
    } else {
        by_move(ctx, a, b)
    }
}

/// A key that a group may be moved to is one that it may be put on.
proof fn offer_is_move<S, F: Fn(&Evaluator, &Vec<u8>) -> S, G: Fn(&S, &S) -> bool>(
    ctx: &OptContext,
    simple: bool,
    score: &F,
    accept: &G,
    a: Seq<u8>,
    b: Seq<u8>,
    g: int,
    pick: int,
)
    requires
        0 <= g < ctx.num_groups(),
        picks_among(ctx, a, g, pick),
        offered(ctx, simple, score, accept, a, b, g, pick, true),
    ensures
        by_move(ctx, a, b),
        judged(ctx, simple, score, accept, a, b, true),
{
    let k = others(ctx, a, g)[pick];
    without_in(ctx.choices(g), a[g], pick);
    let at = ctx.choices(g).index_of(k);
    assert(ctx.choices(g)[at] == k);
}

/// Whether a group was to go to a key, unless it is there.
pub open spec fn move_tried<S, F: Fn(&Evaluator, &Vec<u8>) -> S, G: Fn(&S, &S) -> bool>(
    ctx: &OptContext,
    simple: bool,
    score: &F,
    accept: &G,
    a: Seq<u8>,
    b: Seq<u8>,
    g: int,
    k: u8,
    moved: bool,
) -> bool {
    &&& b == if moved {
        a.update(g, k)
    } else {
        a
    }
    &&& if a[g] == k {
        !moved
    } else {
        judged(ctx, simple, score, accept, a, a.update(g, k), moved)
    }
}

/// Whether two groups were to swap keys, where both may be put on them and they differ.
pub open spec fn swap_tried<S, F: Fn(&Evaluator, &Vec<u8>) -> S, G: Fn(&S, &S) -> bool>(
    ctx: &OptContext,
    simple: bool,
    score: &F,
    accept: &G,
    a: Seq<u8>,
    b: Seq<u8>,
    r1: int,
    r2: int,
    moved: bool,
) -> bool {
    &&& 0 <= r1 < ctx.num_groups()
    &&& 0 <= r2 < ctx.num_groups()
    &&& r1 != r2
    &&& b == if moved {
        swapped(a, r1, r2)
    } else {
        a
    }
    &&& if swappable(ctx, a, r1, r2) {
        judged(ctx, simple, score, accept, a, swapped(a, r1, r2), moved)
    } else {
        !moved
    }
}

/// Swaps the keys of two groups, where both may be put on them and they differ, if that is accepted.
pub fn swap_pair<S, F: Fn(&Evaluator, &Vec<u8>) -> S, G: Fn(&S, &S) -> bool>(
    ctx: &OptContext,
    assignment: &mut Vec<u8>,
    evaluator: &mut Evaluator,
    r1: usize,
    r2: usize,
    score: &F,
    accept: &G,
) -> (moved: bool)
    requires
        ctx.wf_full(),
        ctx.wf_simple(),
        old(evaluator).in_step(ctx, old(assignment)@),
        old(evaluator).searches(),
        r1 < ctx.num_groups(),
        r2 < ctx.num_groups(),
        r1 != r2,
        can_judge(score, accept),
    ensures
        final(evaluator).in_step(ctx, final(assignment)@),
        final(evaluator).searches(),
        final(evaluator).simple_active == old(evaluator).simple_active,
        final(evaluator).rebuilds() == old(evaluator).rebuilds(),
        !moved ==> final(assignment)@ == old(assignment)@ && final(evaluator).same_state(old(evaluator)),
        swap_tried(
            ctx,
            old(evaluator).simple_active,
            score,
            accept,
            old(assignment)@,
            final(assignment)@,
            r1 as int,
            r2 as int,
            moved,
        ),
        ctx.permits(old(assignment)@) ==> ctx.permits(final(assignment)@),
{
    let ghost before = assignment@;
    if lists_key(&ctx.groups[r1].allowed_keys, assignment[r2]) && lists_key(
        &ctx.groups[r2].allowed_keys,
        assignment[r1],
    ) {
        let moved = evaluator.try_swap(ctx, assignment, r1, r2, score, accept);
        proof {
            if moved && ctx.permits(before) {
                swap_permitted(ctx, before, r1 as int, r2 as int);
            }
        }
        moved
    } else {
        false
    }
}

/// What a step of a climb has drawn.
#[derive(Clone, Copy, Debug)]
pub enum StepDraw {
    /// There is nothing to draw from.
    Nothing,
    /// Two groups that collide, and the keys that they are offered.
    Collision { pair: PairDraw },
    /// Two groups that are to swap their keys.
    Swap { r1: usize, r2: usize },
    /// Three groups that are to pass their keys on.
    Rotation { g1: usize, g2: usize, g3: usize },
    /// A group, and a place among its other keys.
    Off { g: usize, pick: usize },
    /// A group, and a place among the keys that it may be put on.
    Move { g: usize, pick: usize },
}

impl StepDraw {
    /// What was drawn is there.
    pub open spec fn fits(&self, ctx: &OptContext, a: Seq<u8>) -> bool {
        match *self {
            StepDraw::Nothing => true,
            StepDraw::Collision { pair } => pair.fits(ctx, a),
            StepDraw::Swap { r1, r2 } => r1 < ctx.num_groups() && r2 < ctx.num_groups() && r1 != r2,
            StepDraw::Rotation { g1, g2, g3 } => distinct_groups(ctx, g1 as int, g2 as int, g3 as int),
            StepDraw::Off { g, pick } => g < ctx.num_groups() && picks_among(ctx, a, g as int, pick as int),
            StepDraw::Move { g, pick } => g < ctx.num_groups() && pick < ctx.choices(g as int).len(),
        }
    }

    /// The draw is of the kind that the step number calls for: of ten steps four take on a
    /// collision, three swap two groups, one passes the keys of three on, one moves a group off its
    /// key, and one moves a group anywhere.
    pub open spec fn is_for(
        &self,
        ctx: &OptContext,
        collisions: Seq<(usize, usize, u64)>,
        step: int,
    ) -> bool {
        if step % 10 <= 3 {
            if collisions.len() == 0 {
                *self is Nothing
            } else {
                *self matches StepDraw::Collision { pair } && pair.drawn_from(collisions, CLIMB_WINDOW as int)
            }
        } else if step % 10 <= 6 {
            if ctx.num_groups() < 2 {
                *self is Nothing
            } else {
                *self is Swap
            }
        } else if step % 10 == 7 {
            if ctx.num_groups() < 3 {
                *self is Nothing
            } else {
                *self is Rotation
            }
        } else if step % 10 == 8 {
            if ctx.num_groups() < 2 {
                *self is Nothing
            } else {
                *self is Off
            }
        } else {
            *self is Move
        }
    }
}

/// How a step goes with what it has drawn.
pub open spec fn draw_went<S, F: Fn(&Evaluator, &Vec<u8>) -> S, G: Fn(&S, &S) -> bool>(
    ctx: &OptContext,
    simple: bool,
    score: &F,
    accept: &G,
    draw: StepDraw,
    a: Seq<u8>,
    b: Seq<u8>,
    moved: bool,
) -> bool {
    match draw {
        StepDraw::Nothing => !moved && b == a,
        StepDraw::Collision { pair } => pair_tried(ctx, simple, score, accept, a, b, pair, moved),
        StepDraw::Swap { r1, r2 } => swap_tried(
            ctx,
            simple,
            score,
            accept,
            a,
            b,
            r1 as int,
            r2 as int,
            moved,
        ),
        StepDraw::Rotation { g1, g2, g3 } => rotation_tried(
            ctx,
            simple,
            score,
            accept,
            a,
            b,
            g1 as int,
            g2 as int,
            g3 as int,
            moved,
        ),
        StepDraw::Off { g, pick } => offered(ctx, simple, score, accept, a, b, g as int, pick as int, moved),
        StepDraw::Move { g, pick } => move_tried(
            ctx,
            simple,
            score,
            accept,
            a,
            b,
            g as int,
            ctx.choices(g as int)[pick as int],
            moved,
        ),
    }
}

/// Does what was drawn, if it is accepted.
pub fn take_step<S, F: Fn(&Evaluator, &Vec<u8>) -> S, G: Fn(&S, &S) -> bool>(
    ctx: &OptContext,
    assignment: &mut Vec<u8>,
    evaluator: &mut Evaluator,
    draw: StepDraw,
    score: &F,
    accept: &G,
) -> (moved: bool)
    requires
        ctx.wf_full(),
        ctx.wf_simple(),
        ctx.playable(),
        old(evaluator).in_step(ctx, old(assignment)@),
        old(evaluator).searches(),
        draw.fits(ctx, old(assignment)@),
        can_judge(score, accept),
    ensures
        final(evaluator).in_step(ctx, final(assignment)@),
        final(evaluator).searches(),
        final(evaluator).simple_active == old(evaluator).simple_active,
        final(evaluator).rebuilds() == old(evaluator).rebuilds(),
        !moved ==> final(assignment)@ == old(assignment)@ && final(evaluator).same_state(old(evaluator)),
        draw_went(
            ctx,
            old(evaluator).simple_active,
            score,
            accept,
            draw,
            old(assignment)@,
            final(assignment)@,
            moved,
        ),
        ctx.permits(old(assignment)@) ==> ctx.permits(final(assignment)@),
{
    match draw {
        StepDraw::Nothing => false,
        StepDraw::Collision { pair } => resolve_pair(ctx, assignment, evaluator, pair, score, accept),
        StepDraw::Swap { r1, r2 } => swap_pair(ctx, assignment, evaluator, r1, r2, score, accept),
        StepDraw::Rotation { g1, g2, g3 } => rotate_three(
            ctx,
            assignment,
            evaluator,
            g1,
            g2,
            g3,
            score,
            accept,
        ),
        StepDraw::Off { g, pick } => offer_key(ctx, assignment, evaluator, g, pick, score, accept),
        StepDraw::Move { g, pick } => {
            let k = ctx.groups[g].allowed_keys[pick];
            proof {
                assert(ctx.choices(g as int)[pick as int] < EQUIV_TABLE_SIZE);
                if ctx.permits(assignment@) {
                    move_permitted(ctx, assignment@, g as int, k);
                }
            }
            evaluator.try_move(ctx, assignment, g, k, score, accept)
        },
    }
}

/// Draws what the step number calls for.
pub fn draw_step(
    ctx: &OptContext,
    assignment: &Vec<u8>,
    collisions: &Vec<(usize, usize, u64)>,
    step: usize,
    rng: &mut ThreadRng,
) -> (draw: StepDraw)
    requires
        ctx.wf_full(),
        ctx.playable(),
        ctx.num_groups() > 0,
        ctx.assigns(assignment@),
        forall|i: int|
            0 <= i < collisions@.len() ==> (#[trigger] collisions@[i]).0 < ctx.num_groups()
                && collisions@[i].1 < ctx.num_groups(),
    ensures
        draw.fits(ctx, assignment@),
        draw.is_for(ctx, collisions@, step as int),
{
    let n = assignment.len();
    let op: usize = step % 10;
    if op <= 3 {
        if collisions.len() == 0 {
            return StepDraw::Nothing;
        }
        StepDraw::Collision { pair: draw_pair(ctx, assignment, collisions, CLIMB_WINDOW, rng) }
    } else if op <= 6 {
        if n < 2 {
            return StepDraw::Nothing;
        }
        let (r1, r2) = draw_two(n, rng);
        StepDraw::Swap { r1, r2 }
    } else if op == 7 {
        if n < 3 {
            return StepDraw::Nothing;
        }
        let (g1, g2, g3) = draw_three(n, rng);
        StepDraw::Rotation { g1, g2, g3 }
    } else if op == 8 {
        if n < 2 {
            return StepDraw::Nothing;
        }
        let (g, pick) = draw_off(ctx, assignment, rng);
        StepDraw::Off { g, pick }
    } else {
        let g = below(rng, n);
        let pick = below(rng, ctx.groups[g].allowed_keys.len());
        StepDraw::Move { g, pick }
    }
}

/// Draws two different numbers below `n`.
pub fn draw_two(n: usize, rng: &mut ThreadRng) -> (r: (usize, usize))
    requires
        n >= 2,
    ensures
        r.0 < n,
        r.1 < n,
        r.0 != r.1,
{
    let r1 = below(rng, n);
    let drawn = below(rng, n - 1);
    if drawn >= r1 {
        (r1, drawn + 1)
    } else {
        (r1, drawn)
    }
}

/// How a step of a climb goes: as what it calls for goes with some draw.
#[verifier::opaque]
pub open spec fn step_went<S, F: Fn(&Evaluator, &Vec<u8>) -> S, G: Fn(&S, &S) -> bool>(
    ctx: &OptContext,
    simple: bool,
    score: &F,
    accept: &G,
    collisions: Seq<(usize, usize, u64)>,
    step: int,
    a: Seq<u8>,
    b: Seq<u8>,
    moved: bool,
) -> bool {
    exists|draw: StepDraw|
        {
            &&& draw.fits(ctx, a)
            &&& draw.is_for(ctx, collisions, step)
            &&& #[trigger] draw_went(ctx, simple, score, accept, draw, a, b, moved)
        }
}

/// A step that moves makes the kind of move that it calls for, and the move was accepted.
pub proof fn step_climbs<S, F: Fn(&Evaluator, &Vec<u8>) -> S, G: Fn(&S, &S) -> bool>(
    ctx: &OptContext,
    simple: bool,
    score: &F,
    accept: &G,
    collisions: Seq<(usize, usize, u64)>,
    step: int,
    a: Seq<u8>,
    b: Seq<u8>,
)
    requires
        step_went(ctx, simple, score, accept, collisions, step, a, b, true),
    ensures
        climbs_by(ctx, step, a, b),
        judged(ctx, simple, score, accept, a, b, true),
{
    reveal(step_went);
    let draw = choose|draw: StepDraw|
        {
            &&& draw.fits(ctx, a)
            &&& draw.is_for(ctx, collisions, step)
            &&& #[trigger] draw_went(ctx, simple, score, accept, draw, a, b, true)
        };
    match draw {
        StepDraw::Nothing => {},
        StepDraw::Collision { pair } => {
            let (g, p) = (pair.first as int, pair.pick_first as int);
            if offered(ctx, simple, score, accept, a, b, g, p, true) {
                offer_is_move(ctx, simple, score, accept, a, b, g, p);
            } else {
                offer_is_move(
                    ctx,
                    simple,
                    score,
                    accept,
                    a,
                    b,
                    pair.second as int,
                    pair.pick_second as int,
                );
            }
        },
        StepDraw::Swap { r1, r2 } => {
            let x = swapped(a, r1 as int, r2 as int);
            assert(by_swap(ctx, a, b));
        },
        StepDraw::Rotation { g1, g2, g3 } => {
            let x = rotated(a, g1 as int, g2 as int, g3 as int);
            assert(by_rotation(ctx, a, b));
        },
        StepDraw::Off { g, pick } => {
            offer_is_move(ctx, simple, score, accept, a, b, g as int, pick as int);
        },
        StepDraw::Move { g, pick } => {
            let k = ctx.choices(g as int)[pick as int];
            assert(by_move(ctx, a, b));
        },
    }
}

/// One step of a climb: the kind of move that the step number calls for, with random groups and
/// keys, if it is accepted.
pub fn climb_step<S, F: Fn(&Evaluator, &Vec<u8>) -> S, G: Fn(&S, &S) -> bool>(
    ctx: &OptContext,
    assignment: &mut Vec<u8>,
    evaluator: &mut Evaluator,
    collisions: &Vec<(usize, usize, u64)>,
    step: usize,
    rng: &mut ThreadRng,
    score: &F,
    accept: &G,
) -> (moved: bool)
    requires
        ctx.wf_full(),
        ctx.wf_simple(),
        ctx.playable(),
        ctx.num_groups() > 0,
        old(evaluator).in_step(ctx, old(assignment)@),
        old(evaluator).searches(),
        forall|i: int|
            0 <= i < collisions@.len() ==> (#[trigger] collisions@[i]).0 < ctx.num_groups()
                && collisions@[i].1 < ctx.num_groups(),
        can_judge(score, accept),
    ensures
        final(evaluator).in_step(ctx, final(assignment)@),
        final(evaluator).searches(),
        final(evaluator).simple_active == old(evaluator).simple_active,
        final(evaluator).rebuilds() == old(evaluator).rebuilds(),
        !moved ==> final(assignment)@ == old(assignment)@ && final(evaluator).same_state(old(evaluator)),
        moved ==> climbs_by(ctx, step as int, old(assignment)@, final(assignment)@),
        moved ==> judged(ctx, old(evaluator).simple_active, score, accept, old(assignment)@, final(assignment)@, true),
        step_went(
            ctx,
            old(evaluator).simple_active,
            score,
            accept,
            collisions@,
            step as int,
            old(assignment)@,
            final(assignment)@,
            moved,
        ),
        ctx.permits(old(assignment)@) ==> ctx.permits(final(assignment)@),
{
    let ghost simple = evaluator.simple_active;
    let ghost before = assignment@;
    let draw = draw_step(ctx, assignment, collisions, step, rng);
    let moved = take_step(ctx, assignment, evaluator, draw, score, accept);
    proof {
        reveal(step_went);
        assert(draw_went(ctx, simple, score, accept, draw, before, assignment@, moved));
        if moved {
            step_climbs(ctx, simple, score, accept, collisions@, step as int, before, assignment@);
        }
    }
    moved
}

/// Whether one assignment leads to another by moves that were all accepted.
pub open spec fn climbed<S, F: Fn(&Evaluator, &Vec<u8>) -> S, G: Fn(&S, &S) -> bool>(
    ctx: &OptContext,
    simple: bool,
    score: &F,
    accept: &G,
    from: Seq<u8>,
    to: Seq<u8>,
) -> bool {
    exists|trail: Seq<Seq<u8>>| #[trigger] is_trail(ctx, simple, score, accept, trail, from, to)
}

/// Whether a list of assignments goes from one to another by moves that were all accepted.
pub open spec fn is_trail<S, F: Fn(&Evaluator, &Vec<u8>) -> S, G: Fn(&S, &S) -> bool>(
    ctx: &OptContext,
    simple: bool,
    score: &F,
    accept: &G,
    trail: Seq<Seq<u8>>,
    from: Seq<u8>,
    to: Seq<u8>,
) -> bool {
    &&& trail.len() > 0
    &&& trail[0] == from
    &&& trail[trail.len() - 1] == to
    &&& forall|i: int|
        #![trigger trail[i]]
        0 < i < trail.len() ==> judged(ctx, simple, score, accept, trail[i - 1], trail[i], true)
}

/// Staying is a climb of no moves.
pub proof fn climb_begins<S, F: Fn(&Evaluator, &Vec<u8>) -> S, G: Fn(&S, &S) -> bool>(
    ctx: &OptContext,
    simple: bool,
    score: &F,
    accept: &G,
    from: Seq<u8>,
)
    ensures
        climbed(ctx, simple, score, accept, from, from),
{
    assert(is_trail(ctx, simple, score, accept, seq![from], from, from));
}

/// An accepted move carries a climb on.
pub proof fn climb_goes_on<S, F: Fn(&Evaluator, &Vec<u8>) -> S, G: Fn(&S, &S) -> bool>(
    ctx: &OptContext,
    simple: bool,
    score: &F,
    accept: &G,
    from: Seq<u8>,
    mid: Seq<u8>,
    to: Seq<u8>,
)
    requires
        climbed(ctx, simple, score, accept, from, mid),
        judged(ctx, simple, score, accept, mid, to, true),
    ensures
        climbed(ctx, simple, score, accept, from, to),
{
    let trail = choose|trail: Seq<Seq<u8>>| #[trigger] is_trail(ctx, simple, score, accept, trail, from, mid);
    let longer = trail.push(to);
    assert forall|i: int| #![trigger longer[i]] 0 < i < longer.len() implies judged(
        ctx,
        simple,
        score,
        accept,
        longer[i - 1],
        longer[i],
        true,
    ) by {
        if i < trail.len() {
            let x = trail[i];
        }
    }
    assert(is_trail(ctx, simple, score, accept, longer, from, to));
}

/// A climb after a climb is a climb.
pub proof fn climb_joins<S, F: Fn(&Evaluator, &Vec<u8>) -> S, G: Fn(&S, &S) -> bool>(
    ctx: &OptContext,
    simple: bool,
    score: &F,
    accept: &G,
    from: Seq<u8>,
    mid: Seq<u8>,
    to: Seq<u8>,
)
    requires
        climbed(ctx, simple, score, accept, from, mid),
        climbed(ctx, simple, score, accept, mid, to),
    ensures
        climbed(ctx, simple, score, accept, from, to),
{
    let t1 = choose|trail: Seq<Seq<u8>>| #[trigger] is_trail(ctx, simple, score, accept, trail, from, mid);
    let t2 = choose|trail: Seq<Seq<u8>>| #[trigger] is_trail(ctx, simple, score, accept, trail, mid, to);
    let joined = t1 + t2.skip(1);
    assert forall|i: int| #![trigger joined[i]] 0 < i < joined.len() implies judged(
        ctx,
        simple,
        score,
        accept,
        joined[i - 1],
        joined[i],
        true,
    ) by {
        if i < t1.len() {
            let x = t1[i];
        } else {
            let x = t2[i - t1.len() + 1];
            assert(joined[i] == x);
            assert(joined[i - 1] == t2[i - t1.len()]);
        }
    }
    assert(joined[joined.len() - 1] == to);
    assert(is_trail(ctx, simple, score, accept, joined, from, to));
}

/// A climb whose accepted moves never raise a rank ends no higher than it began.
pub proof fn climb_never_worse<S, F: Fn(&Evaluator, &Vec<u8>) -> S, G: Fn(&S, &S) -> bool>(
    ctx: &OptContext,
    simple: bool,
    score: &F,
    accept: &G,
    from: Seq<u8>,
    to: Seq<u8>,
    rank: spec_fn(Seq<u8>) -> int,
)
    requires
        climbed(ctx, simple, score, accept, from, to),
        forall|a: Seq<u8>, b: Seq<u8>| #[trigger]
            judged(ctx, simple, score, accept, a, b, true) ==> rank(b) <= rank(a),
    ensures
        rank(to) <= rank(from),
{
    let trail = choose|trail: Seq<Seq<u8>>| #[trigger] is_trail(ctx, simple, score, accept, trail, from, to);
    trail_never_worse(ctx, simple, score, accept, trail, rank, trail.len() - 1);
}

proof fn trail_never_worse<S, F: Fn(&Evaluator, &Vec<u8>) -> S, G: Fn(&S, &S) -> bool>(
    ctx: &OptContext,
    simple: bool,
    score: &F,
    accept: &G,
    trail: Seq<Seq<u8>>,
    rank: spec_fn(Seq<u8>) -> int,
    i: int,
)
    requires
        0 <= i < trail.len(),
        forall|j: int|
            #![trigger trail[j]]
            0 < j < trail.len() ==> judged(ctx, simple, score, accept, trail[j - 1], trail[j], true),
        forall|a: Seq<u8>, b: Seq<u8>| #[trigger]
            judged(ctx, simple, score, accept, a, b, true) ==> rank(b) <= rank(a),
    ensures
        rank(trail[i]) <= rank(trail[0]),
    decreases i,
{
    if i > 0 {
        trail_never_worse(ctx, simple, score, accept, trail, rank, i - 1);
        assert(judged(ctx, simple, score, accept, trail[i - 1], trail[i], true));
    }
}

/// The course of a climb: where it was before each step and at its end, the collisions that each step
/// knew, and which steps moved.
pub struct Course {
    pub trail: Seq<Seq<u8>>,
    pub lists: Seq<Seq<(usize, usize, u64)>>,
    pub moved: Seq<bool>,
}

/// How many steps in a row have not moved.
pub open spec fn idle(moved: Seq<bool>) -> nat
    decreases moved.len(),
{
    if moved.len() == 0 || moved.last() {
        0
    } else {
        idle(moved.drop_last()) + 1
    }
}

impl Course {
    /// The course is one of a climb from an assignment, as far as it goes. Collisions are looked for
    /// before the first step, and after a step that moved at every two hundredth step; steps are
    /// taken as long as no more than ten for each group in a row have not moved.
    pub open spec fn runs<S, F: Fn(&Evaluator, &Vec<u8>) -> S, G: Fn(&S, &S) -> bool>(
        &self,
        ctx: &OptContext,
        simple: bool,
        score: &F,
        accept: &G,
        from: Seq<u8>,
    ) -> bool {
        let n = self.moved.len();
        &&& self.trail.len() == n + 1
        &&& self.lists.len() == n + 1
        &&& self.trail[0] == from
        &&& lists_collisions(ctx, ctx.full_codes(from), false, self.lists[0])
        &&& forall|i: int|
            #![trigger self.moved[i]]
            0 <= i < n ==> {
                &&& step_went(
                    ctx,
                    simple,
                    score,
                    accept,
                    self.lists[i],
                    i,
                    self.trail[i],
                    self.trail[i + 1],
                    self.moved[i],
                )
                &&& if self.moved[i] && i % CLIMB_REFRESH as int == 0 {
                    lists_collisions(ctx, ctx.full_codes(self.trail[i + 1]), false, self.lists[i + 1])
                } else {
                    self.lists[i + 1] == self.lists[i]
                }
                &&& idle(self.moved.take(i)) <= ctx.num_groups() * 10
            }
    }
}

/// Whether a climb of at most so many steps leads from one assignment to another. It ends when the
/// steps run out or too many in a row have not moved.
pub open spec fn climb_ends<S, F: Fn(&Evaluator, &Vec<u8>) -> S, G: Fn(&S, &S) -> bool>(
    ctx: &OptContext,
    simple: bool,
    score: &F,
    accept: &G,
    from: Seq<u8>,
    max_steps: int,
    to: Seq<u8>,
) -> bool {
    if ctx.num_groups() == 0 {
        to == from
    } else {
        exists|c: Course|
            {
                &&& #[trigger] c.runs(ctx, simple, score, accept, from)
                &&& c.moved.len() <= max_steps
                &&& c.moved.len() == max_steps || idle(c.moved) > ctx.num_groups() * 10
                &&& c.trail[c.moved.len() as int] == to
            }
    }
}

/// A step carries a course on.
#[verifier::rlimit(60)]
#[verifier::spinoff_prover]
proof fn course_goes_on<S, F: Fn(&Evaluator, &Vec<u8>) -> S, G: Fn(&S, &S) -> bool>(
    ctx: &OptContext,
    simple: bool,
    score: &F,
    accept: &G,
    from: Seq<u8>,
    c: Course,
    to: Seq<u8>,
    list: Seq<(usize, usize, u64)>,
    moved: bool,
) -> (longer: Course)
    requires
        c.runs(ctx, simple, score, accept, from),
        idle(c.moved) <= ctx.num_groups() * 10,
        step_went(
            ctx,
            simple,
            score,
            accept,
            c.lists[c.moved.len() as int],
            c.moved.len() as int,
            c.trail[c.moved.len() as int],
            to,
            moved,
        ),
        if moved && c.moved.len() % CLIMB_REFRESH as nat == 0 {
            lists_collisions(ctx, ctx.full_codes(to), false, list)
        } else {
            list == c.lists[c.moved.len() as int]
        },
    ensures
        longer.runs(ctx, simple, score, accept, from),
        longer.moved == c.moved.push(moved),
        longer.trail[longer.moved.len() as int] == to,
        longer.lists[longer.moved.len() as int] == list,
        idle(longer.moved) == if moved {
            0
        } else {
            idle(c.moved) + 1
        },
{
    let longer = Course {
        trail: c.trail.push(to),
        lists: c.lists.push(list),
        moved: c.moved.push(moved),
    };
    let n = c.moved.len();
    assert(longer.moved.drop_last() =~= c.moved);
    assert(longer.moved.take(n as int) =~= c.moved);
    assert forall|i: int| #![trigger longer.moved[i]] 0 <= i < n + 1 implies {
        &&& step_went(
            ctx,
            simple,
            score,
            accept,
            longer.lists[i],
            i,
            longer.trail[i],
            longer.trail[i + 1],
            longer.moved[i],
        )
        &&& if longer.moved[i] && i % CLIMB_REFRESH as int == 0 {
            lists_collisions(ctx, ctx.full_codes(longer.trail[i + 1]), false, longer.lists[i + 1])
        } else {
            longer.lists[i + 1] == longer.lists[i]
        }
        &&& idle(longer.moved.take(i)) <= ctx.num_groups() * 10
    } by {
        if i < n {
            let x = c.moved[i];
            assert(longer.moved.take(i) =~= c.moved.take(i));
            assert(longer.moved[i] == c.moved[i]);
            assert(longer.trail[i] == c.trail[i] && longer.trail[i + 1] == c.trail[i + 1]);
            assert(longer.lists[i] == c.lists[i] && longer.lists[i + 1] == c.lists[i + 1]);
        } else {
            assert(longer.trail[i] == c.trail[i] && longer.trail[i + 1] == to);
            assert(longer.lists[i] == c.lists[i] && longer.lists[i + 1] == list);
        }
    }
    longer
}

/// Whether simple codes count: there are some, and they have not been left out.
pub open spec fn simple_on(ctx: &OptContext, disable_simple: bool) -> bool {
    !disable_simple && ctx.enable_simple_code && ctx.n_levels() > 0
}

/// Climbs from an assignment: tries random moves until none was accepted for long, or the steps run
/// out. Collisions are looked for at the beginning, and again after accepted moves at regular steps.
pub fn enhanced_hill_climb<S, F: Fn(&Evaluator, &Vec<u8>) -> S, G: Fn(&S, &S) -> bool>(
    ctx: &OptContext,
    init: Vec<u8>,
    rng: &mut ThreadRng,
    max_steps: usize,
    disable_simple: bool,
    score: &F,
    accept: &G,
) -> (r: (Vec<u8>, Evaluator))
    requires
        ctx.wf_full(),
        ctx.wf_simple(),
        ctx.playable(),
        ctx.assigns(init@),
        can_judge(score, accept),
    ensures
        r.1.in_step(ctx, r.0@),
        r.1.searches(),
        r.1.simple_active == simple_on(ctx, disable_simple),
        climbed(ctx, simple_on(ctx, disable_simple), score, accept, init@, r.0@),
        climb_ends(ctx, simple_on(ctx, disable_simple), score, accept, init@, max_steps as int, r.0@),
        ctx.permits(init@) ==> ctx.permits(r.0@),
{
    let ghost start = init@;
    let mut assignment = init;
    let mut evaluator = if disable_simple {
        Evaluator::new_full_only(ctx, assignment.as_slice())
    } else {
        Evaluator::new(ctx, assignment.as_slice())
    };
    let n = assignment.len();
    let ghost simple = evaluator.simple_active;
    proof {
        climb_begins(ctx, simple, score, accept, start);
    }
    if n == 0 {
        return (assignment, evaluator);
    }
    let mut no_improve_count: usize = 0;
    let mut collisions = find_collision_groups(ctx, assignment.as_slice(), false);
    let ghost mut course = Course { trail: seq![start], lists: seq![collisions@], moved: Seq::empty() };
    let mut step: usize = 0;
    while step < max_steps && no_improve_count <= n * 10
        invariant
            ctx.wf_full(),
            ctx.wf_simple(),
            ctx.playable(),
            can_judge(score, accept),
            n == ctx.num_groups(),
            0 < n <= 65536,
            step <= max_steps,
            no_improve_count <= n * 10 + 1,
            course.runs(ctx, simple, score, accept, start),
            course.moved.len() == step,
            course.trail[step as int] == assignment@,
            course.lists[step as int] == collisions@,
            idle(course.moved) == no_improve_count,
            evaluator.in_step(ctx, assignment@),
            evaluator.searches(),
            evaluator.simple_active == simple,
            forall|i: int|
                0 <= i < collisions@.len() ==> (#[trigger] collisions@[i]).0 < ctx.num_groups()
                    && collisions@[i].1 < ctx.num_groups(),
            climbed(ctx, simple, score, accept, start, assignment@),
            ctx.permits(start) ==> ctx.permits(assignment@),
        decreases max_steps - step,
    {
        let ghost before = assignment@;
        let success = climb_step(
            ctx,
            &mut assignment,
            &mut evaluator,
            &collisions,
            step,
            rng,
            score,
            accept,
        );
        if success {
            proof {
                climb_goes_on(ctx, simple, score, accept, start, before, assignment@);
            }
            no_improve_count = 0;
            if step % CLIMB_REFRESH == 0 {
                collisions = find_collision_groups(ctx, assignment.as_slice(), false);
            }
        } else {
            no_improve_count = no_improve_count + 1;
        }
        proof {
            course = course_goes_on(
                ctx,
                simple,
                score,
                accept,
                start,
                course,
                assignment@,
                collisions@,
                success,
            );
        }
        step = step + 1;
    }
    assert(course.runs(ctx, simple, score, accept, start));
    (assignment, evaluator)
}

} // verus!
