//! Moves that a search tries at random: out of the way of a collision, off a crowded key, or around
//! three groups.

use rand::rngs::ThreadRng;
use vstd::prelude::*;

use crate::conflicts::find_groups_on_key;
use crate::context::OptContext;
use crate::dice::{below, coin, distinct_below};
use crate::evaluator::Evaluator;
use crate::moves::{can_judge, judged, rotatable, rotated};
use crate::types::EQUIV_TABLE_SIZE;

verus! {

/// The keys of a list other than `k`.
pub open spec fn without(list: Seq<u8>, k: u8) -> Seq<u8> {
    list.filter(|x: u8| x != k)
}

/// The keys that a group may be moved to.
pub open spec fn others(ctx: &OptContext, a: Seq<u8>, g: int) -> Seq<u8> {
    without(ctx.choices(g), a[g])
}

/// What is left of a list was on it.
pub proof fn without_in(list: Seq<u8>, k: u8, i: int)
    requires
        0 <= i < without(list, k).len(),
    ensures
        list.contains(without(list, k)[i]),
        without(list, k)[i] != k,
    decreases list.len(),
{
    reveal(Seq::filter);
    if list.len() > 0 {
        let front = list.drop_last();
        let x = without(list, k)[i];
        if i < without(front, k).len() {
            without_in(front, k, i);
            let j = front.index_of(x);
            assert(list[j] == x);
        } else {
            assert(list[list.len() - 1] == x);
        }
    }
}

/// The keys of a list other than `k`, in order.
pub fn other_keys(list: &Vec<u8>, k: u8) -> (r: Vec<u8>)
    ensures
        r@ == without(list@, k),
        forall|i: int| 0 <= i < r@.len() ==> list@.contains(#[trigger] r@[i]) && r@[i] != k,
{
    let mut r: Vec<u8> = Vec::new();
    let mut i: usize = 0;
    assert(list@.take(0) =~= Seq::<u8>::empty());
    proof {
        reveal(Seq::filter);
    }
    while i < list.len()
        invariant
            i <= list@.len(),
            r@ == without(list@.take(i as int), k),
            forall|j: int| 0 <= j < r@.len() ==> list@.contains(#[trigger] r@[j]) && r@[j] != k,
        decreases list@.len() - i,
    {
        reveal(Seq::filter);
        assert(list@.take(i + 1).drop_last() =~= list@.take(i as int));
        if list[i] != k {
            r.push(list[i]);
        }
        i = i + 1;
    }
    assert(list@.take(list@.len() as int) =~= list@);
    r
}

/// Moving a group to one of its other keys keeps an assignment permitted.
pub proof fn move_permitted(ctx: &OptContext, a: Seq<u8>, g: int, k: u8)
    requires
        ctx.permits(a),
        0 <= g < a.len(),
        ctx.choices(g).contains(k),
        k < EQUIV_TABLE_SIZE,
    ensures
        ctx.permits(a.update(g, k)),
{
    let b = a.update(g, k);
    assert forall|h: int| 0 <= h < b.len() implies ctx.choices(h).contains(#[trigger] b[h]) by {
        let x = a[h];
    }
    assert(crate::codes::are_keys(b)) by {
        assert forall|h: int| 0 <= h < b.len() implies (#[trigger] b[h]) < EQUIV_TABLE_SIZE by {
            let x = a[h];
        }
    }
}

/// Whether a group was moved to one of its other keys, and that was accepted.
pub open spec fn moved_off<S, F: Fn(&Evaluator, &Vec<u8>) -> S, G: Fn(&S, &S) -> bool>(
    ctx: &OptContext,
    simple: bool,
    score: &F,
    accept: &G,
    before: Seq<u8>,
    after: Seq<u8>,
    g: int,
) -> bool {
    exists|i: int|
        {
            &&& 0 <= i < others(ctx, before, g).len()
            &&& after == before.update(g, #[trigger] others(ctx, before, g)[i])
            &&& judged(ctx, simple, score, accept, before, after, true)
        }
}

/// Whether a group has no other key, or a move of it to one of them was refused.
pub open spec fn held<S, F: Fn(&Evaluator, &Vec<u8>) -> S, G: Fn(&S, &S) -> bool>(
    ctx: &OptContext,
    simple: bool,
    score: &F,
    accept: &G,
    a: Seq<u8>,
    g: int,
) -> bool {
    ||| others(ctx, a, g).len() == 0
    ||| exists|i: int|
        {
            &&& 0 <= i < others(ctx, a, g).len()
            &&& judged(ctx, simple, score, accept, a, a.update(g, #[trigger] others(ctx, a, g)[i]), false)
        }
}

/// Moves a group to the key at a place among its other keys, if that is accepted.
pub fn move_off<S, F: Fn(&Evaluator, &Vec<u8>) -> S, G: Fn(&S, &S) -> bool>(
    ctx: &OptContext,
    assignment: &mut Vec<u8>,
    evaluator: &mut Evaluator,
    gi: usize,
    pick: usize,
    score: &F,
    accept: &G,
) -> (moved: bool)
    requires
        ctx.wf_full(),
        ctx.wf_simple(),
        ctx.playable(),
        old(evaluator).in_step(ctx, old(assignment)@),
        old(evaluator).searches(),
        gi < ctx.num_groups(),
        pick < others(ctx, old(assignment)@, gi as int).len(),
        can_judge(score, accept),
    ensures
        final(evaluator).in_step(ctx, final(assignment)@),
        final(evaluator).searches(),
        final(evaluator).simple_active == old(evaluator).simple_active,
        final(evaluator).rebuilds() == old(evaluator).rebuilds(),
        final(assignment)@ == if moved {
            old(assignment)@.update(
                gi as int,
                others(ctx, old(assignment)@, gi as int)[pick as int],
            )
        } else {
            old(assignment)@
        },
        !moved ==> final(evaluator).same_state(old(evaluator)),
        judged(
            ctx,
            old(evaluator).simple_active,
            score,
            accept,
            old(assignment)@,
            old(assignment)@.update(gi as int, others(ctx, old(assignment)@, gi as int)[pick as int]),
            moved,
        ),
        ctx.permits(old(assignment)@) ==> ctx.permits(final(assignment)@),
{
    let ghost before = assignment@;
    let keys = other_keys(&ctx.groups[gi].allowed_keys, assignment[gi]);
    let k = keys[pick];
    proof {
        assert(ctx.choices(gi as int).contains(k));
        let at = ctx.choices(gi as int).index_of(k);
        assert(ctx.choices(gi as int)[at] < EQUIV_TABLE_SIZE);
        if ctx.permits(before) {
            move_permitted(ctx, before, gi as int, k);
        }
    }
    evaluator.try_move(ctx, assignment, gi, k, score, accept)
}

/// The groups of a pair, in the order in which they are tried.
pub open spec fn in_turn(pair: (usize, usize, u64), flip: bool) -> (usize, usize) {
    if flip {
        (pair.1, pair.0)
    } else {
        (pair.0, pair.1)
    }
}

/// Whether one of the first collisions of a list was taken on: its groups, in some order, were offered
/// one of their other keys, the second where the first did not move.
pub open spec fn resolved<S, F: Fn(&Evaluator, &Vec<u8>) -> S, G: Fn(&S, &S) -> bool>(
    ctx: &OptContext,
    simple: bool,
    score: &F,
    accept: &G,
    collisions: Seq<(usize, usize, u64)>,
    window: int,
    before: Seq<u8>,
    after: Seq<u8>,
    moved: bool,
) -> bool {
    exists|i: int, flip: bool|
        {
            &&& 0 <= i < collisions.len() && i < window
            &&& {
                let (first, second) = #[trigger] in_turn(collisions[i], flip);
                if moved {
                    ||| moved_off(ctx, simple, score, accept, before, after, first as int)
                    ||| held(ctx, simple, score, accept, before, first as int) && moved_off(
                        ctx,
                        simple,
                        score,
                        accept,
                        before,
                        after,
                        second as int,
                    )
                } else {
                    &&& held(ctx, simple, score, accept, before, first as int)
                    &&& held(ctx, simple, score, accept, before, second as int)
                }
            }
        }
}

/// Whether a group was offered the key at a place among its other keys, if it has any.
pub open spec fn offered<S, F: Fn(&Evaluator, &Vec<u8>) -> S, G: Fn(&S, &S) -> bool>(
    ctx: &OptContext,
    simple: bool,
    score: &F,
    accept: &G,
    a: Seq<u8>,
    b: Seq<u8>,
    g: int,
    pick: int,
    moved: bool,
) -> bool {
    if others(ctx, a, g).len() == 0 {
        !moved && b == a
    } else {
        let there = a.update(g, others(ctx, a, g)[pick]);
        &&& b == if moved {
            there
        } else {
            a
        }
        &&& judged(ctx, simple, score, accept, a, there, moved)
    }
}

/// Whether a place is one among the other keys of a group, if it has any.
pub open spec fn picks_among(ctx: &OptContext, a: Seq<u8>, g: int, pick: int) -> bool {
    others(ctx, a, g).len() > 0 ==> 0 <= pick < others(ctx, a, g).len()
}

/// A group that was offered a key moved off its own, or stayed where it was.
proof fn offer_taken_or_not<S, F: Fn(&Evaluator, &Vec<u8>) -> S, G: Fn(&S, &S) -> bool>(
    ctx: &OptContext,
    simple: bool,
    score: &F,
    accept: &G,
    a: Seq<u8>,
    b: Seq<u8>,
    g: int,
    pick: int,
    moved: bool,
)
    requires
        offered(ctx, simple, score, accept, a, b, g, pick, moved),
        picks_among(ctx, a, g, pick),
    ensures
        moved ==> moved_off(ctx, simple, score, accept, a, b, g),
        !moved ==> held(ctx, simple, score, accept, a, g) && b == a,
{
    if others(ctx, a, g).len() > 0 {
        let k = others(ctx, a, g)[pick];
    }
}

/// Offers a group the key at a place among its other keys, if it has any: it moves there if that is
/// accepted.
pub fn offer_key<S, F: Fn(&Evaluator, &Vec<u8>) -> S, G: Fn(&S, &S) -> bool>(
    ctx: &OptContext,
    assignment: &mut Vec<u8>,
    evaluator: &mut Evaluator,
    gi: usize,
    pick: usize,
    score: &F,
    accept: &G,
) -> (moved: bool)
    requires
        ctx.wf_full(),
        ctx.wf_simple(),
        ctx.playable(),
        old(evaluator).in_step(ctx, old(assignment)@),
        old(evaluator).searches(),
        gi < ctx.num_groups(),
        picks_among(ctx, old(assignment)@, gi as int, pick as int),
        can_judge(score, accept),
    ensures
        final(evaluator).in_step(ctx, final(assignment)@),
        final(evaluator).searches(),
        final(evaluator).simple_active == old(evaluator).simple_active,
        final(evaluator).rebuilds() == old(evaluator).rebuilds(),
        !moved ==> final(assignment)@ == old(assignment)@ && final(evaluator).same_state(old(evaluator)),
        offered(
            ctx,
            old(evaluator).simple_active,
            score,
            accept,
            old(assignment)@,
            final(assignment)@,
            gi as int,
            pick as int,
            moved,
        ),
        ctx.permits(old(assignment)@) ==> ctx.permits(final(assignment)@),
{
    if other_keys(&ctx.groups[gi].allowed_keys, assignment[gi]).len() == 0 {
        false
    } else {
        move_off(ctx, assignment, evaluator, gi, pick, score, accept)
    }
}

/// Two groups that collide, in the order in which they are tried, and for each a place among its
/// other keys.
#[derive(Clone, Copy, Debug)]
pub struct PairDraw {
    pub first: usize,
    pub second: usize,
    pub pick_first: usize,
    pub pick_second: usize,
}

impl PairDraw {
    /// The groups are there, and the places are among their other keys.
    pub open spec fn fits(&self, ctx: &OptContext, a: Seq<u8>) -> bool {
        &&& self.first < ctx.num_groups()
        &&& self.second < ctx.num_groups()
        &&& picks_among(ctx, a, self.first as int, self.pick_first as int)
        &&& picks_among(ctx, a, self.second as int, self.pick_second as int)
    }

    /// The groups are those of one of the first collisions of a list.
    pub open spec fn drawn_from(&self, collisions: Seq<(usize, usize, u64)>, window: int) -> bool {
        exists|i: int, flip: bool|
            0 <= i < collisions.len() && i < window && #[trigger] in_turn(collisions[i], flip) == (
                self.first,
                self.second,
            )
    }
}

/// Whether two groups were offered keys, the second where the first did not move.
pub open spec fn pair_tried<S, F: Fn(&Evaluator, &Vec<u8>) -> S, G: Fn(&S, &S) -> bool>(
    ctx: &OptContext,
    simple: bool,
    score: &F,
    accept: &G,
    a: Seq<u8>,
    b: Seq<u8>,
    draw: PairDraw,
    moved: bool,
) -> bool {
    ||| moved && offered(ctx, simple, score, accept, a, b, draw.first as int, draw.pick_first as int, true)
    ||| {
        &&& offered(ctx, simple, score, accept, a, a, draw.first as int, draw.pick_first as int, false)
        &&& offered(ctx, simple, score, accept, a, b, draw.second as int, draw.pick_second as int, moved)
    }
}

/// Offers two groups keys that were drawn, the second where the first does not move.
pub fn resolve_pair<S, F: Fn(&Evaluator, &Vec<u8>) -> S, G: Fn(&S, &S) -> bool>(
    ctx: &OptContext,
    assignment: &mut Vec<u8>,
    evaluator: &mut Evaluator,
    draw: PairDraw,
    score: &F,
    accept: &G,
) -> (moved: bool)
    requires
        ctx.wf_full(),
        ctx.wf_simple(),
        ctx.playable(),
        old(evaluator).in_step(ctx, old(assignment)@),
        old(evaluator).searches(),
        draw.fits(ctx, old(assignment)@),
        can_judge(score, accept),
    ensures
        final(evaluator).in_step(ctx, final(assignment)@),
        final(evaluator).searches(),
        final(evaluator).simple_active == old(evaluator).simple_active,
        final(evaluator).rebuilds() == old(evaluator).rebuilds(),
        !moved ==> final(assignment)@ == old(assignment)@ && final(evaluator).same_state(old(evaluator)),
        pair_tried(
            ctx,
            old(evaluator).simple_active,
            score,
            accept,
            old(assignment)@,
            final(assignment)@,
            draw,
            moved,
        ),
        ctx.permits(old(assignment)@) ==> ctx.permits(final(assignment)@),
{
    if offer_key(ctx, assignment, evaluator, draw.first, draw.pick_first, score, accept) {
        true
    } else {
        offer_key(ctx, assignment, evaluator, draw.second, draw.pick_second, score, accept)
    }
}

/// Draws a place among the other keys of a group.
fn draw_place(ctx: &OptContext, assignment: &Vec<u8>, gi: usize, rng: &mut ThreadRng) -> (pick: usize)
    requires
        gi < ctx.num_groups(),
        assignment@.len() == ctx.num_groups(),
    ensures
        picks_among(ctx, assignment@, gi as int, pick as int),
{
    let room = other_keys(&ctx.groups[gi].allowed_keys, assignment[gi]).len();
    if room > 0 {
        below(rng, room)
    } else {
        0
    }
}

/// Draws one of the first collisions of a list, the order of its groups and the keys that they are
/// offered.
pub fn draw_pair(
    ctx: &OptContext,
    assignment: &Vec<u8>,
    collisions: &Vec<(usize, usize, u64)>,
    sample_window: usize,
    rng: &mut ThreadRng,
) -> (draw: PairDraw)
    requires
        assignment@.len() == ctx.num_groups(),
        collisions@.len() > 0,
        sample_window > 0,
        forall|i: int|
            0 <= i < collisions@.len() ==> (#[trigger] collisions@[i]).0 < ctx.num_groups()
                && collisions@[i].1 < ctx.num_groups(),
    ensures
        draw.fits(ctx, assignment@),
        draw.drawn_from(collisions@, sample_window as int),
{
    let window: usize = if sample_window < collisions.len() {
        sample_window
    } else {
        collisions.len()
    };
    let idx = below(rng, window);
    let pair = collisions[idx];
    assert(collisions@[idx as int].0 < ctx.num_groups() && collisions@[idx as int].1 < ctx.num_groups());
    let flip = !coin(rng);
    let (first, second) = if flip {
        (pair.1, pair.0)
    } else {
        (pair.0, pair.1)
    };
    assert((first, second) == in_turn(collisions@[idx as int], flip));
    let pick_first = draw_place(ctx, assignment, first, rng);
    let pick_second = draw_place(ctx, assignment, second, rng);
    PairDraw { first, second, pick_first, pick_second }
}

/// Tries to move a group of one of the first collisions, then the other, to a key drawn among its
/// other keys. The collision, the order and the keys are drawn at random.
pub fn try_resolve_conflict<S, F: Fn(&Evaluator, &Vec<u8>) -> S, G: Fn(&S, &S) -> bool>(
    ctx: &OptContext,
    assignment: &mut Vec<u8>,
    evaluator: &mut Evaluator,
    collisions: &Vec<(usize, usize, u64)>,
    sample_window: usize,
    rng: &mut ThreadRng,
    score: &F,
    accept: &G,
) -> (moved: bool)
    requires
        ctx.wf_full(),
        ctx.wf_simple(),
        ctx.playable(),
        old(evaluator).in_step(ctx, old(assignment)@),
        old(evaluator).searches(),
        forall|i: int|
            0 <= i < collisions@.len() ==> (#[trigger] collisions@[i]).0 < ctx.num_groups()
                && collisions@[i].1 < ctx.num_groups(),
        can_judge(score, accept),
    ensures
        final(evaluator).in_step(ctx, final(assignment)@),
        final(evaluator).searches(),
        final(evaluator).simple_active == old(evaluator).simple_active,
        final(evaluator).rebuilds() == old(evaluator).rebuilds(),
        collisions@.len() == 0 || sample_window == 0 ==> !moved,
        !moved ==> final(assignment)@ == old(assignment)@ && final(evaluator).same_state(old(evaluator)),
        collisions@.len() > 0 && sample_window > 0 ==> resolved(
            ctx,
            old(evaluator).simple_active,
            score,
            accept,
            collisions@,
            sample_window as int,
            old(assignment)@,
            final(assignment)@,
            moved,
        ),
        ctx.permits(old(assignment)@) ==> ctx.permits(final(assignment)@),
{
    let ghost simple = evaluator.simple_active;
    if collisions.len() == 0 || sample_window == 0 {
        return false;
    }
    let ghost before = assignment@;
    let draw = draw_pair(ctx, assignment, collisions, sample_window, rng);
    let moved = resolve_pair(ctx, assignment, evaluator, draw, score, accept);
    proof {
        let (i, flip) = choose|i: int, flip: bool|
            0 <= i < collisions@.len() && i < sample_window && #[trigger] in_turn(collisions@[i], flip) == (
                draw.first,
                draw.second,
            );
        let x = in_turn(collisions@[i], flip);
        let (g, p) = (draw.first as int, draw.pick_first as int);
        let (h, q) = (draw.second as int, draw.pick_second as int);
        if moved && offered(ctx, simple, score, accept, before, assignment@, g, p, true) {
            offer_taken_or_not(ctx, simple, score, accept, before, assignment@, g, p, true);
        } else {
            offer_taken_or_not(ctx, simple, score, accept, before, before, g, p, false);
            offer_taken_or_not(ctx, simple, score, accept, before, assignment@, h, q, moved);
        }
    }
    moved
}

/// Whether some group was offered one of its other keys.
pub open spec fn reorganised<S, F: Fn(&Evaluator, &Vec<u8>) -> S, G: Fn(&S, &S) -> bool>(
    ctx: &OptContext,
    simple: bool,
    score: &F,
    accept: &G,
    before: Seq<u8>,
    after: Seq<u8>,
    moved: bool,
) -> bool {
    exists|g: int|
        {
            &&& 0 <= g < ctx.num_groups()
            &&& if moved {
                #[trigger] moved_off(ctx, simple, score, accept, before, after, g)
            } else {
                held(ctx, simple, score, accept, before, g)
            }
        }
}

/// Draws a group, among those on the key of a group drawn at random, and a place among its other
/// keys.
pub fn draw_off(ctx: &OptContext, assignment: &Vec<u8>, rng: &mut ThreadRng) -> (r: (usize, usize))
    requires
        ctx.wf_full(),
        ctx.assigns(assignment@),
        assignment@.len() > 0,
    ensures
        r.0 < ctx.num_groups(),
        picks_among(ctx, assignment@, r.0 as int, r.1 as int),
{
    let drawn = below(rng, assignment.len());
    let k1 = assignment[drawn];
    let on_key = find_groups_on_key(ctx, assignment.as_slice(), k1);
    proof {
        let p = |g: int| assignment@[g] == k1;
        assert(p(drawn as int));
        assert(on_key@.contains(drawn as usize));
    }
    let at = below(rng, on_key.len());
    let gi = on_key[at];
    proof {
        let p = |g: int| assignment@[g] == k1;
        assert(on_key@[at as int] < ctx.num_groups() && p(on_key@[at as int] as int));
    }
    (gi, draw_place(ctx, assignment, gi, rng))
}

/// Tries to move a group off its key. The key is that of a group drawn at random, and the group is
/// drawn among those on it.
pub fn try_key_reorganization<S, F: Fn(&Evaluator, &Vec<u8>) -> S, G: Fn(&S, &S) -> bool>(
    ctx: &OptContext,
    assignment: &mut Vec<u8>,
    evaluator: &mut Evaluator,
    rng: &mut ThreadRng,
    score: &F,
    accept: &G,
) -> (moved: bool)
    requires
        ctx.wf_full(),
        ctx.wf_simple(),
        ctx.playable(),
        old(evaluator).in_step(ctx, old(assignment)@),
        old(evaluator).searches(),
        can_judge(score, accept),
    ensures
        final(evaluator).in_step(ctx, final(assignment)@),
        final(evaluator).searches(),
        final(evaluator).simple_active == old(evaluator).simple_active,
        final(evaluator).rebuilds() == old(evaluator).rebuilds(),
        old(assignment)@.len() < 2 ==> !moved,
        !moved ==> final(assignment)@ == old(assignment)@ && final(evaluator).same_state(old(evaluator)),
        old(assignment)@.len() >= 2 ==> reorganised(
            ctx,
            old(evaluator).simple_active,
            score,
            accept,
            old(assignment)@,
            final(assignment)@,
            moved,
        ),
        ctx.permits(old(assignment)@) ==> ctx.permits(final(assignment)@),
{
    let ghost simple = evaluator.simple_active;
    if assignment.len() < 2 {
        return false;
    }
    let ghost before = assignment@;
    let (gi, pick) = draw_off(ctx, assignment, rng);
    let moved = offer_key(ctx, assignment, evaluator, gi, pick, score, accept);
    proof {
        offer_taken_or_not(ctx, simple, score, accept, before, assignment@, gi as int, pick as int, moved);
        let off = moved_off(ctx, simple, score, accept, before, assignment@, gi as int);
    }
    moved
}

/// Whether some three groups were to pass their keys on, where they can.
pub open spec fn passed_on<S, F: Fn(&Evaluator, &Vec<u8>) -> S, G: Fn(&S, &S) -> bool>(
    ctx: &OptContext,
    simple: bool,
    score: &F,
    accept: &G,
    before: Seq<u8>,
    after: Seq<u8>,
    moved: bool,
) -> bool {
    exists|g1: int, g2: int, g3: int|
        {
            &&& distinct_groups(ctx, g1, g2, g3)
            &&& {
                let turned = #[trigger] rotated(before, g1, g2, g3);
                let can = rotatable(ctx, before, g1, g2, g3);
                &&& moved ==> can && after == turned
                &&& can ==> judged(ctx, simple, score, accept, before, turned, moved)
            }
        }
}

/// Whether three groups were to pass their keys on, where they can.
pub open spec fn rotation_tried<S, F: Fn(&Evaluator, &Vec<u8>) -> S, G: Fn(&S, &S) -> bool>(
    ctx: &OptContext,
    simple: bool,
    score: &F,
    accept: &G,
    a: Seq<u8>,
    b: Seq<u8>,
    g1: int,
    g2: int,
    g3: int,
    moved: bool,
) -> bool {
    &&& b == if moved {
        rotated(a, g1, g2, g3)
    } else {
        a
    }
    &&& if rotatable(ctx, a, g1, g2, g3) {
        judged(ctx, simple, score, accept, a, rotated(a, g1, g2, g3), moved)
    } else {
        !moved
    }
}

/// Passes on the keys of three groups, where they can and that is accepted.
pub fn rotate_three<S, F: Fn(&Evaluator, &Vec<u8>) -> S, G: Fn(&S, &S) -> bool>(
    ctx: &OptContext,
    assignment: &mut Vec<u8>,
    evaluator: &mut Evaluator,
    g1: usize,
    g2: usize,
    g3: usize,
    score: &F,
    accept: &G,
) -> (moved: bool)
    requires
        ctx.wf_full(),
        ctx.wf_simple(),
        old(evaluator).in_step(ctx, old(assignment)@),
        old(evaluator).searches(),
        distinct_groups(ctx, g1 as int, g2 as int, g3 as int),
        can_judge(score, accept),
    ensures
        final(evaluator).in_step(ctx, final(assignment)@),
        final(evaluator).searches(),
        final(evaluator).simple_active == old(evaluator).simple_active,
        final(evaluator).rebuilds() == old(evaluator).rebuilds(),
        !moved ==> final(assignment)@ == old(assignment)@ && final(evaluator).same_state(old(evaluator)),
        rotation_tried(
            ctx,
            old(evaluator).simple_active,
            score,
            accept,
            old(assignment)@,
            final(assignment)@,
            g1 as int,
            g2 as int,
            g3 as int,
            moved,
        ),
        ctx.permits(old(assignment)@) ==> ctx.permits(final(assignment)@),
{
    let ghost before = assignment@;
    let moved = evaluator.try_rotation(ctx, assignment, g1, g2, g3, score, accept);
    proof {
        if moved && ctx.permits(before) {
            rotation_permitted(ctx, before, g1 as int, g2 as int, g3 as int);
        }
    }
    moved
}

/// Draws three numbers below `n`, all different.
pub fn draw_three(n: usize, rng: &mut ThreadRng) -> (r: (usize, usize, usize))
    requires
        n >= 3,
    ensures
        r.0 < n && r.1 < n && r.2 < n,
        r.0 != r.1 && r.1 != r.2 && r.0 != r.2,
{
    let drawn = distinct_below(rng, n, 3);
    assert(drawn@[0] != drawn@[1] && drawn@[1] != drawn@[2] && drawn@[0] != drawn@[2]);
    (drawn[0], drawn[1], drawn[2])
}

/// Tries to pass on the keys of three groups drawn at random.
pub fn try_triple_swap<S, F: Fn(&Evaluator, &Vec<u8>) -> S, G: Fn(&S, &S) -> bool>(
    ctx: &OptContext,
    assignment: &mut Vec<u8>,
    evaluator: &mut Evaluator,
    rng: &mut ThreadRng,
    score: &F,
    accept: &G,
) -> (moved: bool)
    requires
        ctx.wf_full(),
        ctx.wf_simple(),
        old(evaluator).in_step(ctx, old(assignment)@),
        old(evaluator).searches(),
        can_judge(score, accept),
    ensures
        final(evaluator).in_step(ctx, final(assignment)@),
        final(evaluator).searches(),
        final(evaluator).simple_active == old(evaluator).simple_active,
        final(evaluator).rebuilds() == old(evaluator).rebuilds(),
        old(assignment)@.len() < 3 ==> !moved,
        !moved ==> final(assignment)@ == old(assignment)@ && final(evaluator).same_state(old(evaluator)),
        old(assignment)@.len() >= 3 ==> passed_on(
            ctx,
            old(evaluator).simple_active,
            score,
            accept,
            old(assignment)@,
            final(assignment)@,
            moved,
        ),
        ctx.permits(old(assignment)@) ==> ctx.permits(final(assignment)@),
{
    let n = assignment.len();
    if n < 3 {
        return false;
    }
    let ghost before = assignment@;
    let (g1, g2, g3) = draw_three(n, rng);
    let moved = rotate_three(ctx, assignment, evaluator, g1, g2, g3, score, accept);
    proof {
        let after = rotated(before, g1 as int, g2 as int, g3 as int);
    }
    moved
}

/// Three groups, all different.
pub open spec fn distinct_groups(ctx: &OptContext, g1: int, g2: int, g3: int) -> bool {
    &&& 0 <= g1 < ctx.num_groups()
    &&& 0 <= g2 < ctx.num_groups()
    &&& 0 <= g3 < ctx.num_groups()
    &&& g1 != g2 && g2 != g3 && g1 != g3
}

/// Passing keys on where that is permitted keeps an assignment permitted.
pub proof fn rotation_permitted(ctx: &OptContext, a: Seq<u8>, g1: int, g2: int, g3: int)
    requires
        ctx.permits(a),
        distinct_groups(ctx, g1, g2, g3),
        rotatable(ctx, a, g1, g2, g3),
    ensures
        ctx.permits(rotated(a, g1, g2, g3)),
{
    let (k1, k2, k3) = (a[g1], a[g2], a[g3]);
    move_permitted(ctx, a, g1, k2);
    move_permitted(ctx, a.update(g1, k2), g2, k3);
    move_permitted(ctx, a.update(g1, k2).update(g2, k3), g3, k1);
}

/// Swapping keys where that is permitted keeps an assignment permitted.
pub proof fn swap_permitted(ctx: &OptContext, a: Seq<u8>, r1: int, r2: int)
    requires
        ctx.permits(a),
        0 <= r1 < a.len(),
        0 <= r2 < a.len(),
        ctx.choices(r1).contains(a[r2]),
        ctx.choices(r2).contains(a[r1]),
    ensures
        ctx.permits(crate::moves::swapped(a, r1, r2)),
{
    let (k1, k2) = (a[r1], a[r2]);
    move_permitted(ctx, a, r1, k2);
    move_permitted(ctx, a.update(r1, k2), r2, k1);
}

} // verus!
