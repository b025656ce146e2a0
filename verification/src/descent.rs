//! Coordinate descent: group by group, the best key, until no single group has a better one.

use vstd::prelude::*;

use crate::climb::{climb_begins, climb_goes_on, climb_joins, climbed, simple_on};
use crate::context::OptContext;
use crate::evaluator::Evaluator;
use crate::moves::{can_judge, judged, scored};
use crate::neighbours::move_permitted;
use crate::types::EQUIV_TABLE_SIZE;

verus! {

/// Whether, of key `k0` with score `s0` and key `c`, which leads to assignment `b`, the better one is
/// key `k` with score `s`.
pub open spec fn kept_better<S, F: Fn(&Evaluator, &Vec<u8>) -> S, G: Fn(&S, &S) -> bool>(
    ctx: &OptContext,
    simple: bool,
    score: &F,
    better: &G,
    b: Seq<u8>,
    c: u8,
    k0: u8,
    s0: S,
    k: u8,
    s: S,
) -> bool {
    exists|t: S|
        {
            &&& #[trigger] scored(ctx, simple, score, b, t)
            &&& {
                ||| call_ensures(better, (&s0, &t), true) && k == c && s == t
                ||| call_ensures(better, (&s0, &t), false) && k == k0 && s == s0
            }
        }
}

/// Whether key `k`, with score `s`, is what is left after the first `j` keys of a group were held
/// against the best so far, in turn. The key that the group is on comes first.
pub open spec fn sifted<S, F: Fn(&Evaluator, &Vec<u8>) -> S, G: Fn(&S, &S) -> bool>(
    ctx: &OptContext,
    simple: bool,
    score: &F,
    better: &G,
    a: Seq<u8>,
    g: int,
    j: int,
    k: u8,
    s: S,
) -> bool
    decreases j,
{
    if j <= 0 {
        k == a[g] && scored(ctx, simple, score, a, s)
    } else {
        let c = ctx.choices(g)[j - 1];
        if c == a[g] {
            sifted(ctx, simple, score, better, a, g, j - 1, k, s)
        } else {
            exists|k0: u8, s0: S|
                {
                    &&& sifted(ctx, simple, score, better, a, g, j - 1, k0, s0)
                    &&& #[trigger] kept_better(ctx, simple, score, better, a.update(g, c), c, k0, s0, k, s)
                }
        }
    }
}

/// Whether key `k`, with score `s`, is the best of a group: it is left after all its keys were sifted.
pub open spec fn best_of<S, F: Fn(&Evaluator, &Vec<u8>) -> S, G: Fn(&S, &S) -> bool>(
    ctx: &OptContext,
    simple: bool,
    score: &F,
    better: &G,
    a: Seq<u8>,
    g: int,
    k: u8,
    s: S,
) -> bool {
    sifted(ctx, simple, score, better, a, g, ctx.choices(g).len() as int, k, s)
}

/// Whether one assignment becomes another when a group goes to its best key.
pub open spec fn settles<S, F: Fn(&Evaluator, &Vec<u8>) -> S, G: Fn(&S, &S) -> bool>(
    ctx: &OptContext,
    simple: bool,
    score: &F,
    better: &G,
    a: Seq<u8>,
    g: int,
    b: Seq<u8>,
) -> bool {
    exists|k: u8, s: S| #[trigger] best_of(ctx, simple, score, better, a, g, k, s) && b == a.update(g, k)
}

/// Whether a list of assignments is the course of a round: each group, in turn, goes to its best key.
pub open spec fn is_round<S, F: Fn(&Evaluator, &Vec<u8>) -> S, G: Fn(&S, &S) -> bool>(
    ctx: &OptContext,
    simple: bool,
    score: &F,
    better: &G,
    trail: Seq<Seq<u8>>,
) -> bool {
    &&& trail.len() == ctx.num_groups() + 1
    &&& forall|g: int|
        #![trigger trail[g]]
        0 <= g < ctx.num_groups() ==> settles(ctx, simple, score, better, trail[g], g, trail[g + 1])
}

/// Whether a round leads from one assignment to another.
pub open spec fn round_leads<S, F: Fn(&Evaluator, &Vec<u8>) -> S, G: Fn(&S, &S) -> bool>(
    ctx: &OptContext,
    simple: bool,
    score: &F,
    better: &G,
    a: Seq<u8>,
    b: Seq<u8>,
) -> bool {
    exists|trail: Seq<Seq<u8>>| #[trigger]
        is_round(ctx, simple, score, better, trail) && trail[0] == a && trail.last() == b
}

/// Whether a list of assignments is the course of a descent: rounds that change something, and one at
/// the end that does not.
pub open spec fn is_descent<S, F: Fn(&Evaluator, &Vec<u8>) -> S, G: Fn(&S, &S) -> bool>(
    ctx: &OptContext,
    simple: bool,
    score: &F,
    better: &G,
    rounds: Seq<Seq<u8>>,
) -> bool {
    &&& rounds.len() >= 2
    &&& forall|i: int|
        #![trigger rounds[i]]
        0 <= i < rounds.len() - 1 ==> {
            &&& round_leads(ctx, simple, score, better, rounds[i], rounds[i + 1])
            &&& rounds[i] == rounds[i + 1] <==> i == rounds.len() - 2
        }
}

/// Whether a descent leads from one assignment to another.
pub open spec fn descends<S, F: Fn(&Evaluator, &Vec<u8>) -> S, G: Fn(&S, &S) -> bool>(
    ctx: &OptContext,
    simple: bool,
    score: &F,
    better: &G,
    from: Seq<u8>,
    to: Seq<u8>,
) -> bool {
    exists|rounds: Seq<Seq<u8>>| #[trigger]
        is_descent(ctx, simple, score, better, rounds) && rounds[0] == from && rounds.last() == to
}

/// Whether no key of a group is better than the one it is on.
pub open spec fn settled_at<S, F: Fn(&Evaluator, &Vec<u8>) -> S, G: Fn(&S, &S) -> bool>(
    ctx: &OptContext,
    simple: bool,
    score: &F,
    better: &G,
    a: Seq<u8>,
    g: int,
) -> bool {
    forall|i: int|
        #![trigger ctx.choices(g)[i]]
        0 <= i < ctx.choices(g).len() && ctx.choices(g)[i] != a[g] ==> judged(
            ctx,
            simple,
            score,
            better,
            a,
            a.update(g, ctx.choices(g)[i]),
            false,
        )
}

/// What is left after sifting is reached by improvements alone.
proof fn sifted_climbs<S, F: Fn(&Evaluator, &Vec<u8>) -> S, G: Fn(&S, &S) -> bool>(
    ctx: &OptContext,
    simple: bool,
    score: &F,
    better: &G,
    a: Seq<u8>,
    g: int,
    j: int,
    k: u8,
    s: S,
)
    requires
        0 <= g < a.len(),
        sifted(ctx, simple, score, better, a, g, j, k, s),
    ensures
        scored(ctx, simple, score, a.update(g, k), s),
        climbed(ctx, simple, score, better, a, a.update(g, k)),
    decreases j,
{
    if j <= 0 {
        assert(a.update(g, k) =~= a);
        climb_begins(ctx, simple, score, better, a);
    } else {
        let c = ctx.choices(g)[j - 1];
        if c == a[g] {
            sifted_climbs(ctx, simple, score, better, a, g, j - 1, k, s);
        } else {
            let (k0, s0) = choose|k0: u8, s0: S|
                {
                    &&& sifted(ctx, simple, score, better, a, g, j - 1, k0, s0)
                    &&& #[trigger] kept_better(ctx, simple, score, better, a.update(g, c), c, k0, s0, k, s)
                };
            sifted_climbs(ctx, simple, score, better, a, g, j - 1, k0, s0);
            if !(k == k0 && s == s0) {
                assert(judged(ctx, simple, score, better, a.update(g, k0), a.update(g, c), true));
                climb_goes_on(ctx, simple, score, better, a, a.update(g, k0), a.update(g, c));
            }
        }
    }
}

/// If the group stays, none of the keys was better.
proof fn sifted_stays<S, F: Fn(&Evaluator, &Vec<u8>) -> S, G: Fn(&S, &S) -> bool>(
    ctx: &OptContext,
    simple: bool,
    score: &F,
    better: &G,
    a: Seq<u8>,
    g: int,
    j: int,
    s: S,
)
    requires
        0 <= j <= ctx.choices(g).len(),
        0 <= g < a.len(),
        sifted(ctx, simple, score, better, a, g, j, a[g], s),
    ensures
        scored(ctx, simple, score, a, s),
        forall|i: int|
            #![trigger ctx.choices(g)[i]]
            0 <= i < j && ctx.choices(g)[i] != a[g] ==> judged(
                ctx,
                simple,
                score,
                better,
                a,
                a.update(g, ctx.choices(g)[i]),
                false,
            ),
    decreases j,
{
    if j > 0 {
        let c = ctx.choices(g)[j - 1];
        if c == a[g] {
            sifted_stays(ctx, simple, score, better, a, g, j - 1, s);
        } else {
            let (k0, s0) = choose|k0: u8, s0: S|
                {
                    &&& sifted(ctx, simple, score, better, a, g, j - 1, k0, s0)
                    &&& #[trigger] kept_better(ctx, simple, score, better, a.update(g, c), c, k0, s0, a[g], s)
                };
            sifted_stays(ctx, simple, score, better, a, g, j - 1, s0);
            assert(judged(ctx, simple, score, better, a, a.update(g, c), false));
        }
    }
}

/// The best key of a group: the keys are tried in turn, and each that is better than the best so
/// far takes its place. Everything is put back.
pub fn best_key<S, F: Fn(&Evaluator, &Vec<u8>) -> S, G: Fn(&S, &S) -> bool>(
    ctx: &OptContext,
    assignment: &mut Vec<u8>,
    evaluator: &mut Evaluator,
    gi: usize,
    score: &F,
    better: &G,
) -> (r: (u8, S))
    requires
        ctx.wf_full(),
        ctx.wf_simple(),
        ctx.playable(),
        old(evaluator).in_step(ctx, old(assignment)@),
        old(evaluator).searches(),
        gi < ctx.num_groups(),
        can_judge(score, better),
    ensures
        final(assignment)@ == old(assignment)@,
        final(evaluator).in_step(ctx, final(assignment)@),
        final(evaluator).searches(),
        final(evaluator).same_state(old(evaluator)),
        final(evaluator).rebuilds() == old(evaluator).rebuilds(),
        sifted(
            ctx,
            old(evaluator).simple_active,
            score,
            better,
            old(assignment)@,
            gi as int,
            ctx.choices(gi as int).len() as int,
            r.0,
            r.1,
        ),
        r.0 == old(assignment)@[gi as int] || ctx.choices(gi as int).contains(r.0),
        r.0 < EQUIV_TABLE_SIZE,
{
    let ghost simple = evaluator.simple_active;
    let ghost a = assignment@;
    let ghost start = *evaluator;
    let current = assignment[gi];
    let mut best = current;
    let mut best_score = score(&*evaluator, &*assignment);
    proof {
        assert(call_ensures(score, (&*evaluator, &*assignment), best_score));
        assert(scored(ctx, simple, score, a, best_score));
        assert(a[gi as int] < EQUIV_TABLE_SIZE);
    }
    let choices = &ctx.groups[gi].allowed_keys;
    let mut j: usize = 0;
    while j < choices.len()
        invariant
            ctx.wf_full(),
            ctx.wf_simple(),
            ctx.playable(),
            can_judge(score, better),
            gi < ctx.num_groups(),
            choices@ == ctx.choices(gi as int),
            j <= choices@.len(),
            current == a[gi as int],
            assignment@ == a,
            evaluator.in_step(ctx, a),
            evaluator.searches(),
            evaluator.simple_active == simple,
            evaluator.same_state(&start),
            evaluator.rebuilds() == start.rebuilds(),
            sifted(ctx, simple, score, better, a, gi as int, j as int, best, best_score),
            best == current || choices@.contains(best),
            best < EQUIV_TABLE_SIZE,
        decreases choices@.len() - j,
    {
        let k = choices[j];
        assert(ctx.choices(gi as int)[j as int] < EQUIV_TABLE_SIZE);
        if k != current {
            let s = evaluator.probe_move(ctx, assignment, gi, k, score);
            let ghost (k0, s0) = (best, best_score);
            assert(scored(ctx, simple, score, a.update(gi as int, k), s));
            if better(&best_score, &s) {
                assert(call_ensures(better, (&s0, &s), true));
                assert(kept_better(ctx, simple, score, better, a.update(gi as int, k), k, k0, s0, k, s));
                assert(sifted(ctx, simple, score, better, a, gi as int, j + 1, k, s));
                best_score = s;
                best = k;
                assert(choices@.contains(k));
            } else {
                assert(call_ensures(better, (&s0, &s), false));
                assert(kept_better(ctx, simple, score, better, a.update(gi as int, k), k, k0, s0, k0, s0));
                assert(sifted(ctx, simple, score, better, a, gi as int, j + 1, best, best_score));
            }
        }
        j = j + 1;
    }
    (best, best_score)
}

/// Whether improvements lower a rank.
pub open spec fn falls<S, F: Fn(&Evaluator, &Vec<u8>) -> S, G: Fn(&S, &S) -> bool>(
    ctx: &OptContext,
    simple: bool,
    score: &F,
    better: &G,
    rank: spec_fn(Seq<u8>) -> nat,
) -> bool {
    forall|a: Seq<u8>, b: Seq<u8>| #[trigger]
        judged(ctx, simple, score, better, a, b, true) ==> rank(b) < rank(a)
}

/// Whether improvements come to an end: some rank falls with each.
pub open spec fn well_founded<S, F: Fn(&Evaluator, &Vec<u8>) -> S, G: Fn(&S, &S) -> bool>(
    ctx: &OptContext,
    simple: bool,
    score: &F,
    better: &G,
) -> bool {
    exists|rank: spec_fn(Seq<u8>) -> nat| #[trigger] falls(ctx, simple, score, better, rank)
}

/// A group that moves lowers the rank.
proof fn sifted_falls<S, F: Fn(&Evaluator, &Vec<u8>) -> S, G: Fn(&S, &S) -> bool>(
    ctx: &OptContext,
    simple: bool,
    score: &F,
    better: &G,
    a: Seq<u8>,
    g: int,
    j: int,
    k: u8,
    s: S,
    rank: spec_fn(Seq<u8>) -> nat,
)
    requires
        0 <= g < a.len(),
        sifted(ctx, simple, score, better, a, g, j, k, s),
        falls(ctx, simple, score, better, rank),
    ensures
        k == a[g] || rank(a.update(g, k)) < rank(a),
    decreases j,
{
    if j > 0 {
        let c = ctx.choices(g)[j - 1];
        if c == a[g] {
            sifted_falls(ctx, simple, score, better, a, g, j - 1, k, s, rank);
        } else {
            let (k0, s0) = choose|k0: u8, s0: S|
                {
                    &&& sifted(ctx, simple, score, better, a, g, j - 1, k0, s0)
                    &&& #[trigger] kept_better(ctx, simple, score, better, a.update(g, c), c, k0, s0, k, s)
                };
            sifted_falls(ctx, simple, score, better, a, g, j - 1, k0, s0, rank);
            sifted_climbs(ctx, simple, score, better, a, g, j - 1, k0, s0);
            if !(k == k0 && s == s0) {
                assert(judged(ctx, simple, score, better, a.update(g, k0), a.update(g, c), true));
                if k0 == a[g] {
                    assert(a.update(g, k0) =~= a);
                }
            }
        }
    }
}

/// One round of a descent: each group, in turn, goes to its best key. Says whether any group moved.
pub fn descent_round<S, F: Fn(&Evaluator, &Vec<u8>) -> S, G: Fn(&S, &S) -> bool>(
    ctx: &OptContext,
    assignment: &mut Vec<u8>,
    evaluator: &mut Evaluator,
    score: &F,
    better: &G,
) -> (improved: bool)
    requires
        ctx.wf_full(),
        ctx.wf_simple(),
        ctx.playable(),
        old(evaluator).in_step(ctx, old(assignment)@),
        old(evaluator).searches(),
        can_judge(score, better),
    ensures
        final(evaluator).in_step(ctx, final(assignment)@),
        final(evaluator).searches(),
        final(evaluator).simple_active == old(evaluator).simple_active,
        final(evaluator).rebuilds() == old(evaluator).rebuilds(),
        round_leads(ctx, old(evaluator).simple_active, score, better, old(assignment)@, final(assignment)@),
        climbed(ctx, old(evaluator).simple_active, score, better, old(assignment)@, final(assignment)@),
        improved == (final(assignment)@ != old(assignment)@),
        !improved ==> forall|g: int|
            0 <= g < ctx.num_groups() ==> #[trigger] settled_at(
                ctx,
                old(evaluator).simple_active,
                score,
                better,
                final(assignment)@,
                g,
            ),
        improved ==> forall|rank: spec_fn(Seq<u8>) -> nat| #[trigger]
            falls(ctx, old(evaluator).simple_active, score, better, rank) ==> rank(final(assignment)@)
                < rank(old(assignment)@),
        ctx.permits(old(assignment)@) ==> ctx.permits(final(assignment)@),
{
    let ghost simple = evaluator.simple_active;
    let ghost start = assignment@;
    let n = assignment.len();
    let mut improved = false;
    let mut gi: usize = 0;
    proof {
        climb_begins(ctx, simple, score, better, start);
    }
    let ghost mut trail: Seq<Seq<u8>> = seq![start];
    let ghost mut moved: int = 0;
    while gi < n
        invariant
            ctx.wf_full(),
            ctx.wf_simple(),
            ctx.playable(),
            can_judge(score, better),
            n == ctx.num_groups(),
            gi <= n,
            start.len() == n,
            evaluator.in_step(ctx, assignment@),
            evaluator.searches(),
            evaluator.simple_active == simple,
            evaluator.rebuilds() == old(evaluator).rebuilds(),
            climbed(ctx, simple, score, better, start, assignment@),
            !improved ==> assignment@ == start,
            improved ==> 0 <= moved < gi && assignment@[moved] != start[moved],
            forall|g: int| gi <= g < n ==> #[trigger] assignment@[g] == start[g],
            trail.len() == gi + 1,
            trail[0] == start,
            trail[gi as int] == assignment@,
            forall|g: int|
                #![trigger trail[g]]
                0 <= g < gi ==> settles(ctx, simple, score, better, trail[g], g, trail[g + 1]),
            !improved ==> forall|g: int|
                0 <= g < gi ==> #[trigger] settled_at(ctx, simple, score, better, assignment@, g),
            improved ==> forall|rank: spec_fn(Seq<u8>) -> nat| #[trigger]
                falls(ctx, simple, score, better, rank) ==> rank(assignment@) < rank(start),
            ctx.permits(start) ==> ctx.permits(assignment@),
        decreases n - gi,
    {
        let ghost a = assignment@;
        let current = assignment[gi];
        let (best, best_score) = best_key(ctx, assignment, evaluator, gi, score, better);
        let ghost m = ctx.choices(gi as int).len() as int;
        if best != current {
            proof {
                sifted_climbs(ctx, simple, score, better, a, gi as int, m, best, best_score);
                climb_joins(ctx, simple, score, better, start, a, a.update(gi as int, best));
                assert forall|rank: spec_fn(Seq<u8>) -> nat| #[trigger] falls(ctx, simple, score, better, rank) implies rank(
                    a.update(gi as int, best),
                ) < rank(start) by {
                    sifted_falls(ctx, simple, score, better, a, gi as int, m, best, best_score, rank);
                }
                if ctx.permits(start) {
                    move_permitted(ctx, a, gi as int, best);
                }
                moved = gi as int;
            }
            evaluator.apply_move(ctx, assignment, gi, best);
            improved = true;
        } else {
            proof {
                sifted_stays(ctx, simple, score, better, a, gi as int, m, best_score);
                assert(settled_at(ctx, simple, score, better, a, gi as int));
                assert(a.update(gi as int, best) =~= a);
            }
        }
        proof {
            assert(best_of(ctx, simple, score, better, a, gi as int, best, best_score));
            assert(settles(ctx, simple, score, better, a, gi as int, assignment@));
            let was = trail;
            trail = was.push(assignment@);
            assert forall|g: int| #![trigger trail[g]] 0 <= g < gi + 1 implies settles(
                ctx,
                simple,
                score,
                better,
                trail[g],
                g,
                trail[g + 1],
            ) by {
                if g < gi {
                    let x = was[g];
                }
            }
        }
        gi = gi + 1;
    }
    assert(is_round(ctx, simple, score, better, trail));
    improved
}

/// Descends from an assignment: rounds until one moves no group. No single group then has a better
/// key.
pub fn coordinate_descent<S, F: Fn(&Evaluator, &Vec<u8>) -> S, G: Fn(&S, &S) -> bool>(
    ctx: &OptContext,
    init: Vec<u8>,
    disable_simple: bool,
    score: &F,
    better: &G,
) -> (r: (Vec<u8>, Evaluator))
    requires
        ctx.wf_full(),
        ctx.wf_simple(),
        ctx.playable(),
        ctx.assigns(init@),
        can_judge(score, better),
        well_founded(ctx, simple_on(ctx, disable_simple), score, better),
    ensures
        r.1.in_step(ctx, r.0@),
        r.1.searches(),
        r.1.simple_active == simple_on(ctx, disable_simple),
        descends(ctx, simple_on(ctx, disable_simple), score, better, init@, r.0@),
        climbed(ctx, simple_on(ctx, disable_simple), score, better, init@, r.0@),
        forall|g: int|
            0 <= g < ctx.num_groups() ==> #[trigger] settled_at(
                ctx,
                simple_on(ctx, disable_simple),
                score,
                better,
                r.0@,
                g,
            ),
        ctx.permits(init@) ==> ctx.permits(r.0@),
{
    let ghost start = init@;
    let mut assignment = init;
    let mut evaluator = if disable_simple {
        Evaluator::new_full_only(ctx, assignment.as_slice())
    } else {
        Evaluator::new(ctx, assignment.as_slice())
    };
    let ghost simple = evaluator.simple_active;
    let ghost rank = choose|rank: spec_fn(Seq<u8>) -> nat| #[trigger] falls(ctx, simple, score, better, rank);
    proof {
        climb_begins(ctx, simple, score, better, start);
    }
    let ghost mut rounds: Seq<Seq<u8>> = seq![start];
    let mut improved = true;
    while improved
        invariant
            ctx.wf_full(),
            ctx.wf_simple(),
            ctx.playable(),
            can_judge(score, better),
            falls(ctx, simple, score, better, rank),
            evaluator.in_step(ctx, assignment@),
            evaluator.searches(),
            evaluator.simple_active == simple,
            climbed(ctx, simple, score, better, start, assignment@),
            rounds.len() >= 1,
            rounds[0] == start,
            rounds.last() == assignment@,
            !improved ==> is_descent(ctx, simple, score, better, rounds),
            improved ==> forall|i: int|
                #![trigger rounds[i]]
                0 <= i < rounds.len() - 1 ==> {
                    &&& round_leads(ctx, simple, score, better, rounds[i], rounds[i + 1])
                    &&& rounds[i] != rounds[i + 1]
                },
            !improved ==> forall|g: int|
                0 <= g < ctx.num_groups() ==> #[trigger] settled_at(ctx, simple, score, better, assignment@, g),
            ctx.permits(start) ==> ctx.permits(assignment@),
        decreases rank(assignment@), (if improved { 1int } else { 0int }),
    {
        let ghost a = assignment@;
        improved = descent_round(ctx, &mut assignment, &mut evaluator, score, better);
        proof {
            climb_joins(ctx, simple, score, better, start, a, assignment@);
            let was = rounds;
            rounds = was.push(assignment@);
            assert forall|i: int| #![trigger rounds[i]] 0 <= i < rounds.len() - 1 implies {
                &&& round_leads(ctx, simple, score, better, rounds[i], rounds[i + 1])
                &&& rounds[i] == rounds[i + 1] <==> i == was.len() - 1 && !improved
            } by {
                if i < was.len() - 1 {
                    let x = was[i];
                }
            }
        }
    }
    (assignment, evaluator)
}

} // verus!
