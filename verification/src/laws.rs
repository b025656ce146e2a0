//! What holds of the library as a whole: the state of an assignment does not depend on how it was
//! reached, and simple codes are given out by the rules.

use vstd::multiset::Multiset;
use vstd::prelude::*;

use crate::agreement::{same_decisions, same_decisions_same_totals, selections_agree};
use crate::conflicts::{collide, colliding, heavier, lists_collisions};
use crate::context::OptContext;
use crate::evaluator::{same_usage, Evaluator};
use crate::full_codes::is_best;
use crate::incremental::{belongs, in_scope, reached};
use crate::lists::sorted_lists_equal;
use crate::listing::{listed_before, lists_selected};
use crate::protection::protected;
use crate::selection::{grand_cell, SelView};
use crate::simple_evaluator::{candidates_covered, same_code_same_keys, terms_for, SimpleEvaluator};
use crate::simple_select::linked;
use crate::totals::CELLS;

verus! {

/// The full codes, their collisions and the key strokes of an assignment are the same in every state
/// of it, however it was reached and whatever its simple codes are.
pub proof fn full_codes_by_assignment(ctx: &OptContext, a: Seq<u8>, e1: &Evaluator, e2: &Evaluator)
    requires
        ctx.wf_full(),
        e1.in_step(ctx, a),
        e2.in_step(ctx, a),
    ensures
        e1.full.current_codes@ == e2.full.current_codes@,
        e1.full.total_collisions == e2.full.total_collisions,
        e1.full.collision_frequency == e2.full.collision_frequency,
        e1.key_weighted_usage.cells@ == e2.key_weighted_usage.cells@,
{
    same_usage(ctx, a, e1.key_weighted_usage, e2.key_weighted_usage);
}

/// The simple codes of an assignment are the same in every state of it with the same candidates:
/// who has which code with which keys, the totals over them, and the collisions that they leave.
/// What was kept up to date move by move is what building everything anew gives.
pub proof fn simple_codes_by_assignment(
    ctx: &OptContext,
    s1: &SimpleEvaluator,
    s2: &SimpleEvaluator,
)
    requires
        ctx.wf_full(),
        ctx.wf_simple(),
        s1.inv(ctx),
        s2.inv(ctx),
        s1.at@ == s2.at@,
        s1.output_scope == s2.output_scope,
    ensures
        same_decisions(ctx.n(), s1.sel@, s2.sel@),
        s1.sel.totals.cells@ == s2.sel.totals.cells@,
        s1.simple_collision_count == s2.simple_collision_count,
        s1.simple_collision_freq == s2.simple_collision_freq,
        s1.last_full_codes@ == s2.last_full_codes@,
{
    let terms = terms_for(ctx, s1.at@);
    s1.sel.sane_sized(ctx);
    s2.sel.sane_sized(ctx);
    selections_agree(ctx, terms, s1.output_scope, s1.sel@, s2.sel@);
    assert forall|cell: int| 0 <= cell < CELLS implies s1.sel.totals.cells@[cell]
        == s2.sel.totals.cells@[cell] by {
        same_decisions_same_totals(ctx, s1.sel@, s2.sel@, cell);
        let x = s1.sel.totals.cells@[cell];
        let y = s2.sel.totals.cells@[cell];
    }
    assert(s1.sel.totals.cells@ =~= s2.sel.totals.cells@);
}

/// The simple codes of an assignment are listed in the same way in every state of it with the same
/// candidates: what is listed after moves is what a state built from scratch lists.
pub proof fn listings_agree(
    ctx: &OptContext,
    s1: &SimpleEvaluator,
    s2: &SimpleEvaluator,
    r1: Seq<(usize, usize)>,
    r2: Seq<(usize, usize)>,
)
    requires
        ctx.wf_full(),
        ctx.wf_simple(),
        s1.inv(ctx),
        s2.inv(ctx),
        s1.at@ == s2.at@,
        s1.output_scope == s2.output_scope,
        lists_selected(ctx, terms_for(ctx, s1.at@), s1.sel@.levels, r1),
        lists_selected(ctx, terms_for(ctx, s2.at@), s2.sel@.levels, r2),
    ensures
        r1 == r2,
{
    let terms = terms_for(ctx, s1.at@);
    let (l1, l2) = (s1.sel@.levels, s2.sel@.levels);
    simple_codes_by_assignment(ctx, s1, s2);
    s1.sel.sane_sized(ctx);
    s2.sel.sane_sized(ctx);
    let before = |x: (usize, usize), y: (usize, usize)| listed_before(ctx, terms, l1, x, y);
    assert forall|x: (usize, usize)|
        #![trigger r1.contains(x)]
        #![trigger r2.contains(x)]
        r1.contains(x) <==> r2.contains(x) by {
        let a = l1[x.0 as int];
        let b = l2[x.0 as int];
    }
    assert forall|i: int, j: int| #![trigger r1[i], r1[j]] 0 <= i < j < r1.len() implies before(
        r1[i],
        r1[j],
    ) by {}
    assert forall|i: int, j: int| #![trigger r2[i], r2[j]] 0 <= i < j < r2.len() implies before(
        r2[i],
        r2[j],
    ) by {
        assert(r2.contains(r2[i]) && r2.contains(r2[j]));
        let a = l1[r2[i].0 as int];
        let b = l1[r2[j].0 as int];
        assert(listed_before(ctx, terms, l2, r2[i], r2[j]));
    }
    sorted_lists_equal(r1, r2, before);
}

/// Two assignments with the same full codes that give the same candidates the same simple codes make
/// selections by the same terms, but for the assignment itself.
proof fn belongs_after_all(ctx: &OptContext, scope: bool, before: Seq<u8>, after: Seq<u8>, view: SelView)
    requires
        ctx.wf_full(),
        ctx.wf_levels(),
        ctx.assigns(before),
        ctx.assigns(after),
        ctx.full_codes(before) == ctx.full_codes(after),
        candidates_covered(ctx, scope, before, after, Seq::empty(), Seq::empty()),
        belongs(ctx, terms_for(ctx, before), scope, view),
    ensures
        belongs(ctx, terms_for(ctx, after), scope, view),
{
    let (t0, t1) = (terms_for(ctx, before), terms_for(ctx, after));
    let levels = view.levels;
    assert forall|li: int, ci: int|
        #![trigger levels[li].codes[ci]]
        0 <= li < ctx.n_levels() && 0 <= ci < ctx.n() && levels[li].codes[ci] is Some implies levels[li].codes[ci]
        == ctx.eligible_code(after, ci, li) by {
        let x = ctx.eligible_code(after, ci, li);
        assert(in_scope(ctx, scope, ci));
    }
    assert forall|li: int, c: u32|
        #![trigger levels[li].members.contains_key(c)]
        0 <= li < ctx.n_levels() && levels[li].members.contains_key(c) implies t1.settled(
        ctx,
        li,
        levels[li],
        c,
    ) by {
        let level = levels[li];
        let m = level.members[c];
        assert(linked(ctx, li, level));
        assert(t0.settled(ctx, li, level, c));
        assert(t0.quota(ctx, li, c) == t1.quota(ctx, li, c));
        assert forall|ci: int| #[trigger] t0.rank_key(ctx, li, ci) == t1.rank_key(ctx, li, ci) by {}
        assert forall|i: int| #![trigger m[i]] 0 <= i < m.len() implies forall|r: int|
            t0.keys_at(ctx, li, m[i] as int, c, r) == t1.keys_at(ctx, li, m[i] as int, c, r) by {
            let ci = level.members[c][i] as int;
            assert(level.codes[ci] == Some(c));
            let y = levels[li].codes[ci];
            assert(ctx.eligible_code(before, ci, li) == Some(c));
            assert(ctx.eligible_code(after, ci, li) == Some(c));
            same_code_same_keys(ctx, before, after, ci, li);
        }
        assert forall|i: int| #![trigger m[i]] 0 <= i < m.len() implies {
            &&& level.selected[m[i] as int] == (i < t1.quota(ctx, li, c))
            &&& i < t1.quota(ctx, li, c) ==> level.keys[m[i] as int] == t1.keys_at(
                ctx,
                li,
                m[i] as int,
                c,
                i,
            )
        } by {
            assert(t0.keys_at(ctx, li, m[i] as int, c, i) == t1.keys_at(ctx, li, m[i] as int, c, i));
        }
    }
}

/// A move that changes nobody's code changes nothing: where the full codes and the simple codes of
/// the candidates are the same before and after, so are the simple codes given out, the totals over
/// them and the collisions that they leave.
pub proof fn empty_move_changes_nothing(ctx: &OptContext, s1: &SimpleEvaluator, s2: &SimpleEvaluator)
    requires
        ctx.wf_full(),
        ctx.wf_levels(),
        s1.inv(ctx),
        s2.inv(ctx),
        s1.output_scope == s2.output_scope,
        candidates_covered(ctx, s1.output_scope, s1.at@, s2.at@, Seq::empty(), Seq::empty()),
        ctx.full_codes(s1.at@) == ctx.full_codes(s2.at@),
    ensures
        same_decisions(ctx.n(), s1.sel@, s2.sel@),
        s1.sel.totals.cells@ == s2.sel.totals.cells@,
        s1.simple_collision_count == s2.simple_collision_count,
        s1.simple_collision_freq == s2.simple_collision_freq,
        s1.last_full_codes@ == s2.last_full_codes@,
{
    let terms = terms_for(ctx, s2.at@);
    belongs_after_all(ctx, s1.output_scope, s1.at@, s2.at@, s1.sel@);
    s1.sel.sane_sized(ctx);
    s2.sel.sane_sized(ctx);
    selections_agree(ctx, terms, s1.output_scope, s1.sel@, s2.sel@);
    assert forall|cell: int| 0 <= cell < CELLS implies s1.sel.totals.cells@[cell]
        == s2.sel.totals.cells@[cell] by {
        same_decisions_same_totals(ctx, s1.sel@, s2.sel@, cell);
        let x = s1.sel.totals.cells@[cell];
        let y = s2.sel.totals.cells@[cell];
    }
    assert(s1.sel.totals.cells@ =~= s2.sel.totals.cells@);
}

/// What is built anew for an assignment agrees with everything else built anew for it, with simple
/// codes kept up to date or not: the full codes, who is shown first, the collisions, the key strokes,
/// and the simple codes where there are any.
pub proof fn built_anew_is_fresh(ctx: &OptContext, a: Seq<u8>, e1: &Evaluator, e2: &Evaluator)
    requires
        ctx.wf_full(),
        ctx.wf_simple(),
        ctx.assigns(a),
        e1.built_anew(ctx, a),
        e2.built_anew(ctx, a),
    ensures
        e1.full.current_codes@ == e2.full.current_codes@,
        e1.full.total_collisions == e2.full.total_collisions,
        e1.full.collision_frequency == e2.full.collision_frequency,
        e1.full.is_first_candidate@ == e2.full.is_first_candidate@,
        e1.key_weighted_usage.cells@ == e2.key_weighted_usage.cells@,
        e1.simple_eval is Some == e2.simple_eval is Some,
        e1.simple_eval is Some ==> {
            let (s1, s2) = (e1.simple_eval->0, e2.simple_eval->0);
            &&& same_decisions(ctx.n(), s1.sel@, s2.sel@)
            &&& s1.sel.totals.cells@ == s2.sel.totals.cells@
            &&& s1.simple_collision_count == s2.simple_collision_count
            &&& s1.simple_collision_freq == s2.simple_collision_freq
        },
{
    same_usage(ctx, a, e1.key_weighted_usage, e2.key_weighted_usage);
    if e1.simple_eval is Some {
        simple_codes_by_assignment(ctx, &e1.simple_eval->0, &e2.simple_eval->0);
    }
    assert(e1.full.is_first_candidate@ =~= e2.full.is_first_candidate@);
}

/// A state that was kept up to date move by move and one built from scratch for the same assignment
/// agree in everything.
pub proof fn incremental_is_rebuild(ctx: &OptContext, a: Seq<u8>, e1: &Evaluator, e2: &Evaluator)
    requires
        ctx.wf_full(),
        ctx.wf_simple(),
        e1.in_step(ctx, a),
        e2.in_step(ctx, a),
        e1.simple_active,
        e2.simple_active,
        e1.simple_eval->0.output_scope == e2.simple_eval->0.output_scope,
    ensures
        e1.full.current_codes@ == e2.full.current_codes@,
        e1.full.total_collisions == e2.full.total_collisions,
        e1.full.collision_frequency == e2.full.collision_frequency,
        e1.full.is_first_candidate@ == e2.full.is_first_candidate@,
        e1.key_weighted_usage.cells@ == e2.key_weighted_usage.cells@,
        same_decisions(ctx.n(), e1.simple_eval->0.sel@, e2.simple_eval->0.sel@),
        e1.simple_eval->0.sel.totals.cells@ == e2.simple_eval->0.sel.totals.cells@,
        e1.simple_eval->0.simple_collision_count == e2.simple_eval->0.simple_collision_count,
        e1.simple_eval->0.simple_collision_freq == e2.simple_eval->0.simple_collision_freq,
{
    full_codes_by_assignment(ctx, a, e1, e2);
    simple_codes_by_assignment(ctx, &e1.simple_eval->0, &e2.simple_eval->0);
    first_marks_by_rescan(ctx, a, e1);
    first_marks_by_rescan(ctx, a, e2);
    assert forall|ci: int| 0 <= ci < ctx.n() implies e1.full.is_first_candidate@[ci]
        == e2.full.is_first_candidate@[ci] by {
        let x = e1.full.is_first_candidate@[ci];
        let y = e2.full.is_first_candidate@[ci];
    }
    assert(e1.full.is_first_candidate@ =~= e2.full.is_first_candidate@);
}

/// Who is marked as shown first is who a look through all characters finds: the most frequent with
/// the code, and of equally frequent ones the first.
pub proof fn first_marks_by_rescan(ctx: &OptContext, a: Seq<u8>, e: &Evaluator)
    requires
        e.in_step(ctx, a),
        e.simple_active,
    ensures
        e.full.is_first_candidate@.len() == ctx.n(),
        forall|ci: int|
            0 <= ci < ctx.n() ==> #[trigger] e.full.is_first_candidate@[ci] == is_best(
                ctx,
                ctx.full_codes(a),
                ci,
            ),
{
}

/// Whoever has a simple code at a level is a candidate without a fixed code, has none at a lower
/// level, and the code is shorter than the full code.
pub proof fn selected_may_be(ctx: &OptContext, s: &SimpleEvaluator, li: int, ci: int)
    requires
        ctx.wf_full(),
        ctx.wf_simple(),
        s.inv(ctx),
        0 <= li < ctx.n_levels(),
        0 <= ci < ctx.n(),
        s.sel@.levels[li].selected[ci],
    ensures
        in_scope(ctx, s.output_scope, ci),
        !ctx.simple_fixed_assigned@[ci],
        reached(s.sel@.levels, li, ci),
        0 < ctx.step_count(ci, li) < ctx.parts(ci).len(),
        s.sel@.levels[li].codes[ci] == ctx.eligible_code(s.at@, ci, li),
        s.sel@.levels[li].codes[ci] is Some,
        s.sel@.assigned[ci],
{
    let levels = s.sel@.levels;
    let level = levels[li];
    assert(crate::simple_select::linked(ctx, li, level));
    let c = level.codes[ci];
    assert(ctx.encodable(ci, li));
    let list = ctx.candidates(s.output_scope);
    let i = list.index_of(ci as usize);
    assert(list[i] == ci as usize);
    let x = s.sel@.assigned[ci];
    assert(crate::incremental::has_simple_code(levels, ci));
}

/// Nobody has simple codes at two levels.
pub proof fn one_level_each(ctx: &OptContext, s: &SimpleEvaluator, li: int, lj: int, ci: int)
    requires
        ctx.wf_full(),
        ctx.wf_simple(),
        s.inv(ctx),
        0 <= li < ctx.n_levels(),
        0 <= lj < ctx.n_levels(),
        0 <= ci < ctx.n(),
        s.sel@.levels[li].selected[ci],
        s.sel@.levels[lj].selected[ci],
    ensures
        li == lj,
{
    selected_may_be(ctx, s, li, ci);
    selected_may_be(ctx, s, lj, ci);
    if li < lj {
        assert(!s.sel@.levels[li].selected[ci]);
    } else if lj < li {
        assert(!s.sel@.levels[lj].selected[ci]);
    }
}

/// The place of a contender in the bucket of its code.
proof fn contender_place(ctx: &OptContext, s: &SimpleEvaluator, li: int, ci: int) -> (i: int)
    requires
        ctx.wf_full(),
        ctx.wf_simple(),
        s.inv(ctx),
        0 <= li < ctx.n_levels(),
        0 <= ci < ctx.n(),
        s.sel@.levels[li].codes[ci] is Some,
    ensures
        ({
            let level = s.sel@.levels[li];
            let c = level.codes[ci]->0;
            &&& level.members.contains_key(c)
            &&& 0 <= i < level.members[c].len()
            &&& level.members[c][i] == ci
            &&& terms_for(ctx, s.at@).settled(ctx, li, level, c)
        }),
{
    let level = s.sel@.levels[li];
    assert(crate::simple_select::linked(ctx, li, level));
    let c = level.codes[ci]->0;
    let m = level.members[c];
    assert(m.contains(ci as u32));
    m.index_of(ci as u32)
}

/// No simple code is the full code of a protected character.
pub proof fn protected_codes_unused(ctx: &OptContext, s: &SimpleEvaluator, li: int, ci: int)
    requires
        ctx.wf_full(),
        ctx.wf_simple(),
        s.inv(ctx),
        0 <= li < ctx.n_levels(),
        0 <= ci < ctx.n(),
        s.sel@.levels[li].selected[ci],
    ensures
        !protected(ctx, ctx.full_codes(s.at@), s.sel@.levels[li].codes[ci]->0),
{
    selected_may_be(ctx, s, li, ci);
    let i = contender_place(ctx, s, li, ci);
    let level = s.sel@.levels[li];
    let m = level.members[level.codes[ci]->0];
    let x = m[i];
}

/// Of the contenders for a code, those of higher rank have it: whoever goes without is ranked behind
/// everybody who has it.
pub proof fn selected_outrank(ctx: &OptContext, s: &SimpleEvaluator, li: int, ci: int, cj: int)
    requires
        ctx.wf_full(),
        ctx.wf_simple(),
        s.inv(ctx),
        0 <= li < ctx.n_levels(),
        0 <= ci < ctx.n(),
        0 <= cj < ctx.n(),
        s.sel@.levels[li].codes[ci] is Some,
        s.sel@.levels[li].codes[cj] == s.sel@.levels[li].codes[ci],
        s.sel@.levels[li].selected[ci],
        !s.sel@.levels[li].selected[cj],
    ensures
        terms_for(ctx, s.at@).rank_key(ctx, li, ci).before(terms_for(ctx, s.at@).rank_key(ctx, li, cj)),
{
    let i = contender_place(ctx, s, li, ci);
    let j = contender_place(ctx, s, li, cj);
    let level = s.sel@.levels[li];
    let m = level.members[level.codes[ci]->0];
    let (x, y) = (m[i], m[j]);
}

/// A code goes to as many contenders as there is room for: who goes without finds the room taken, or
/// the code protected.
pub proof fn room_is_used(ctx: &OptContext, s: &SimpleEvaluator, li: int, cj: int)
    requires
        ctx.wf_full(),
        ctx.wf_simple(),
        s.inv(ctx),
        0 <= li < ctx.n_levels(),
        0 <= cj < ctx.n(),
        s.sel@.levels[li].codes[cj] is Some,
        !s.sel@.levels[li].selected[cj],
    ensures
        ({
            let level = s.sel@.levels[li];
            let c = level.codes[cj]->0;
            let room = terms_for(ctx, s.at@).quota(ctx, li, c);
            let m = level.members[c];
            &&& room < m.len()
            &&& forall|i: int| 0 <= i < room ==> level.selected[#[trigger] m[i] as int]
        }),
{
    let j = contender_place(ctx, s, li, cj);
    let level = s.sel@.levels[li];
    let m = level.members[level.codes[cj]->0];
    let x = m[j];
}

/// Characters with fixed codes count as having a simple code, and contend for no other.
pub proof fn fixed_stay_out(ctx: &OptContext, s: &SimpleEvaluator, li: int, ci: int)
    requires
        ctx.wf_full(),
        ctx.wf_simple(),
        s.inv(ctx),
        0 <= li < ctx.n_levels(),
        0 <= ci < ctx.n(),
        ctx.simple_fixed_assigned@[ci],
    ensures
        s.sel@.assigned[ci],
        s.sel@.levels[li].codes[ci] is None,
        !s.sel@.levels[li].selected[ci],
{
    let x = s.sel@.assigned[ci];
    let levels = s.sel@.levels;
    let c = levels[li].codes[ci];
    if c is Some {
        let list = ctx.candidates(s.output_scope);
        let i = list.index_of(ci as usize);
        assert(list[i] == ci as usize);
    }
    assert(crate::simple_select::linked(ctx, li, levels[li]));
    if levels[li].selected[ci] {
        selected_may_be(ctx, s, li, ci);
    }
}

/// The totals over all simple codes are those of the fixed codes, whatever the assignment, and those
/// of the levels.
pub proof fn totals_are_fixed_and_levels(ctx: &OptContext, s: &SimpleEvaluator, cell: int)
    requires
        s.inv(ctx),
        0 <= cell < CELLS,
    ensures
        s.sel.totals.cells@[cell] == grand_cell(ctx, s.sel@.levels, cell),
        forall|li: int|
            0 <= li < ctx.n_levels() ==> (#[trigger] s.sel.levels@[li]).totals.cells@[cell]
                == crate::selection::level_cells(ctx, s.sel@.levels, cell)[li],
{
    assert forall|li: int| 0 <= li < ctx.n_levels() implies (#[trigger] s.sel.levels@[li]).totals.cells@[cell]
        == crate::selection::level_cells(ctx, s.sel@.levels, cell)[li] by {
        assert(s.sel@.levels[li] == s.sel.levels@[li]@);
    }
}

/// An order in which of two entries each comes before the other only if they are equal leaves one way
/// to list a number of entries.
proof fn ordered_lists_equal(a: Seq<(usize, usize, u64)>, b: Seq<(usize, usize, u64)>)
    requires
        a.to_multiset() == b.to_multiset(),
        forall|i: int, j: int| #![trigger a[i], a[j]] 0 <= i < j < a.len() ==> heavier(a[i], a[j]),
        forall|i: int, j: int| #![trigger b[i], b[j]] 0 <= i < j < b.len() ==> heavier(b[i], b[j]),
    ensures
        a == b,
    decreases a.len(),
{
    broadcast use vstd::seq_lib::group_to_multiset_ensures;

    assert(a.to_multiset().len() == a.len());
    assert(b.to_multiset().len() == b.len());
    if a.len() == 0 {
        assert(a =~= b);
    } else {
        let x = a.last();
        let y = b.last();
        assert(a.contains(x) && b.contains(y));
        assert(b.to_multiset().count(x) > 0);
        assert(a.to_multiset().count(y) > 0);
        assert(b.contains(x) && a.contains(y));
        let i = b.index_of(x);
        let j = a.index_of(y);
        assert(b[i] == x && a[j] == y);
        if i < b.len() - 1 {
            assert(heavier(b[i], b[b.len() - 1]));
        }
        if j < a.len() - 1 {
            assert(heavier(a[j], a[a.len() - 1]));
        }
        assert(x == y);
        let (a1, b1) = (a.drop_last(), b.drop_last());
        assert(a1.push(x) =~= a);
        assert(b1.push(y) =~= b);
        assert(a1.to_multiset() =~= b1.to_multiset()) by {
            assert forall|t: (usize, usize, u64)| a1.to_multiset().count(t) == b1.to_multiset().count(t) by {
                assert(a1.push(x).to_multiset().count(t) == b1.push(y).to_multiset().count(t));
            }
        }
        ordered_lists_equal(a1, b1);
    }
}

/// The list of collisions of an assignment is always the same.
pub proof fn collisions_reproducible(
    ctx: &OptContext,
    codes: Seq<u32>,
    by_freq: bool,
    a: Seq<(usize, usize, u64)>,
    b: Seq<(usize, usize, u64)>,
)
    requires
        lists_collisions(ctx, codes, by_freq, a),
        lists_collisions(ctx, codes, by_freq, b),
    ensures
        a == b,
{
    assert(a.to_multiset() =~= b.to_multiset()) by {
        assert forall|t: (usize, usize, u64)| a.to_multiset().count(t) == b.to_multiset().count(t) by {}
    }
    ordered_lists_equal(a, b);
}

/// How often a list names a pair of groups.
pub open spec fn pair_count(list: Seq<(usize, usize, u64)>, g1: usize, g2: usize) -> nat {
    pair_bag(list, g1, g2).len()
}

/// The entries of a list that name a pair of groups.
pub open spec fn pair_bag(list: Seq<(usize, usize, u64)>, g1: usize, g2: usize) -> Multiset<
    (usize, usize, u64),
> {
    list.to_multiset().filter(|t: (usize, usize, u64)| t.0 == g1 && t.1 == g2)
}

/// The codes of a set that make a given entry.
spec fn making(d: Set<u32>, w: spec_fn(u32) -> (usize, usize, u64), t: (usize, usize, u64)) -> Set<u32> {
    d.filter(|c: u32| w(c) == t)
}

/// The codes that make a pair of groups collide, whatever the weight.
spec fn pair_codes(ctx: &OptContext, codes: Seq<u32>, by_freq: bool, g1: usize, g2: usize) -> Set<u32> {
    codes.to_set().filter(
        |c: u32|
            collide(
                ctx,
                codes,
                by_freq,
                c,
                (g1, g2, crate::conflicts::clash_weight(ctx, codes, by_freq, c) as u64),
            ),
    )
}

/// A bag whose counts are those of the weights of a set of codes has as many entries as the set.
proof fn bag_of_weights(d: Set<u32>, w: spec_fn(u32) -> (usize, usize, u64), m: Multiset<(usize, usize, u64)>)
    requires
        d.finite(),
        forall|t: (usize, usize, u64)| #[trigger]
            m.count(t) == making(d, w, t).len(),
    ensures
        m.len() == d.len(),
    decreases d.len(),
{
    broadcast use vstd::multiset::group_multiset_axioms;

    if d.len() == 0 {
        assert forall|t: (usize, usize, u64)| m.count(t) == 0 by {
            assert(making(d, w, t) =~= Set::empty());
        }
        assert(m =~= Multiset::empty());
    } else {
        let c = d.choose();
        let t0 = w(c);
        let d1 = d.remove(c);
        let m1 = m.remove(t0);
        assert forall|t: (usize, usize, u64)| #[trigger] m1.count(t) == making(d1, w, t).len() by {
            let all = making(d, w, t);
            let rest = making(d1, w, t);
            d.lemma_len_filter(|c: u32| w(c) == t);
            assert(m.count(t) == all.len());
            if t == t0 {
                assert(all.contains(c));
                assert(rest =~= all.remove(c));
            } else {
                assert(rest =~= all);
            }
        }
        assert(m.count(t0) > 0) by {
            let all = making(d, w, t0);
            assert(all.contains(c));
            d.lemma_len_filter(|c: u32| w(c) == t0);
            assert(m.count(t0) == all.len());
            if all.len() == 0 {
                assert(all =~= Set::empty());
            }
        }
        bag_of_weights(d1, w, m1);
    }
}

/// Weighed by number or by frequency, the same pairs of groups collide, equally often.
pub proof fn both_weights_same_pairs(
    ctx: &OptContext,
    codes: Seq<u32>,
    by_count: Seq<(usize, usize, u64)>,
    by_frequency: Seq<(usize, usize, u64)>,
    g1: usize,
    g2: usize,
)
    requires
        ctx.wf_full(),
        codes.len() == ctx.n(),
        lists_collisions(ctx, codes, false, by_count),
        lists_collisions(ctx, codes, true, by_frequency),
    ensures
        pair_count(by_count, g1, g2) == pair_count(by_frequency, g1, g2),
{
    pairs_are_codes(ctx, codes, false, by_count, g1, g2);
    pairs_are_codes(ctx, codes, true, by_frequency, g1, g2);
    let (d1, d2) = (pair_codes(ctx, codes, false, g1, g2), pair_codes(ctx, codes, true, g1, g2));
    assert(d1 =~= d2) by {
        assert forall|c: u32| d1.contains(c) <==> d2.contains(c) by {
            crate::conflicts::weight_fits(ctx, codes, false, c);
            crate::conflicts::weight_fits(ctx, codes, true, c);
        }
    }
}

/// A pair is named as often as there are codes that make it collide.
proof fn pairs_are_codes(
    ctx: &OptContext,
    codes: Seq<u32>,
    by_freq: bool,
    list: Seq<(usize, usize, u64)>,
    g1: usize,
    g2: usize,
)
    requires
        ctx.wf_full(),
        codes.len() == ctx.n(),
        lists_collisions(ctx, codes, by_freq, list),
    ensures
        pair_count(list, g1, g2) == pair_codes(ctx, codes, by_freq, g1, g2).len(),
{
    broadcast use vstd::multiset::group_multiset_axioms;

    let d = pair_codes(ctx, codes, by_freq, g1, g2);
    let w = |c: u32|
        (g1, g2, crate::conflicts::clash_weight(ctx, codes, by_freq, c) as u64);
    let m = pair_bag(list, g1, g2);
    codes.to_set().lemma_len_filter(
        |c: u32|
            collide(
                ctx,
                codes,
                by_freq,
                c,
                (g1, g2, crate::conflicts::clash_weight(ctx, codes, by_freq, c) as u64),
            ),
    );
    assert forall|t: (usize, usize, u64)| #[trigger] m.count(t) == making(d, w, t).len() by {
        let mine = making(d, w, t);
        if t.0 == g1 && t.1 == g2 {
            assert(list.to_multiset().count(t) == colliding(ctx, codes, by_freq, codes.to_set(), t).len());
            assert(mine =~= colliding(ctx, codes, by_freq, codes.to_set(), t)) by {
                assert forall|c: u32| mine.contains(c) <==> colliding(
                    ctx,
                    codes,
                    by_freq,
                    codes.to_set(),
                    t,
                ).contains(c) by {
                    crate::conflicts::weight_fits(ctx, codes, by_freq, c);
                }
            }
        } else {
            assert(mine =~= Set::empty());
        }
    }
    bag_of_weights(d, w, m);
}

} // verus!
