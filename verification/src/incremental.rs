//! Bringing a selection up to date after a move, bucket by bucket.

use vstd::prelude::*;

use crate::codes::space_monotone;
use crate::context::OptContext;
use crate::selection::{levels_sized, same_bucket, SelView, Selection};
use crate::simple_level::{members_at, LevelView};
use crate::simple_select::{
    all_linked, enrol, expel, linked, notes_changes, relocate, reselect_bucket, settled, settles, Env,
    Terms,
};
use crate::sums::{sum, sum_zero};
use crate::visits::{
    among, among_bound, among_step, in_touched, touched_at, touched_below, touched_below_same, touched_below_step,
    touched_members, visit_limit,
};

verus! {

/// Whether a character is a candidate for simple codes.
pub open spec fn in_scope(ctx: &OptContext, output_scope: bool, ci: int) -> bool {
    ctx.candidates(output_scope).contains(ci as usize)
}

/// Whether a character has no simple code at the levels below `li`.
pub open spec fn reached(levels: Seq<LevelView>, li: int, ci: int) -> bool {
    forall|lk: int| 0 <= lk < li ==> !(#[trigger] levels[lk]).selected[ci]
}

/// Whether those contend at every level who may: candidates without a simple code at a lower level
/// that can have one at this level.
pub open spec fn shape(ctx: &OptContext, output_scope: bool, levels: Seq<LevelView>) -> bool {
    forall|li: int, ci: int|
        #![trigger levels[li].codes[ci]]
        0 <= li < ctx.n_levels() && 0 <= ci < ctx.n() ==> (levels[li].codes[ci] is Some <==> in_scope(
            ctx,
            output_scope,
            ci,
        ) && ctx.encodable(ci, li) && reached(levels, li, ci))
}

/// Whether the marks name those with a fixed code and those with a simple code at some level.
pub open spec fn marks_right(ctx: &OptContext, view: SelView) -> bool {
    forall|ci: int|
        #![trigger view.assigned[ci]]
        0 <= ci < ctx.n() ==> (view.assigned[ci] <==> ctx.simple_fixed_assigned@[ci]
            || has_simple_code(view.levels, ci))
}

/// Whether a character has a simple code at some level.
pub open spec fn has_simple_code(levels: Seq<LevelView>, ci: int) -> bool {
    exists|li: int| 0 <= li < levels.len() && (#[trigger] levels[li]).selected[ci]
}

/// The code of a candidate that can have one fits below the code space.
pub proof fn eligible_code_bound(env: &Env, ci: int, li: int)
    requires
        env.wf(),
        0 <= ci < env.ctx.n(),
        0 <= li < env.ctx.n_levels(),
        env.ctx.encodable(ci, li),
    ensures
        env.ctx.eligible_code(env.assignment@, ci, li) is Some,
        env.ctx.eligible_code(env.assignment@, ci, li)->0 < env.ctx.code_space,
        env.ctx.eligible_code(env.assignment@, ci, li)->0 < env.ctx.simple_level_capacity@[li],
{
    let ctx = env.ctx;
    let info = ctx.char_infos@[ci];
    ctx.simple_code_bound(env.assignment@, ci, li);
    let keys = ctx.simple_keys(env.assignment@, ci, li)->0;
    crate::codes::encode_bound(keys);
    space_monotone(keys.len(), ctx.max_parts as nat);
}

/// The settled state of a bucket depends on its members alone.
proof fn settled_frame(env: &Env, li: int, a: LevelView, b: LevelView, code: u32)
    requires
        settled(env, li, a, code),
        linked(env.ctx, li, a),
        a.members.contains_key(code),
        b.members.contains_key(code),
        a.members[code] == b.members[code],
        forall|ci: int|
            #![trigger b.selected[ci]]
            0 <= ci < env.ctx.n() && a.codes[ci] == Some(code) ==> a.selected[ci] == b.selected[ci]
                && a.keys[ci] == b.keys[ci],
    ensures
        settled(env, li, b, code),
{
    let m = a.members[code];
    assert forall|i: int| #![trigger m[i]] 0 <= i < m.len() implies {
        &&& b.selected[m[i] as int] == (i < env.quota(li, code))
        &&& i < env.quota(li, code) ==> b.keys[m[i] as int] == env.keys_at(
            li,
            m[i] as int,
            code,
            i,
        )
    } by {
        assert(a.members[code][i] < env.ctx.n());
        assert(a.codes[m[i] as int] == Some(code));
        let x = b.selected[m[i] as int];
        assert(a.selected[m[i] as int] == (i < env.quota(li, code)));
    }
}

/// Notes of two rounds of changes that concern different characters are the notes of both.
proof fn notes_join(
    n: nat,
    first: Seq<usize>,
    both: Seq<usize>,
    was: Seq<bool>,
    mid: Seq<bool>,
    is: Seq<bool>,
    now: bool,
)
    requires
        first.is_prefix_of(both),
        notes_changes(n, first, 0, was, mid, now),
        notes_changes(n, both, first.len() as int, mid, is, now),
        forall|ci: int| 0 <= ci < n ==> #[trigger] mid[ci] == was[ci] || is[ci] == mid[ci],
    ensures
        notes_changes(n, both, 0, was, is, now),
{
    assert forall|i: int| 0 <= i < first.len() implies both[i] == first[i] by {}
    assert forall|i: int|
        #![trigger both[i]]
        0 <= i < both.len() implies both[i] < n && was[both[i] as int] != now && is[both[i] as int]
        == now by {
        if i < first.len() {
            assert(first[i] < n);
            let x = mid[first[i] as int];
        } else {
            let x = mid[both[i] as int];
        }
    }
    assert forall|i: int, j: int|
        #![trigger both[i], both[j]]
        0 <= i < j < both.len() implies both[i] != both[j] by {
        if j < first.len() {
            assert(first[i] != first[j]);
        } else if i < first.len() {
            assert(mid[first[i] as int] == now);
            assert(mid[both[j] as int] != now);
        }
    }
    assert forall|ci: int|
        #![trigger is[ci]]
        0 <= ci < n && was[ci] != now && is[ci] == now implies exists|i: int|
        0 <= i < both.len() && #[trigger] both[i] == ci by {
        if mid[ci] == now {
            let i = choose|i: int| 0 <= i < first.len() && #[trigger] first[i] == ci;
            assert(both[i] == ci);
        }
    }
}

/// Settles every bucket of a level that was put down, and says how many candidates they hold.
pub fn settle_dirty(
    sel: &mut Selection,
    env: &Env,
    li: usize,
    newly_sel: &mut Vec<usize>,
    newly_desel: &mut Vec<usize>,
) -> (visited: usize)
    requires
        env.wf(),
        old(sel).sane(env.ctx),
        old(sel).logged(env.ctx),
        li < env.ctx.n_levels(),
        linked(env.ctx, li as int, old(sel)@.levels[li as int]),
        old(newly_sel)@.len() == 0,
        old(newly_desel)@.len() == 0,
    ensures
        final(sel).sane(env.ctx),
        final(sel).logged(env.ctx),
        final(sel).base == old(sel).base,
        final(sel).cur_gen == old(sel).cur_gen,
        final(sel).buckets_undo == old(sel).buckets_undo,
        linked(env.ctx, li as int, final(sel)@.levels[li as int]),
        final(sel)@.levels == old(sel)@.levels.update(li as int, final(sel)@.levels[li as int]),
        final(sel)@.levels[li as int].codes == old(sel)@.levels[li as int].codes,
        visited == touched_at(env.ctx, final(sel), li as int),
        final(newly_sel)@.len() + final(newly_desel)@.len() <= visited,
        forall|c: u32|
            #![trigger final(sel)@.levels[li as int].members.contains_key(c)]
            final(sel)@.levels[li as int].members.contains_key(c) && final(sel).touched(li as int, c)
                ==> settled(env, li as int, final(sel)@.levels[li as int], c),
        notes_changes(
            env.ctx.n(),
            final(newly_sel)@,
            0,
            old(sel)@.levels[li as int].selected,
            final(sel)@.levels[li as int].selected,
            true,
        ),
        notes_changes(
            env.ctx.n(),
            final(newly_desel)@,
            0,
            old(sel)@.levels[li as int].selected,
            final(sel)@.levels[li as int].selected,
            false,
        ),
        assigned_follow(
            env.ctx.n(),
            old(sel)@.assigned,
            final(sel)@.assigned,
            old(sel)@.levels[li as int].selected,
            final(sel)@.levels[li as int].selected,
        ),
{
    let ctx = env.ctx;
    let ghost v0 = sel@;
    let ghost lv0 = v0.levels[li as int];
    let count = sel.buckets_undo.dirty[li].len();
    let ghost dirty = sel.buckets_undo.dirty@[li as int]@;
    proof {
        sel.sane_sized(ctx);
        assert(v0.levels =~= v0.levels.update(li as int, lv0));
        assert(dirty.take(0) =~= Seq::<u32>::empty());
        sum_zero(among(lv0.codes, dirty.take(0)));
    }
    let mut visited: usize = 0;
    let mut i: usize = 0;
    while i < count
        invariant
            i <= count == dirty.len(),
            dirty.no_duplicates(),
            lv0.codes.len() == ctx.n(),
            visited == sum(among(lv0.codes, dirty.take(i as int))),
            newly_sel@.len() + newly_desel@.len() <= visited,
            ctx == env.ctx,
            env.wf(),
            li < ctx.n_levels(),
            sel.sane(ctx),
            sel.logged(ctx),
            sel.base == old(sel).base,
            sel.cur_gen == old(sel).cur_gen,
            sel.buckets_undo == old(sel).buckets_undo,
            dirty == sel.buckets_undo.dirty@[li as int]@,
            v0 == old(sel)@,
            lv0 == v0.levels[li as int],
            v0.levels.len() == ctx.n_levels(),
            lv0.selected.len() == ctx.n(),
            linked(ctx, li as int, sel@.levels[li as int]),
            sel@.levels == v0.levels.update(li as int, sel@.levels[li as int]),
            sel@.levels[li as int].codes == lv0.codes,
            forall|k: int|
                0 <= k < i && sel@.levels[li as int].members.contains_key(#[trigger] dirty[k]) ==> settled(
                    env,
                    li as int,
                    sel@.levels[li as int],
                    dirty[k],
                ),
            forall|ci: int|
                #![trigger sel@.levels[li as int].selected[ci]]
                0 <= ci < ctx.n() && sel@.levels[li as int].selected[ci] != lv0.selected[ci] ==> (exists|
                    k: int,
                |
                    0 <= k < i && lv0.codes[ci] == Some(#[trigger] dirty[k])),
            notes_changes(
                ctx.n(),
                newly_sel@,
                0,
                lv0.selected,
                sel@.levels[li as int].selected,
                true,
            ),
            notes_changes(
                ctx.n(),
                newly_desel@,
                0,
                lv0.selected,
                sel@.levels[li as int].selected,
                false,
            ),
            assigned_follow(
                ctx.n(),
                v0.assigned,
                sel@.assigned,
                lv0.selected,
                sel@.levels[li as int].selected,
            ),
        decreases count - i,
    {
        let code = sel.buckets_undo.dirty[li][i];
        let ghost mid = sel@;
        let ghost lv = mid.levels[li as int];
        proof {
            assert(dirty.contains(code));
            assert(sel.touched(li as int, code));
            assert(sel.levels@[li as int].sane(ctx, ctx.simple_level_capacity@[li as int]));
            sel.sane_sized(ctx);
        }
        let present = match sel.levels[li].buckets.get(code) {
            Some(_) => true,
            None => false,
        };
        assert(present == lv.members.contains_key(code));
        proof {
            let front = dirty.take(i as int);
            assert(!front.contains(code)) by {
                if front.contains(code) {
                    let k = front.index_of(code);
                    assert(dirty[k] == dirty[i as int]);
                }
            }
            assert(dirty.take(i + 1) =~= front.push(code));
            among_step(ctx, li as int, lv, front, code);
            among_bound(lv0.codes, dirty.take(i + 1));
        }
        if present {
            let ghost news = newly_sel@;
            let ghost news_d = newly_desel@;
            let members = reselect_bucket(sel, env, li, code, newly_sel, newly_desel);
            visited = visited + members;
            proof {
                let lv1 = sel@.levels[li as int];
                assert(settles(env, li as int, code, mid, sel@));
                assert forall|ci: int| 0 <= ci < ctx.n() implies #[trigger] lv.selected[ci]
                    == lv0.selected[ci] || lv1.selected[ci] == lv.selected[ci] by {
                    let x = lv1.selected[ci];
                    if lv.selected[ci] != lv0.selected[ci] && lv1.selected[ci] != lv.selected[ci] {
                        let k = choose|k: int|
                            0 <= k < i && lv0.codes[ci] == Some(#[trigger] dirty[k]);
                        assert(lv0.codes[ci] == Some(code));
                        assert(dirty[k] == dirty[i as int]);
                    }
                }
                notes_join(ctx.n(), news, newly_sel@, lv0.selected, lv.selected, lv1.selected, true);
                notes_join(
                    ctx.n(),
                    news_d,
                    newly_desel@,
                    lv0.selected,
                    lv.selected,
                    lv1.selected,
                    false,
                );
                assert forall|k: int|
                    0 <= k < i + 1 && lv1.members.contains_key(#[trigger] dirty[k]) implies settled(
                    env,
                    li as int,
                    lv1,
                    dirty[k],
                ) by {
                    if k < i {
                        assert(dirty[k] != code);
                        settled_frame(env, li as int, lv, lv1, dirty[k]);
                    }
                }
                assert forall|ci: int|
                    #![trigger lv1.selected[ci]]
                    0 <= ci < ctx.n() && lv1.selected[ci] != lv0.selected[ci] implies (exists|k: int|
                    0 <= k < i + 1 && lv0.codes[ci] == Some(#[trigger] dirty[k])) by {
                    if lv1.selected[ci] != lv.selected[ci] {
                        assert(lv0.codes[ci] == Some(dirty[i as int]));
                    } else {
                        let k = choose|k: int|
                            0 <= k < i && lv0.codes[ci] == Some(#[trigger] dirty[k]);
                        assert(lv0.codes[ci] == Some(dirty[k]));
                    }
                }
                assert forall|ci: int| #![trigger sel@.assigned[ci]] 0 <= ci < ctx.n() implies sel@.assigned[ci]
                    == if lv1.selected[ci] != lv0.selected[ci] {
                    lv1.selected[ci]
                } else {
                    v0.assigned[ci]
                } by {
                    let x = mid.assigned[ci];
                    let y = lv.selected[ci];
                }
                assert(sel@.levels =~= v0.levels.update(li as int, lv1));
            }
        }
        i = i + 1;
    }
    proof {
        let lv1 = sel@.levels[li as int];
        assert forall|c: u32|
            #![trigger lv1.members.contains_key(c)]
            lv1.members.contains_key(c) && sel.touched(li as int, c) implies settled(
            env,
            li as int,
            lv1,
            c,
        ) by {
            assert(dirty.contains(c));
            let k = dirty.index_of(c);
            assert(dirty[k] == c);
        }
        assert(dirty.take(dirty.len() as int) =~= dirty);
        assert forall|ci: int| 0 <= ci < ctx.n() implies in_touched(ctx, sel, li as int)[ci] == among(
            lv0.codes,
            dirty,
        )[ci] by {
            if let Some(c) = lv0.codes[ci] {
                assert(dirty.contains(c) <==> sel.touched(li as int, c));
            }
        }
        assert(in_touched(ctx, sel, li as int) =~= among(lv0.codes, dirty));
    }
    visited
}

/// Whether the marks of the characters whose selection changed follow it, and no others change.
pub open spec fn assigned_follow(
    n: nat,
    before: Seq<bool>,
    after: Seq<bool>,
    was: Seq<bool>,
    is: Seq<bool>,
) -> bool {
    &&& after.len() == n
    &&& forall|ci: int|
        #![trigger after[ci]]
        0 <= ci < n ==> after[ci] == if is[ci] != was[ci] {
            is[ci]
        } else {
            before[ci]
        }
}

/// Whether a list of characters to let in or keep out names nobody twice, and candidates only.
pub open spec fn pending_ok(ctx: &OptContext, output_scope: bool, pending: Seq<(usize, bool)>) -> bool {
    &&& forall|i: int|
        #![trigger pending[i]]
        0 <= i < pending.len() ==> pending[i].0 < ctx.n() && in_scope(
            ctx,
            output_scope,
            pending[i].0 as int,
        )
    &&& forall|i: int, j: int|
        #![trigger pending[i], pending[j]]
        0 <= i < j < pending.len() ==> pending[i].0 != pending[j].0
}

/// Whether a character is to be let in (`true`) or kept out (`false`).
pub open spec fn pends(pending: Seq<(usize, bool)>, ci: int, insert: bool) -> bool {
    pending.contains((ci as usize, insert))
}

/// What one more entry adds to the front of a list of pending changes.
proof fn pends_step(ctx: &OptContext, pending: Seq<(usize, bool)>, k: int, cj: int, insert: bool)
    requires
        0 <= k < pending.len(),
        0 <= cj < ctx.n() <= usize::MAX,
    ensures
        pends(pending.take(k + 1), cj, insert) <==> pends(pending.take(k), cj, insert) || pending[k] == (
            cj as usize,
            insert,
        ),
{
    let e = (cj as usize, insert);
    if pends(pending.take(k), cj, insert) {
        let i = pending.take(k).index_of(e);
        assert(pending.take(k + 1)[i] == e);
    }
    if pending[k] == e {
        assert(pending.take(k + 1)[k] == e);
    }
    if pends(pending.take(k + 1), cj, insert) {
        let i = pending.take(k + 1).index_of(e);
        assert(pending.take(k + 1)[i] == e);
        if i < k {
            assert(pending.take(k)[i] == e);
        }
    }
}

/// What a level's entries are after pending changes.
pub open spec fn pending_applied(
    env: &Env,
    li: int,
    pending: Seq<(usize, bool)>,
    before: LevelView,
    after: LevelView,
) -> bool {
    &&& after.codes.len() == env.ctx.n()
    &&& after.selected.len() == env.ctx.n()
    &&& after.keys == before.keys
    &&& forall|ci: int|
        #![trigger after.codes[ci]]
        0 <= ci < env.ctx.n() ==> after.codes[ci] == if pends(pending, ci, true) {
            env.ctx.eligible_code(env.assignment@, ci, li)
        } else if pends(pending, ci, false) {
            None
        } else {
            before.codes[ci]
        }
    &&& forall|ci: int|
        #![trigger after.selected[ci]]
        0 <= ci < env.ctx.n() ==> after.selected[ci] == (before.selected[ci] && !pends(
            pending,
            ci,
            false,
        ))
}

/// Whether `list` names, each once, those who were let in at a level and can have a code there.
pub open spec fn names_inserted(
    env: &Env,
    li: int,
    pending: Seq<(usize, bool)>,
    list: Seq<usize>,
) -> bool {
    &&& forall|i: int, j: int| #![trigger list[i], list[j]] 0 <= i < j < list.len() ==> list[i] != list[j]
    &&& forall|i: int|
        #![trigger list[i]]
        0 <= i < list.len() ==> list[i] < env.ctx.n() && pends(pending, list[i] as int, true)
            && env.ctx.encodable(list[i] as int, li)
    &&& forall|ci: int|
        0 <= ci < env.ctx.n() && #[trigger] pends(pending, ci, true) && env.ctx.encodable(ci, li)
            ==> list.contains(ci as usize)
}

/// Whether `next` names, each once, those of the pending changes that go on to the next level:
/// those let in who cannot have a code here, and those kept out who had none here.
pub open spec fn names_passed_on(
    env: &Env,
    li: int,
    pending: Seq<(usize, bool)>,
    was: Seq<bool>,
    next: Seq<(usize, bool)>,
) -> bool {
    &&& forall|i: int, j: int|
        #![trigger next[i], next[j]]
        0 <= i < j < next.len() ==> next[i].0 != next[j].0
    &&& forall|i: int|
        #![trigger next[i]]
        0 <= i < next.len() ==> next[i].0 < env.ctx.n() && passes_on(
            env,
            li,
            pending,
            was,
            next[i].0 as int,
            next[i].1,
        )
    &&& forall|ci: int, insert: bool|
        0 <= ci < env.ctx.n() && #[trigger] passes_on(env, li, pending, was, ci, insert) ==> next.contains(
            (ci as usize, insert),
        )
}

/// Whether a pending change goes on to the next level.
pub open spec fn passes_on(
    env: &Env,
    li: int,
    pending: Seq<(usize, bool)>,
    was: Seq<bool>,
    ci: int,
    insert: bool,
) -> bool {
    &&& pends(pending, ci, insert)
    &&& if insert {
        !env.ctx.encodable(ci, li)
    } else {
        !was[ci]
    }
}

/// Lets in and keeps out those that the levels below ask for.
pub fn apply_pending(
    sel: &mut Selection,
    env: &Env,
    li: usize,
    pending: &Vec<(usize, bool)>,
    next: &mut Vec<(usize, bool)>,
    inserted: &mut Vec<usize>,
    Ghost(output_scope): Ghost<bool>,
)
    requires
        env.wf(),
        old(sel).sane(env.ctx),
        old(sel).logged(env.ctx),
        li < env.ctx.n_levels(),
        linked(env.ctx, li as int, old(sel)@.levels[li as int]),
        pending_ok(env.ctx, output_scope, pending@),
        forall|ci: int|
            0 <= ci < env.ctx.n() && #[trigger] pends(pending@, ci, true)
                ==> old(sel)@.levels[li as int].codes[ci] is None,
        old(next)@.len() == 0,
        old(inserted)@.len() == 0,
    ensures
        final(sel).sane(env.ctx),
        final(sel).logged(env.ctx),
        final(sel).base == old(sel).base,
        linked(env.ctx, li as int, final(sel)@.levels[li as int]),
        final(sel)@ == old(sel)@.with_level(li as int, final(sel)@.levels[li as int]),
        pending_applied(
            env,
            li as int,
            pending@,
            old(sel)@.levels[li as int],
            final(sel)@.levels[li as int],
        ),
        names_inserted(env, li as int, pending@, final(inserted)@),
        names_passed_on(
            env,
            li as int,
            pending@,
            old(sel)@.levels[li as int].selected,
            final(next)@,
        ),
        final(next)@.len() + final(inserted)@.len() <= pending@.len(),
        forall|l: int, c: u32|
            0 <= l < env.ctx.n_levels() && old(sel).touched(l, c) ==> #[trigger] final(sel).touched(l, c),
        forall|l: int, c: u32|
            0 <= l < env.ctx.n_levels() && l != li && #[trigger] final(sel).touched(l, c) ==> old(
                sel,
            ).touched(l, c),
        forall|ci: int|
            #![trigger final(sel)@.levels[li as int].codes[ci]]
            0 <= ci < env.ctx.n() && final(sel)@.levels[li as int].codes[ci]
                != old(sel)@.levels[li as int].codes[ci] ==> (final(sel)@.levels[li as int].codes[ci] matches Some(
                c,
            ) ==> final(sel).touched(li as int, c)),
{
    let ctx = env.ctx;
    let ghost v0 = sel@;
    let ghost lv0 = v0.levels[li as int];
    proof {
        sel.sane_sized(ctx);
        assert(v0 =~= v0.with_level(li as int, lv0));
        assert(pending@.take(0) =~= Seq::<(usize, bool)>::empty());
    }
    let mut k: usize = 0;
    while k < pending.len()
        invariant
            k <= pending@.len(),
            ctx == env.ctx,
            env.wf(),
            li < ctx.n_levels(),
            v0 == old(sel)@,
            lv0 == v0.levels[li as int],
            v0.levels.len() == ctx.n_levels(),
            lv0.codes.len() == ctx.n(),
            lv0.selected.len() == ctx.n(),
            sel.sane(ctx),
            sel.logged(ctx),
            sel.base == old(sel).base,
            linked(ctx, li as int, sel@.levels[li as int]),
            sel@ == v0.with_level(li as int, sel@.levels[li as int]),
            pending_ok(ctx, output_scope, pending@),
            forall|ci: int|
                0 <= ci < ctx.n() && #[trigger] pends(pending@, ci, true) ==> lv0.codes[ci] is None,
            pending_applied(
                env,
                li as int,
                pending@.take(k as int),
                lv0,
                sel@.levels[li as int],
            ),
            next@.len() + inserted@.len() <= k,
            names_inserted(env, li as int, pending@.take(k as int), inserted@),
            names_passed_on(env, li as int, pending@.take(k as int), lv0.selected, next@),
            forall|l: int, c: u32|
                0 <= l < ctx.n_levels() && old(sel).touched(l, c) ==> #[trigger] sel.touched(l, c),
            forall|l: int, c: u32|
                0 <= l < ctx.n_levels() && l != li && #[trigger] sel.touched(l, c) ==> old(sel).touched(
                    l,
                    c,
                ),
            forall|ci: int|
                #![trigger sel@.levels[li as int].codes[ci]]
                0 <= ci < ctx.n() && sel@.levels[li as int].codes[ci] != lv0.codes[ci] ==> (
                sel@.levels[li as int].codes[ci] matches Some(c) ==> sel.touched(li as int, c)),
        decreases pending@.len() - k,
    {
        let (ci, insert) = pending[k];
        let ghost front = pending@.take(k as int);
        let ghost front2 = pending@.take(k + 1);
        let ghost lv = sel@.levels[li as int];
        let ghost before_sel = *sel;
        let ghost ins0 = inserted@;
        let ghost next0 = next@;
        proof {
            assert(pending@[k as int].0 < ctx.n());
            assert forall|cj: int, ins: bool| 0 <= cj < ctx.n() implies (#[trigger] pends(
                front2,
                cj,
                ins,
            ) <==> pends(front, cj, ins) || (cj == ci && ins == insert)) by {
                pends_step(ctx, pending@, k as int, cj, ins);
            }
            not_in_front(pending@, k as int, ci, true);
            not_in_front(pending@, k as int, ci, false);
            assert(!pends(front, ci as int, true) && !pends(front, ci as int, false));
            assert(lv.codes[ci as int] == lv0.codes[ci as int]);
            assert(lv.selected[ci as int] == lv0.selected[ci as int]);
            assert(sel.levels@[li as int].sane(ctx, ctx.simple_level_capacity@[li as int]));
        }
        if insert {
            proof {
                assert(pending@.contains((ci, true)));
                assert(pends(pending@, ci as int, true));
                if ctx.encodable(ci as int, li as int) {
                    eligible_code_bound(env, ci as int, li as int);
                }
            }
            match ctx.calc_simple_code_eligible(ci, li, env.assignment) {
                Some(code) => {
                    assert(ctx.encodable(ci as int, li as int));
                    enrol(sel, ctx, li, ci, code);
                    inserted.push(ci);
                    proof {
                        assert(!lv0.selected[ci as int]);
                        inserted_step(env, li as int, front, front2, ins0, ci, true);
                        passed_on_step(env, li as int, front, front2, lv0.selected, next0, next@, ci, true);
                    }
                },
                None => {
                    next.push((ci, true));
                    proof {
                        assert(!ctx.encodable(ci as int, li as int));
                        assert(!lv0.selected[ci as int]);
                        inserted_step(env, li as int, front, front2, ins0, ci, true);
                        passed_on_step(env, li as int, front, front2, lv0.selected, next0, next@, ci, true);
                    }
                },
            }
        } else {
            let was_sel = sel.levels[li].selected[ci];
            expel(sel, ctx, li, ci);
            if !was_sel {
                next.push((ci, false));
            }
            proof {
                inserted_step(env, li as int, front, front2, ins0, ci, false);
                passed_on_step(env, li as int, front, front2, lv0.selected, next0, next@, ci, false);
            }
        }
        proof {
            let lv1 = sel@.levels[li as int];
            assert(sel@ =~= v0.with_level(li as int, lv1));
            assert forall|cj: int| #![trigger lv1.codes[cj]] 0 <= cj < ctx.n() implies lv1.codes[cj] == (
            if pends(front2, cj, true) {
                ctx.eligible_code(env.assignment@, cj, li as int)
            } else if pends(front2, cj, false) {
                None
            } else {
                lv0.codes[cj]
            }) by {
                let x = lv.codes[cj];
            }
            assert forall|cj: int| #![trigger lv1.selected[cj]] 0 <= cj < ctx.n() implies lv1.selected[cj]
                == (lv0.selected[cj] && !pends(front2, cj, false)) by {
                let x = lv.selected[cj];
            }
            assert forall|l: int, c: u32| 0 <= l < ctx.n_levels() && old(sel).touched(l, c) implies #[trigger] sel.touched(
                l,
                c,
            ) by {
                assert(before_sel.touched(l, c));
            }
            assert forall|l: int, c: u32|
                0 <= l < ctx.n_levels() && l != li && #[trigger] sel.touched(l, c) implies old(sel).touched(
                l,
                c,
            ) by {
                assert(before_sel.touched(l, c));
            }
            assert forall|cj: int|
                #![trigger lv1.codes[cj]]
                0 <= cj < ctx.n() && lv1.codes[cj] != lv0.codes[cj] implies (lv1.codes[cj] matches Some(
                c,
            ) ==> sel.touched(li as int, c)) by {
                if cj != ci {
                    let x = lv.codes[cj];
                    if let Some(c) = lv1.codes[cj] {
                        assert(before_sel.touched(li as int, c));
                    }
                }
            }
        }
        k = k + 1;
    }
    assert(pending@.take(pending@.len() as int) =~= pending@);
}

/// Nobody is named twice.
proof fn not_in_front(pending: Seq<(usize, bool)>, k: int, ci: usize, insert: bool)
    requires
        0 <= k < pending.len(),
        pending[k].0 == ci,
        forall|i: int, j: int|
            #![trigger pending[i], pending[j]]
            0 <= i < j < pending.len() ==> pending[i].0 != pending[j].0,
    ensures
        !pends(pending.take(k), ci as int, insert),
{
    if pends(pending.take(k), ci as int, insert) {
        let i = pending.take(k).index_of((ci, insert));
        assert(pending.take(k)[i] == (ci, insert));
        assert(pending[i].0 != pending[k].0);
    }
}

proof fn inserted_step(
    env: &Env,
    li: int,
    front: Seq<(usize, bool)>,
    front2: Seq<(usize, bool)>,
    list: Seq<usize>,
    ci: usize,
    insert: bool,
)
    requires
        names_inserted(env, li, front, list),
        ci < env.ctx.n(),
        !pends(front, ci as int, true),
        forall|cj: int, ins: bool|
            0 <= cj < env.ctx.n() ==> (#[trigger] pends(front2, cj, ins) <==> pends(front, cj, ins) || (cj
                == ci && ins == insert)),
    ensures
        names_inserted(
            env,
            li,
            front2,
            if insert && env.ctx.encodable(ci as int, li) {
                list.push(ci)
            } else {
                list
            },
        ),
{
    let list2 = if insert && env.ctx.encodable(ci as int, li) {
        list.push(ci)
    } else {
        list
    };
    assert forall|i: int|
        #![trigger list2[i]]
        0 <= i < list2.len() implies list2[i] < env.ctx.n() && pends(front2, list2[i] as int, true)
        && env.ctx.encodable(list2[i] as int, li) by {
        if i < list.len() {
            assert(list2[i] == list[i]);
            assert(pends(front, list[i] as int, true));
        }
        assert(pends(front2, list2[i] as int, true));
    }
    assert forall|i: int, j: int|
        #![trigger list2[i], list2[j]]
        0 <= i < j < list2.len() implies list2[i] != list2[j] by {
        assert(list2[i] == list[i]);
        if j < list.len() {
            assert(list2[j] == list[j]);
        } else {
            assert(pends(front, list[i] as int, true));
        }
    }
    assert forall|cj: int|
        0 <= cj < env.ctx.n() && #[trigger] pends(front2, cj, true) && env.ctx.encodable(cj, li) implies list2.contains(
    cj as usize) by {
        if pends(front, cj, true) {
            let k = list.index_of(cj as usize);
            assert(list2[k] == cj as usize);
        } else {
            assert(list2[list.len() as int] == cj as usize);
        }
    }
}

proof fn passed_on_step(
    env: &Env,
    li: int,
    front: Seq<(usize, bool)>,
    front2: Seq<(usize, bool)>,
    was: Seq<bool>,
    next: Seq<(usize, bool)>,
    next2: Seq<(usize, bool)>,
    ci: usize,
    insert: bool,
)
    requires
        names_passed_on(env, li, front, was, next),
        ci < env.ctx.n(),
        !pends(front, ci as int, true),
        !pends(front, ci as int, false),
        forall|cj: int, ins: bool|
            0 <= cj < env.ctx.n() ==> (#[trigger] pends(front2, cj, ins) <==> pends(front, cj, ins) || (cj
                == ci && ins == insert)),
        next2 == if passes_on(env, li, front2, was, ci as int, insert) {
            next.push((ci, insert))
        } else {
            next
        },
    ensures
        names_passed_on(env, li, front2, was, next2),
{
    assert forall|i: int|
        #![trigger next2[i]]
        0 <= i < next2.len() implies next2[i].0 < env.ctx.n() && passes_on(
        env,
        li,
        front2,
        was,
        next2[i].0 as int,
        next2[i].1,
    ) by {
        if i < next.len() {
            assert(next2[i] == next[i]);
            assert(passes_on(env, li, front, was, next[i].0 as int, next[i].1));
            assert(pends(front2, next[i].0 as int, next[i].1));
        }
    }
    assert forall|i: int, j: int|
        #![trigger next2[i], next2[j]]
        0 <= i < j < next2.len() implies next2[i].0 != next2[j].0 by {
        assert(next2[i] == next[i]);
        if j < next.len() {
            assert(next2[j] == next[j]);
        } else {
            assert(passes_on(env, li, front, was, next[i].0 as int, next[i].1));
        }
    }
    assert forall|cj: int, ins: bool|
        0 <= cj < env.ctx.n() && #[trigger] passes_on(env, li, front2, was, cj, ins) implies next2.contains(
    (cj as usize, ins)) by {
        assert(pends(front2, cj, ins));
        if pends(front, cj, ins) {
            assert(passes_on(env, li, front, was, cj, ins));
            let k = next.index_of((cj as usize, ins));
            assert(next2[k] == (cj as usize, ins));
        } else {
            assert(next2[next.len() as int] == (cj as usize, ins));
        }
    }
}

/// Whether a list of pending changes names exactly the candidates that reach a level now and did
/// not, or did and do not now.
pub open spec fn pending_exact(
    ctx: &OptContext,
    output_scope: bool,
    base: Seq<LevelView>,
    now: Seq<LevelView>,
    li: int,
    pending: Seq<(usize, bool)>,
) -> bool {
    &&& pending_ok(ctx, output_scope, pending)
    &&& forall|ci: int, insert: bool|
        #![trigger pends(pending, ci, insert)]
        0 <= ci < ctx.n() ==> (pends(pending, ci, insert) <==> in_scope(ctx, output_scope, ci)
            && reached(now, li, ci) == insert && reached(base, li, ci) == !insert)
}

/// Whether a change is due at the level above: `now` and `was` say who is selected at this level.
spec fn due(
    ctx: &OptContext,
    output_scope: bool,
    base: Seq<LevelView>,
    levels: Seq<LevelView>,
    li: int,
    was: Seq<bool>,
    now: Seq<bool>,
    ci: int,
    insert: bool,
) -> bool {
    &&& in_scope(ctx, output_scope, ci)
    &&& (reached(levels, li, ci) && !now[ci]) == insert
    &&& (reached(base, li, ci) && !was[ci]) == !insert
}

/// What a list contains after an entry was appended.
proof fn pushed<T>(s: Seq<T>, x: T)
    ensures
        s.push(x).contains(x),
        forall|y: T| s.contains(y) ==> #[trigger] s.push(x).contains(y),
{
    assert(s.push(x)[s.len() as int] == x);
    assert forall|y: T| s.contains(y) implies #[trigger] s.push(x).contains(y) by {
        let k = s.index_of(y);
        assert(s.push(x)[k] == y);
    }
}

/// Whether a list of characters contains one.
fn list_contains(list: &Vec<usize>, x: usize) -> (r: bool)
    ensures
        r == list@.contains(x),
{
    let mut i: usize = 0;
    while i < list.len()
        invariant
            i <= list@.len(),
            forall|j: int| 0 <= j < i ==> list@[j] != x,
        decreases list@.len() - i,
    {
        if list[i] == x {
            assert(list@[i as int] == x);
            return true;
        }
        i = i + 1;
    }
    false
}

/// Completes the pending changes for the level above: those who lost their code at this level come
/// in, those who got one go out unless they have just come in, and those who have just come in and
/// got none go on.
#[verifier::rlimit(60)]
fn propagate(
    next: &mut Vec<(usize, bool)>,
    inserted: &Vec<usize>,
    newly_sel: &Vec<usize>,
    newly_desel: &Vec<usize>,
    selected: &Vec<bool>,
    env: &Env,
    li: usize,
    Ghost(output_scope): Ghost<bool>,
    Ghost(pending): Ghost<Seq<(usize, bool)>>,
    Ghost(base): Ghost<Seq<LevelView>>,
    Ghost(levels): Ghost<Seq<LevelView>>,
    Ghost(was): Ghost<Seq<bool>>,
    Ghost(mid): Ghost<Seq<bool>>,
)
    requires
        env.wf(),
        li < env.ctx.n_levels(),
        was.len() == env.ctx.n(),
        mid.len() == env.ctx.n(),
        selected@.len() == env.ctx.n(),
        pending_exact(env.ctx, output_scope, base, levels, li as int, pending),
        names_passed_on(env, li as int, pending, was, old(next)@),
        names_inserted(env, li as int, pending, inserted@),
        notes_changes(env.ctx.n(), newly_sel@, 0, mid, selected@, true),
        notes_changes(env.ctx.n(), newly_desel@, 0, mid, selected@, false),
        forall|ci: int|
            0 <= ci < env.ctx.n() ==> #[trigger] mid[ci] == (was[ci] && !pends(pending, ci, false)),
        forall|ci: int|
            0 <= ci < env.ctx.n() && #[trigger] was[ci] ==> in_scope(env.ctx, output_scope, ci)
                && env.ctx.encodable(ci, li as int) && reached(base, li as int, ci),
        forall|ci: int|
            0 <= ci < env.ctx.n() && #[trigger] selected@[ci] ==> in_scope(env.ctx, output_scope, ci)
                && env.ctx.encodable(ci, li as int) && reached(levels, li as int, ci),
    ensures
        final(next)@.len() <= old(next)@.len() + inserted@.len() + newly_sel@.len() + newly_desel@.len(),
        pending_ok(env.ctx, output_scope, final(next)@),
        forall|ci: int, insert: bool|
            #![trigger pends(final(next)@, ci, insert)]
            0 <= ci < env.ctx.n() ==> (pends(final(next)@, ci, insert) <==> due(
                env.ctx,
                output_scope,
                base,
                levels,
                li as int,
                was,
                selected@,
                ci,
                insert,
            )),
{
    let ctx = env.ctx;
    let ghost now = selected@;
    let ghost next0 = next@;
    let ghost out = output_scope;
    proof {
        assert forall|i: int| #![trigger next@[i]] 0 <= i < next@.len() implies next@[i].0 < ctx.n() && due(
            ctx,
            out,
            base,
            levels,
            li as int,
            was,
            now,
            next@[i].0 as int,
            next@[i].1,
        ) && !mid[next@[i].0 as int] && !now[next@[i].0 as int] by {
            let (ci, insert) = (next@[i].0 as int, next@[i].1);
            assert(passes_on(env, li as int, pending, was, ci, insert));
            assert(pends(pending, ci, insert));
            let x = mid[ci];
            let y = now[ci];
            let z = was[ci];
        }
    }
    let mut i: usize = 0;
    while i < newly_desel.len()
        invariant
            i <= newly_desel@.len(),
            next@.len() == next0.len() + i,
            ctx == env.ctx,
            out == output_scope,
            now == selected@,
            was.len() == ctx.n(),
            mid.len() == ctx.n(),
            now.len() == ctx.n(),
            pending_exact(ctx, out, base, levels, li as int, pending),
            notes_changes(ctx.n(), newly_desel@, 0, mid, now, false),
            forall|ci: int|
                0 <= ci < ctx.n() ==> #[trigger] mid[ci] == (was[ci] && !pends(pending, ci, false)),
            forall|ci: int|
                0 <= ci < ctx.n() && #[trigger] was[ci] ==> in_scope(ctx, out, ci) && ctx.encodable(
                    ci,
                    li as int,
                ) && reached(base, li as int, ci),
            forall|j: int|
                #![trigger next@[j]]
                0 <= j < next@.len() ==> next@[j].0 < ctx.n() && due(
                    ctx,
                    out,
                    base,
                    levels,
                    li as int,
                    was,
                    now,
                    next@[j].0 as int,
                    next@[j].1,
                ) && !now[next@[j].0 as int] && (!mid[next@[j].0 as int] || (exists|k: int|
                    0 <= k < i && #[trigger] newly_desel@[k] == next@[j].0)) && (mid[next@[j].0 as int]
                    || next0.contains(next@[j])),
            forall|j: int, k: int|
                #![trigger next@[j], next@[k]]
                0 <= j < k < next@.len() ==> next@[j].0 != next@[k].0,
            forall|e: (usize, bool)| #[trigger] next0.contains(e) ==> next@.contains(e),
            forall|k: int| 0 <= k < i ==> next@.contains((#[trigger] newly_desel@[k], true)),
        decreases newly_desel@.len() - i,
    {
        let ci = newly_desel[i];
        let ghost before = next@;
        proof {
            assert(newly_desel@[i as int] < ctx.n());
            let x = mid[ci as int];
            assert(was[ci as int]);
            pushed(before, (ci, true));
            assert(!pends(pending, ci as int, false));
        }
        next.push((ci, true));
        proof {
            assert forall|j: int, k: int|
                #![trigger next@[j], next@[k]]
                0 <= j < k < next@.len() implies next@[j].0 != next@[k].0 by {
                if k == before.len() {
                    assert(before[j] == next@[j]);
                    if before[j].0 == ci {
                        let m = choose|m: int| 0 <= m < i && #[trigger] newly_desel@[m] == before[j].0;
                        assert(newly_desel@[m] != newly_desel@[i as int]);
                    }
                } else {
                    assert(before[j] == next@[j] && before[k] == next@[k]);
                }
            }
            assert(newly_desel@[i as int] == ci);
        }
        i = i + 1;
    }
    let ghost next1 = next@;
    let mut i: usize = 0;
    while i < newly_sel.len()
        invariant
            i <= newly_sel@.len(),
            next@.len() <= next1.len() + i,
            ctx == env.ctx,
            out == output_scope,
            now == selected@,
            was.len() == ctx.n(),
            mid.len() == ctx.n(),
            now.len() == ctx.n(),
            pending_exact(ctx, out, base, levels, li as int, pending),
            names_inserted(env, li as int, pending, inserted@),
            notes_changes(ctx.n(), newly_sel@, 0, mid, now, true),
            forall|ci: int|
                0 <= ci < ctx.n() ==> #[trigger] mid[ci] == (was[ci] && !pends(pending, ci, false)),
            forall|ci: int|
                0 <= ci < ctx.n() && #[trigger] now[ci] ==> in_scope(ctx, out, ci) && ctx.encodable(
                    ci,
                    li as int,
                ) && reached(levels, li as int, ci),
            forall|j: int|
                #![trigger next@[j]]
                0 <= j < next@.len() ==> next@[j].0 < ctx.n() && due(
                    ctx,
                    out,
                    base,
                    levels,
                    li as int,
                    was,
                    now,
                    next@[j].0 as int,
                    next@[j].1,
                ) && (!now[next@[j].0 as int] || (exists|k: int|
                    0 <= k < i && #[trigger] newly_sel@[k] == next@[j].0)) && (now[next@[j].0 as int]
                    || mid[next@[j].0 as int] || next0.contains(next@[j])),
            forall|j: int, k: int|
                #![trigger next@[j], next@[k]]
                0 <= j < k < next@.len() ==> next@[j].0 != next@[k].0,
            forall|e: (usize, bool)| #[trigger] next1.contains(e) ==> next@.contains(e),
            forall|k: int|
                0 <= k < i && !inserted@.contains(#[trigger] newly_sel@[k]) ==> next@.contains(
                    (newly_sel@[k], false),
                ),
        decreases newly_sel@.len() - i,
    {
        let ci = newly_sel[i];
        let ghost before = next@;
        proof {
            assert(newly_sel@[i as int] < ctx.n());
            let x = mid[ci as int];
            assert(now[ci as int]);
        }
        if !list_contains(inserted, ci) {
            proof {
                assert(!pends(pending, ci as int, true));
                assert(!pends(pending, ci as int, false));
                pushed(before, (ci, false));
            }
            next.push((ci, false));
            proof {
                assert forall|j: int, k: int|
                    #![trigger next@[j], next@[k]]
                    0 <= j < k < next@.len() implies next@[j].0 != next@[k].0 by {
                    if k == before.len() {
                        assert(before[j] == next@[j]);
                        if before[j].0 == ci {
                            let m = choose|m: int|
                                0 <= m < i && #[trigger] newly_sel@[m] == before[j].0;
                            assert(newly_sel@[m] != newly_sel@[i as int]);
                        }
                    } else {
                        assert(before[j] == next@[j] && before[k] == next@[k]);
                    }
                }
                assert(newly_sel@[i as int] == ci);
            }
        }
        i = i + 1;
    }
    let ghost next2 = next@;
    let mut i: usize = 0;
    while i < inserted.len()
        invariant
            i <= inserted@.len(),
            next@.len() <= next2.len() + i,
            ctx == env.ctx,
            out == output_scope,
            now == selected@,
            was.len() == ctx.n(),
            mid.len() == ctx.n(),
            now.len() == ctx.n(),
            pending_exact(ctx, out, base, levels, li as int, pending),
            names_inserted(env, li as int, pending, inserted@),
            names_passed_on(env, li as int, pending, was, next0),
            forall|ci: int|
                0 <= ci < ctx.n() ==> #[trigger] mid[ci] == (was[ci] && !pends(pending, ci, false)),
            forall|ci: int|
                0 <= ci < ctx.n() && #[trigger] was[ci] ==> in_scope(ctx, out, ci) && ctx.encodable(
                    ci,
                    li as int,
                ) && reached(base, li as int, ci),
            forall|j: int|
                #![trigger next@[j]]
                0 <= j < next@.len() ==> next@[j].0 < ctx.n() && due(
                    ctx,
                    out,
                    base,
                    levels,
                    li as int,
                    was,
                    now,
                    next@[j].0 as int,
                    next@[j].1,
                ) && (now[next@[j].0 as int] || mid[next@[j].0 as int] || next0.contains(next@[j])
                    || (exists|k: int| 0 <= k < i && #[trigger] inserted@[k] == next@[j].0)),
            forall|j: int, k: int|
                #![trigger next@[j], next@[k]]
                0 <= j < k < next@.len() ==> next@[j].0 != next@[k].0,
            forall|e: (usize, bool)| #[trigger] next2.contains(e) ==> next@.contains(e),
            forall|k: int|
                0 <= k < i && !now[(#[trigger] inserted@[k]) as int] ==> next@.contains(
                    (inserted@[k], true),
                ),
        decreases inserted@.len() - i,
    {
        let ci = inserted[i];
        let ghost before = next@;
        proof {
            assert(inserted@[i as int] < ctx.n());
            assert(pends(pending, ci as int, true));
            let x = was[ci as int];
            let y = mid[ci as int];
        }
        if !selected[ci] {
            proof {
                pushed(before, (ci, true));
            }
            next.push((ci, true));
            proof {
                assert forall|j: int, k: int|
                    #![trigger next@[j], next@[k]]
                    0 <= j < k < next@.len() implies next@[j].0 != next@[k].0 by {
                    if k == before.len() {
                        assert(before[j] == next@[j]);
                        if before[j].0 == ci {
                            if next0.contains(before[j]) {
                                let m = next0.index_of(before[j]);
                                assert(next0[m] == before[j]);
                                assert(passes_on(
                                    env,
                                    li as int,
                                    pending,
                                    was,
                                    ci as int,
                                    before[j].1,
                                ));
                                assert(pends(pending, ci as int, before[j].1));
                            } else {
                                let m = choose|m: int|
                                    0 <= m < i && #[trigger] inserted@[m] == before[j].0;
                                assert(inserted@[m] != inserted@[i as int]);
                            }
                        }
                    } else {
                        assert(before[j] == next@[j] && before[k] == next@[k]);
                    }
                }
                assert(inserted@[i as int] == ci);
            }
        }
        i = i + 1;
    }
    proof {
        assert forall|ci: int, insert: bool|
            #![trigger pends(next@, ci, insert)]
            0 <= ci < ctx.n() implies (pends(next@, ci, insert) <==> due(
            ctx,
            out,
            base,
            levels,
            li as int,
            was,
            now,
            ci,
            insert,
        )) by {
            let e = (ci as usize, insert);
            if pends(next@, ci, insert) {
                let j = next@.index_of(e);
                assert(next@[j] == e);
            }
            if due(ctx, out, base, levels, li as int, was, now, ci, insert) {
                let a = pends(pending, ci, true);
                let b = pends(pending, ci, false);
                let x = was[ci];
                let y = mid[ci];
                let z = now[ci];
                if passes_on(env, li as int, pending, was, ci, insert) {
                    assert(next0.contains(e));
                    assert(next1.contains(e));
                    assert(next2.contains(e));
                } else if insert {
                    if b {
                    } else if a {
                        // Let in, can have a code here, and got none.
                        assert(ctx.encodable(ci, li as int));
                        let k = inserted@.index_of(ci as usize);
                        assert(inserted@[k] == ci as usize);
                        assert(next@.contains((inserted@[k], true)));
                    } else {
                        // Had a code here and lost it.
                        assert(was[ci] && mid[ci] && !now[ci]);
                        let k = choose|k: int|
                            0 <= k < newly_desel@.len() && #[trigger] newly_desel@[k] == ci;
                        assert(next1.contains((newly_desel@[k], true)));
                        assert(next2.contains(e));
                    }
                } else {
                    // Got a code here.
                    if !b {
                        assert(now[ci] && !mid[ci]);
                        let k = choose|k: int|
                            0 <= k < newly_sel@.len() && #[trigger] newly_sel@[k] == ci;
                        if inserted@.contains(newly_sel@[k]) {
                            let m = inserted@.index_of(ci as usize);
                            assert(inserted@[m] == ci as usize);
                            assert(pends(pending, inserted@[m] as int, true));
                        }
                        assert(next2.contains((newly_sel@[k], false)));
                    }
                }
            }
        }
    }
}

/// Whether levels have changed in nothing but buckets and codes.
pub open spec fn same_selection(before: SelView, after: SelView) -> bool {
    &&& after.levels.len() == before.levels.len()
    &&& after.assigned == before.assigned
    &&& forall|li: int|
        #![trigger after.levels[li]]
        0 <= li < before.levels.len() ==> {
            &&& after.levels[li].selected == before.levels[li].selected
            &&& after.levels[li].keys == before.levels[li].keys
            &&& after.levels[li].codes.len() == before.levels[li].codes.len()
        }
}

/// Whether the first `k` of the affected candidates have their codes under the assignment at every
/// level at which they contend, and nobody else's code has changed.
pub open spec fn recoded(
    env: &Env,
    affected: Seq<usize>,
    before: Seq<LevelView>,
    after: Seq<LevelView>,
) -> bool {
    forall|li: int, ci: int|
        #![trigger after[li].codes[ci]]
        0 <= li < env.ctx.n_levels() && 0 <= ci < env.ctx.n() ==> after[li].codes[ci] == if affected.contains(
            ci as usize,
        ) && before[li].codes[ci] is Some {
            env.ctx.eligible_code(env.assignment@, ci, li)
        } else {
            before[li].codes[ci]
        }
}

/// Puts every affected candidate into the bucket of the code that it has under the assignment, at
/// every level at which it contends. Says how often that was looked into.
fn relocate_affected(
    sel: &mut Selection,
    env: &Env,
    affected: &Vec<usize>,
    Ghost(output_scope): Ghost<bool>,
) -> (visited: usize)
    requires
        env.wf(),
        old(sel).sane(env.ctx),
        old(sel).logged(env.ctx),
        all_linked(env.ctx, old(sel)@.levels),
        shape(env.ctx, output_scope, old(sel)@.levels),
        forall|i: int| 0 <= i < affected@.len() ==> (#[trigger] affected@[i]) < env.ctx.n(),
    ensures
        final(sel).sane(env.ctx),
        final(sel).logged(env.ctx),
        final(sel).base == old(sel).base,
        all_linked(env.ctx, final(sel)@.levels),
        same_selection(old(sel)@, final(sel)@),
        recoded(env, affected@, old(sel)@.levels, final(sel)@.levels),
        visited <= affected@.len() * env.ctx.n_levels(),
        forall|l: int, c: u32|
            0 <= l < env.ctx.n_levels() && old(sel).touched(l, c) ==> #[trigger] final(sel).touched(l, c),
{
    let ctx = env.ctx;
    let ghost v0 = sel@;
    proof {
        sel.sane_sized(ctx);
        assert(affected@.take(0) =~= Seq::<usize>::empty());
    }
    let mut visited: usize = 0;
    let mut i: usize = 0;
    while i < affected.len()
        invariant
            i <= affected@.len(),
            visited <= i * ctx.n_levels(),
            ctx == env.ctx,
            env.wf(),
            v0 == old(sel)@,
            levels_sized(ctx, v0.levels),
            shape(ctx, output_scope, v0.levels),
            sel.sane(ctx),
            sel.logged(ctx),
            sel.base == old(sel).base,
            all_linked(ctx, sel@.levels),
            same_selection(v0, sel@),
            recoded(env, affected@.take(i as int), v0.levels, sel@.levels),
            forall|j: int| 0 <= j < affected@.len() ==> (#[trigger] affected@[j]) < ctx.n(),
            forall|l: int, c: u32|
                0 <= l < ctx.n_levels() && old(sel).touched(l, c) ==> #[trigger] sel.touched(l, c),
        decreases affected@.len() - i,
    {
        let ci = affected[i];
        assert(affected@[i as int] < ctx.n());
        let ghost front = affected@.take(i as int);
        let ghost front2 = affected@.take(i + 1);
        let n_levels = ctx.simple_config.levels.len();
        let mut li: usize = 0;
        while li < n_levels
            invariant
                li <= n_levels == ctx.n_levels(),
                visited <= i * ctx.n_levels() + li,
                ctx == env.ctx,
                env.wf(),
                v0 == old(sel)@,
                levels_sized(ctx, v0.levels),
                shape(ctx, output_scope, v0.levels),
                ci < ctx.n(),
                sel.sane(ctx),
                sel.logged(ctx),
                sel.base == old(sel).base,
                all_linked(ctx, sel@.levels),
                same_selection(v0, sel@),
                forall|l: int, cj: int|
                    #![trigger sel@.levels[l].codes[cj]]
                    0 <= l < ctx.n_levels() && 0 <= cj < ctx.n() ==> sel@.levels[l].codes[cj] == if (
                    front.contains(cj as usize) || (cj == ci && l < li)) && v0.levels[l].codes[cj] is Some {
                        ctx.eligible_code(env.assignment@, cj, l)
                    } else {
                        v0.levels[l].codes[cj]
                    },
                forall|l: int, c: u32|
                    0 <= l < ctx.n_levels() && old(sel).touched(l, c) ==> #[trigger] sel.touched(l, c),
            decreases n_levels - li,
        {
            let ghost mid = sel@;
            let ghost mid_sel = *sel;
            proof {
                assert(sel.levels@[li as int].sane(ctx, ctx.simple_level_capacity@[li as int]));
                let x = mid.levels[li as int].codes[ci as int];
                let y = v0.levels[li as int].codes[ci as int];
            }
            match sel.levels[li].current_simple_code[ci] {
                None => {
                    proof {
                        assert(mid.levels[li as int].codes[ci as int] is None);
                        if v0.levels[li as int].codes[ci as int] is Some {
                            eligible_code_bound(env, ci as int, li as int);
                        }
                    }
                },
                Some(old_code) => {
                    proof {
                        assert(mid.levels[li as int].codes[ci as int] == Some(old_code));
                        assert(v0.levels[li as int].codes[ci as int] is Some);
                        eligible_code_bound(env, ci as int, li as int);
                    }
                    visited = visited.saturating_add(1);
                    match ctx.calc_simple_code_eligible(ci, li, env.assignment) {
                        None => {},
                        Some(new_code) => {
                            if new_code != old_code {
                                relocate(sel, ctx, li, ci, new_code);
                                proof {
                                    let lv = sel@.levels[li as int];
                                    assert(sel@.levels == mid.levels.update(li as int, lv));
                                    assert(lv.selected =~= mid.levels[li as int].selected);
                                    assert forall|l: int| 0 <= l < ctx.n_levels() implies linked(
                                        ctx,
                                        l,
                                        #[trigger] sel@.levels[l],
                                    ) by {
                                        assert(linked(ctx, l, mid.levels[l]));
                                    }
                                    assert forall|l: int|
                                        #![trigger sel@.levels[l]]
                                        0 <= l < v0.levels.len() implies {
                                        &&& sel@.levels[l].selected == v0.levels[l].selected
                                        &&& sel@.levels[l].keys == v0.levels[l].keys
                                        &&& sel@.levels[l].codes.len() == v0.levels[l].codes.len()
                                    } by {
                                        let x = mid.levels[l];
                                    }
                                    assert forall|l: int, cj: int|
                                        #![trigger sel@.levels[l].codes[cj]]
                                        0 <= l < ctx.n_levels() && 0 <= cj < ctx.n() implies sel@.levels[l].codes[cj]
                                        == if (front.contains(cj as usize) || (cj == ci && l < li + 1))
                                        && v0.levels[l].codes[cj] is Some {
                                        ctx.eligible_code(env.assignment@, cj, l)
                                    } else {
                                        v0.levels[l].codes[cj]
                                    } by {
                                        let x = mid.levels[l].codes[cj];
                                    }
                                    assert forall|l: int, c: u32|
                                        0 <= l < ctx.n_levels() && old(sel).touched(l, c) implies #[trigger] sel.touched(
                                        l,
                                        c,
                                    ) by {
                                        assert(mid_sel.touched(l, c));
                                    }
                                }
                            }
                        },
                    }
                },
            }
            li = li + 1;
        }
        proof {
            assert((i + 1) * ctx.n_levels() == i * ctx.n_levels() + ctx.n_levels()) by (nonlinear_arith);
            assert forall|x: usize| front2.contains(x) <==> front.contains(x) || x == ci by {
                if front.contains(x) {
                    let k = front.index_of(x);
                    assert(front2[k] == x);
                }
                if x == ci {
                    assert(front2[i as int] == x);
                }
                if front2.contains(x) {
                    let k = front2.index_of(x);
                    if k < i {
                        assert(front[k] == x);
                    }
                }
            }
        }
        i = i + 1;
    }
    assert(affected@.take(affected@.len() as int) =~= affected@);
    visited
}

/// Puts down the buckets of the given codes at every level that has them.
fn touch_codes(sel: &mut Selection, env: &Env, codes: &Vec<u32>)
    requires
        env.wf(),
        old(sel).sane(env.ctx),
        old(sel).logged(env.ctx),
    ensures
        final(sel).sane(env.ctx),
        final(sel).logged(env.ctx),
        final(sel).base == old(sel).base,
        final(sel)@ == old(sel)@,
        forall|l: int, c: u32|
            0 <= l < env.ctx.n_levels() && old(sel).touched(l, c) ==> #[trigger] final(sel).touched(l, c),
        forall|l: int, c: u32|
            0 <= l < env.ctx.n_levels() && codes@.contains(c) && c < env.ctx.simple_level_capacity@[l]
                ==> #[trigger] final(sel).touched(l, c),
{
    let ctx = env.ctx;
    let n_levels = ctx.simple_config.levels.len();
    let mut i: usize = 0;
    while i < codes.len()
        invariant
            i <= codes@.len(),
            ctx == env.ctx,
            n_levels == ctx.n_levels(),
            env.wf(),
            sel.sane(ctx),
            sel.logged(ctx),
            sel.base == old(sel).base,
            sel@ == old(sel)@,
            forall|l: int, c: u32|
                0 <= l < ctx.n_levels() && old(sel).touched(l, c) ==> #[trigger] sel.touched(l, c),
            forall|l: int, k: int|
                0 <= l < ctx.n_levels() && 0 <= k < i && codes@[k] < ctx.simple_level_capacity@[l]
                    ==> #[trigger] sel.touched(l, codes@[k]),
        decreases codes@.len() - i,
    {
        let code = codes[i];
        let mut li: usize = 0;
        while li < n_levels
            invariant
                li <= n_levels == ctx.n_levels(),
                ctx == env.ctx,
                env.wf(),
                sel.sane(ctx),
                sel.logged(ctx),
                sel.base == old(sel).base,
                sel@ == old(sel)@,
                forall|l: int, c: u32|
                    0 <= l < ctx.n_levels() && old(sel).touched(l, c) ==> #[trigger] sel.touched(l, c),
                forall|l: int, k: int|
                    0 <= l < ctx.n_levels() && 0 <= k < i && codes@[k] < ctx.simple_level_capacity@[l]
                        ==> #[trigger] sel.touched(l, codes@[k]),
                forall|l: int|
                    0 <= l < li && code < ctx.simple_level_capacity@[l] ==> #[trigger] sel.touched(
                        l,
                        code,
                    ),
            decreases n_levels - li,
        {
            if (code as usize) < ctx.simple_level_capacity[li] {
                sel.touch_bucket(ctx, li, code);
            }
            li = li + 1;
        }
        i = i + 1;
    }
    proof {
        assert forall|l: int, c: u32|
            0 <= l < ctx.n_levels() && codes@.contains(c) && c < ctx.simple_level_capacity@[l] implies #[trigger] sel.touched(
        l, c) by {
            let k = codes@.index_of(c);
            assert(sel.touched(l, codes@[k]));
        }
    }
}

/// Whether every bucket that holds one of the given characters was put down.
pub open spec fn seeds_touched(ctx: &OptContext, sel: &Selection, seeds: Seq<usize>) -> bool {
    forall|l: int, ci: int|
        #![trigger sel@.levels[l].codes[ci]]
        0 <= l < ctx.n_levels() && 0 <= ci < ctx.n() && seeds.contains(ci as usize) ==> (
        sel@.levels[l].codes[ci] matches Some(c) ==> sel.touched(l, c))
}

/// Puts down the buckets that hold the given characters. Says how many times there was one.
fn touch_seeds(sel: &mut Selection, env: &Env, seeds: &Vec<usize>) -> (visited: usize)
    requires
        env.wf(),
        old(sel).sane(env.ctx),
        old(sel).logged(env.ctx),
        all_linked(env.ctx, old(sel)@.levels),
        forall|i: int| 0 <= i < seeds@.len() ==> (#[trigger] seeds@[i]) < env.ctx.n(),
    ensures
        final(sel).sane(env.ctx),
        final(sel).logged(env.ctx),
        final(sel).base == old(sel).base,
        final(sel)@ == old(sel)@,
        forall|l: int, c: u32|
            0 <= l < env.ctx.n_levels() && old(sel).touched(l, c) ==> #[trigger] final(sel).touched(l, c),
        seeds_touched(env.ctx, final(sel), seeds@),
        visited <= seeds@.len() * env.ctx.n_levels(),
{
    let ctx = env.ctx;
    let n_levels = ctx.simple_config.levels.len();
    let mut visited: usize = 0;
    let mut i: usize = 0;
    while i < seeds.len()
        invariant
            i <= seeds@.len(),
            visited <= i * ctx.n_levels(),
            ctx == env.ctx,
            n_levels == ctx.n_levels(),
            env.wf(),
            sel.sane(ctx),
            sel.logged(ctx),
            sel.base == old(sel).base,
            sel@ == old(sel)@,
            all_linked(ctx, sel@.levels),
            forall|j: int| 0 <= j < seeds@.len() ==> (#[trigger] seeds@[j]) < ctx.n(),
            forall|l: int, c: u32|
                0 <= l < ctx.n_levels() && old(sel).touched(l, c) ==> #[trigger] sel.touched(l, c),
            forall|l: int, k: int|
                #![trigger sel@.levels[l].codes[seeds@[k] as int]]
                0 <= l < ctx.n_levels() && 0 <= k < i ==> (
                sel@.levels[l].codes[seeds@[k] as int] matches Some(c) ==> sel.touched(l, c)),
        decreases seeds@.len() - i,
    {
        let ci = seeds[i];
        assert(seeds@[i as int] < ctx.n());
        let mut li: usize = 0;
        while li < n_levels
            invariant
                li <= n_levels == ctx.n_levels(),
                visited <= i * ctx.n_levels() + li,
                ctx == env.ctx,
                env.wf(),
                ci < ctx.n(),
                sel.sane(ctx),
                sel.logged(ctx),
                sel.base == old(sel).base,
                sel@ == old(sel)@,
                all_linked(ctx, sel@.levels),
                forall|l: int, c: u32|
                    0 <= l < ctx.n_levels() && old(sel).touched(l, c) ==> #[trigger] sel.touched(l, c),
                forall|l: int, k: int|
                    #![trigger sel@.levels[l].codes[seeds@[k] as int]]
                    0 <= l < ctx.n_levels() && 0 <= k < i ==> (
                    sel@.levels[l].codes[seeds@[k] as int] matches Some(c) ==> sel.touched(l, c)),
                forall|l: int|
                    #![trigger sel@.levels[l].codes[ci as int]]
                    0 <= l < li ==> (sel@.levels[l].codes[ci as int] matches Some(c) ==> sel.touched(
                        l,
                        c,
                    )),
            decreases n_levels - li,
        {
            assert(sel.levels@[li as int].sane(ctx, ctx.simple_level_capacity@[li as int]));
            match sel.levels[li].current_simple_code[ci] {
                None => {},
                Some(code) => {
                    proof {
                        assert(linked(ctx, li as int, sel@.levels[li as int]));
                        assert(sel@.levels[li as int].codes[ci as int] == Some(code));
                    }
                    visited = visited.saturating_add(1);
                    sel.touch_bucket(ctx, li, code);
                },
            }
            li = li + 1;
        }
        assert((i + 1) * ctx.n_levels() == i * ctx.n_levels() + ctx.n_levels()) by (nonlinear_arith);
        i = i + 1;
    }
    proof {
        assert forall|l: int, ci: int|
            #![trigger sel@.levels[l].codes[ci]]
            0 <= l < ctx.n_levels() && 0 <= ci < ctx.n() && seeds@.contains(ci as usize) implies (
        sel@.levels[l].codes[ci] matches Some(c) ==> sel.touched(l, c)) by {
            let k = seeds@.index_of(ci as usize);
            let x = sel@.levels[l].codes[seeds@[k] as int];
        }
    }
    visited
}

/// Whether the contest below level `li` is that of the current selection.
pub open spec fn shaped_below(ctx: &OptContext, out: bool, levels: Seq<LevelView>, li: int) -> bool {
    forall|lj: int, ci: int|
        #![trigger levels[lj].codes[ci]]
        0 <= lj < li && 0 <= ci < ctx.n() ==> (levels[lj].codes[ci] is Some <==> in_scope(ctx, out, ci)
            && ctx.encodable(ci, lj) && reached(levels, lj, ci))
}

/// Whether the levels from `li` on are as they were before the first was settled, and select whom
/// they selected at the start.
spec fn untouched_from(
    ctx: &OptContext,
    base: Seq<LevelView>,
    entry: Seq<LevelView>,
    levels: Seq<LevelView>,
    li: int,
) -> bool {
    forall|lj: int|
        #![trigger levels[lj]]
        li <= lj < ctx.n_levels() ==> levels[lj].codes == entry[lj].codes && levels[lj].selected
            == base[lj].selected
}

/// Whether all buckets put down below level `li` are settled.
pub open spec fn settled_below(env: &Env, sel: &Selection, li: int) -> bool {
    forall|lj: int, c: u32|
        #![trigger sel@.levels[lj].members.contains_key(c)]
        0 <= lj < li && sel@.levels[lj].members.contains_key(c) && sel.touched(lj, c) ==> settled(
            env,
            lj,
            sel@.levels[lj],
            c,
        )
}

/// Whether those who contend have the code that they had before the first level was settled, or
/// came in with their code under the assignment.
pub open spec fn codes_follow(env: &Env, entry: Seq<LevelView>, levels: Seq<LevelView>) -> bool {
    forall|lj: int, ci: int|
        #![trigger levels[lj].codes[ci]]
        0 <= lj < env.ctx.n_levels() && 0 <= ci < env.ctx.n() && levels[lj].codes[ci] is Some
            ==> levels[lj].codes[ci] == if entry[lj].codes[ci] is Some {
            entry[lj].codes[ci]
        } else {
            env.ctx.eligible_code(env.assignment@, ci, lj)
        }
}

/// Settles one level: lets in and keeps out whom the levels below ask for, settles the buckets put
/// down, and finds out what to ask of the level above. Says how many candidates were looked at.
#[verifier::rlimit(80)]
fn settle_level(
    sel: &mut Selection,
    env: &Env,
    li: usize,
    pending: Vec<(usize, bool)>,
    Ghost(out): Ghost<bool>,
    Ghost(entry): Ghost<Seq<LevelView>>,
    Ghost(seeds): Ghost<Seq<usize>>,
) -> (r: (Vec<(usize, bool)>, usize))
    requires
        env.wf(),
        li < env.ctx.n_levels(),
        old(sel).sane(env.ctx),
        old(sel).logged(env.ctx),
        all_linked(env.ctx, old(sel)@.levels),
        all_linked(env.ctx, old(sel).base@.levels),
        shape(env.ctx, out, old(sel).base@.levels),
        env.ctx.candidate_list_ok(env.ctx.candidates(out)),
        entry.len() == env.ctx.n_levels(),
        same_contest(env.ctx, old(sel).base@.levels, entry),
        shaped_below(env.ctx, out, old(sel)@.levels, li as int),
        untouched_from(env.ctx, old(sel).base@.levels, entry, old(sel)@.levels, li as int),
        settled_below(env, old(sel), li as int),
        codes_follow(env, entry, old(sel)@.levels),
        marks_right(env.ctx, old(sel)@),
        seeds_touched(env.ctx, old(sel), seeds),
        pending_exact(
            env.ctx,
            out,
            old(sel).base@.levels,
            old(sel)@.levels,
            li as int,
            pending@,
        ),
    ensures
        final(sel).sane(env.ctx),
        final(sel).logged(env.ctx),
        final(sel).base == old(sel).base,
        all_linked(env.ctx, final(sel)@.levels),
        shaped_below(env.ctx, out, final(sel)@.levels, li + 1),
        untouched_from(env.ctx, old(sel).base@.levels, entry, final(sel)@.levels, li + 1),
        settled_below(env, final(sel), li + 1),
        codes_follow(env, entry, final(sel)@.levels),
        marks_right(env.ctx, final(sel)@),
        seeds_touched(env.ctx, final(sel), seeds),
        pending_exact(
            env.ctx,
            out,
            old(sel).base@.levels,
            final(sel)@.levels,
            li + 1,
            r.0@,
        ),
        forall|l: int, c: u32|
            0 <= l < env.ctx.n_levels() && old(sel).touched(l, c) ==> #[trigger] final(sel).touched(l, c),
        forall|l: int, c: u32|
            0 <= l < env.ctx.n_levels() && l != li && #[trigger] final(sel).touched(l, c) ==> old(
                sel,
            ).touched(l, c),
        forall|l: int|
            0 <= l < env.ctx.n_levels() && l != li ==> #[trigger] final(sel)@.levels[l] == old(sel)@.levels[l],
        r.1 <= pending@.len() + touched_at(env.ctx, final(sel), li as int),
        r.0@.len() <= pending@.len() + touched_at(env.ctx, final(sel), li as int),
{
    let ctx = env.ctx;
    let ghost base = sel.base@.levels;
    let ghost v0 = sel@;
    let ghost l = li as int;
    let ghost sel0 = *sel;
    let mut next: Vec<(usize, bool)> = Vec::new();
    let mut inserted: Vec<usize> = Vec::new();
    let mut newly_sel: Vec<usize> = Vec::new();
    let mut newly_desel: Vec<usize> = Vec::new();
    proof {
        sel.sane_sized(ctx);
        assert(linked(ctx, l, v0.levels[l]));
        assert forall|ci: int| 0 <= ci < ctx.n() && #[trigger] pends(pending@, ci, true) implies v0.levels[l].codes[ci] is None by {
            assert(!reached(base, l, ci));
            let x = base[l].codes[ci];
            let y = entry[l].codes[ci];
        }
    }
    apply_pending(sel, env, li, &pending, &mut next, &mut inserted, Ghost(out));
    let ghost va = sel@;
    let ghost sel_a = *sel;
    proof {
        assert forall|ci: int| 0 <= ci < ctx.n() implies reached(va.levels, l, ci) == reached(
            v0.levels,
            l,
            ci,
        ) by {
            reached_below(v0.levels, va.levels, l, ci);
        }
        assert forall|ci: int|
            #![trigger va.levels[l].codes[ci]]
            0 <= ci < ctx.n() implies (va.levels[l].codes[ci] is Some <==> in_scope(ctx, out, ci)
            && ctx.encodable(ci, l) && reached(v0.levels, l, ci)) by {
            let a = pends(pending@, ci, true);
            let b = pends(pending@, ci, false);
            let x = base[l].codes[ci];
            let y = entry[l].codes[ci];
            if ctx.encodable(ci, l) {
                eligible_code_bound(env, ci, l);
            }
        }
    }
    let settled_now = settle_dirty(sel, env, li, &mut newly_sel, &mut newly_desel);
    let ghost vb = sel@;
    proof {
        assert forall|ci: int| 0 <= ci < ctx.n() implies reached(vb.levels, l, ci) == reached(
            v0.levels,
            l,
            ci,
        ) by {
            reached_below(v0.levels, vb.levels, l, ci);
        }
        let was = v0.levels[l].selected;
        assert(was == base[l].selected);
        assert forall|ci: int| 0 <= ci < ctx.n() && #[trigger] was[ci] implies in_scope(ctx, out, ci)
            && ctx.encodable(ci, l) && reached(base, l, ci) by {
            assert(linked(ctx, l, base[l]));
            assert(base[l].selected[ci]);
            let x = base[l].codes[ci];
        }
        assert(linked(ctx, l, vb.levels[l]));
        let now = vb.levels[l].selected;
        assert forall|ci: int| 0 <= ci < ctx.n() && #[trigger] now[ci] implies in_scope(ctx, out, ci)
            && ctx.encodable(ci, l) && reached(v0.levels, l, ci) by {
            let x = vb.levels[l].codes[ci];
            let y = va.levels[l].codes[ci];
        }
        sel.sane_sized(ctx);
        assert(sel.levels@[l].sane(ctx, ctx.simple_level_capacity@[l]));
        assert(sel.levels@[l].selected@ == vb.levels[l].selected);
        assert(levels_sized(ctx, base));
        assert(base[l].selected.len() == ctx.n());
    }
    propagate(
        &mut next,
        &inserted,
        &newly_sel,
        &newly_desel,
        &sel.levels[li].selected,
        env,
        li,
        Ghost(out),
        Ghost(pending@),
        Ghost(base),
        Ghost(v0.levels),
        Ghost(v0.levels[l].selected),
        Ghost(va.levels[l].selected),
    );
    proof {
        assert(vb.levels =~= v0.levels.update(l, vb.levels[l]));
        assert forall|lk: int| 0 <= lk < ctx.n_levels() implies linked(ctx, lk, #[trigger] vb.levels[lk]) by {
            if lk != l {
                assert(linked(ctx, lk, v0.levels[lk]));
            }
        }
        shape_step(ctx, out, base, v0, va, vb, l);
        marks_step(ctx, out, base, v0, va, vb, l, pending@);
        assert forall|ci: int, insert: bool|
            #![trigger pends(next@, ci, insert)]
            0 <= ci < ctx.n() implies (pends(next@, ci, insert) <==> in_scope(ctx, out, ci) && reached(
            vb.levels,
            l + 1,
            ci,
        ) == insert && reached(base, l + 1, ci) == !insert) by {
            reached_step(vb.levels, l, ci);
            reached_step(base, l, ci);
        }
        assert forall|lj: int, c: u32|
            #![trigger vb.levels[lj].members.contains_key(c)]
            0 <= lj < l + 1 && vb.levels[lj].members.contains_key(c) && sel.touched(lj, c) implies settled(
        env, lj, vb.levels[lj], c) by {
            if lj < l {
                assert(vb.levels[lj] == v0.levels[lj]);
                let x = v0.levels[lj].members.contains_key(c);
                assert(sel_a.touched(lj, c));
                assert(sel0.touched(lj, c));
            }
        }
        assert forall|lj: int, ci: int|
            #![trigger vb.levels[lj].codes[ci]]
            0 <= lj < ctx.n_levels() && 0 <= ci < ctx.n() && vb.levels[lj].codes[ci] is Some implies vb.levels[lj].codes[ci]
            == if entry[lj].codes[ci] is Some {
            entry[lj].codes[ci]
        } else {
            ctx.eligible_code(env.assignment@, ci, lj)
        } by {
            let x = v0.levels[lj].codes[ci];
            if lj == l {
                let y = va.levels[l].codes[ci];
                let a = pends(pending@, ci, true);
                let b = base[l].codes[ci];
            }
        }
        assert forall|lj: int, ci: int|
            #![trigger vb.levels[lj].codes[ci]]
            0 <= lj < ctx.n_levels() && 0 <= ci < ctx.n() && seeds.contains(ci as usize) implies (
        vb.levels[lj].codes[ci] matches Some(c) ==> sel.touched(lj, c)) by {
            let x = v0.levels[lj].codes[ci];
            if lj == l {
                let y = va.levels[l].codes[ci];
            }
            if let Some(c) = vb.levels[lj].codes[ci] {
                if v0.levels[lj].codes[ci] == Some(c) {
                    assert(sel0.touched(lj, c));
                    assert(sel_a.touched(lj, c));
                }
            }
        }
    }
    (next, pending.len().saturating_add(settled_now))
}

/// Whether the same characters contend at every level.
pub open spec fn same_contest(ctx: &OptContext, a: Seq<LevelView>, b: Seq<LevelView>) -> bool {
    forall|li: int, ci: int|
        #![trigger a[li].codes[ci]]
        #![trigger b[li].codes[ci]]
        0 <= li < ctx.n_levels() && 0 <= ci < ctx.n() ==> (a[li].codes[ci] is Some <==> b[li].codes[ci] is Some)
}

/// Who reaches a level depends on the levels below alone.
pub(crate) proof fn reached_below(a: Seq<LevelView>, b: Seq<LevelView>, li: int, ci: int)
    requires
        forall|lk: int| 0 <= lk < li ==> #[trigger] a[lk] == b[lk],
    ensures
        reached(a, li, ci) == reached(b, li, ci),
{
    if reached(a, li, ci) {
        assert forall|lk: int| 0 <= lk < li implies !(#[trigger] b[lk]).selected[ci] by {
            assert(a[lk] == b[lk]);
        }
    }
    if reached(b, li, ci) {
        assert forall|lk: int| 0 <= lk < li implies !(#[trigger] a[lk]).selected[ci] by {
            assert(!b[lk].selected[ci]);
        }
    }
}

/// Who reaches the next level.
proof fn reached_step(levels: Seq<LevelView>, li: int, ci: int)
    requires
        0 <= li < levels.len(),
    ensures
        reached(levels, li + 1, ci) == (reached(levels, li, ci) && !levels[li].selected[ci]),
{
    if reached(levels, li, ci) && !levels[li].selected[ci] {
        assert forall|lk: int| 0 <= lk < li + 1 implies !(#[trigger] levels[lk]).selected[ci] by {}
    }
    if reached(levels, li + 1, ci) {
        assert(!levels[li].selected[ci]);
        assert forall|lk: int| 0 <= lk < li implies !(#[trigger] levels[lk]).selected[ci] by {}
    }
}

/// The contest after a level has been settled.
pub(crate) proof fn shape_step(
    ctx: &OptContext,
    out: bool,
    base: Seq<LevelView>,
    v0: SelView,
    va: SelView,
    vb: SelView,
    l: int,
)
    requires
        0 <= l < ctx.n_levels(),
        v0.levels.len() == ctx.n_levels(),
        shaped_below(ctx, out, v0.levels, l),
        vb.levels == v0.levels.update(l, vb.levels[l]),
        vb.levels[l].codes == va.levels[l].codes,
        forall|ci: int|
            #![trigger va.levels[l].codes[ci]]
            0 <= ci < ctx.n() ==> (va.levels[l].codes[ci] is Some <==> in_scope(ctx, out, ci)
                && ctx.encodable(ci, l) && reached(v0.levels, l, ci)),
    ensures
        shaped_below(ctx, out, vb.levels, l + 1),
{
    assert forall|lj: int, ci: int|
        #![trigger vb.levels[lj].codes[ci]]
        0 <= lj < l + 1 && 0 <= ci < ctx.n() implies (vb.levels[lj].codes[ci] is Some <==> in_scope(
        ctx,
        out,
        ci,
    ) && ctx.encodable(ci, lj) && reached(vb.levels, lj, ci)) by {
        reached_below(v0.levels, vb.levels, lj, ci);
        let x = v0.levels[lj].codes[ci];
        let y = va.levels[l].codes[ci];
    }
}

/// The marks after a level has been settled.
pub(crate) proof fn marks_step(
    ctx: &OptContext,
    out: bool,
    base: Seq<LevelView>,
    v0: SelView,
    va: SelView,
    vb: SelView,
    l: int,
    pending: Seq<(usize, bool)>,
)
    requires
        0 <= l < ctx.n_levels(),
        ctx.n_levels() == base.len(),
        v0.levels.len() == ctx.n_levels(),
        ctx.n() <= usize::MAX,
        ctx.simple_fixed_assigned@.len() == ctx.n(),
        ctx.candidate_list_ok(ctx.candidates(out)),
        marks_right(ctx, v0),
        pending_exact(ctx, out, base, v0.levels, l, pending),
        va.assigned == v0.assigned,
        vb.levels == v0.levels.update(l, vb.levels[l]),
        va.levels[l].selected.len() == ctx.n(),
        forall|ci: int|
            #![trigger va.levels[l].selected[ci]]
            0 <= ci < ctx.n() ==> va.levels[l].selected[ci] == (v0.levels[l].selected[ci] && !pends(
                pending,
                ci,
                false,
            )),
        assigned_follow(
            ctx.n(),
            va.assigned,
            vb.assigned,
            va.levels[l].selected,
            vb.levels[l].selected,
        ),
        forall|ci: int|
            0 <= ci < ctx.n() && #[trigger] vb.levels[l].selected[ci] ==> in_scope(ctx, out, ci) && reached(
                v0.levels,
                l,
                ci,
            ),
        forall|ci: int|
            0 <= ci < ctx.n() && #[trigger] va.levels[l].selected[ci] ==> in_scope(ctx, out, ci) && reached(
                v0.levels,
                l,
                ci,
            ),
        forall|lk: int, ci: int|
            #![trigger v0.levels[lk].selected[ci]]
            l < lk < ctx.n_levels() && 0 <= ci < ctx.n() && v0.levels[l].selected[ci]
                ==> !v0.levels[lk].selected[ci],
    ensures
        marks_right(ctx, vb),
{
    assert forall|ci: int| #![trigger vb.assigned[ci]] 0 <= ci < ctx.n() implies (vb.assigned[ci]
        <==> ctx.simple_fixed_assigned@[ci] || has_simple_code(vb.levels, ci)) by {
        let a = v0.assigned[ci];
        let s0 = v0.levels[l].selected[ci];
        let sa = va.levels[l].selected[ci];
        let sb = vb.levels[l].selected[ci];
        let gone = pends(pending, ci, false);
        if sa || sb {
            let k = ctx.candidates(out).index_of(ci as usize);
            assert(ctx.candidates(out)[k] == ci as usize);
            assert((ci as usize) as int == ci);
            assert(!ctx.simple_fixed_assigned@[ci]);
        }
        if sb {
            assert(vb.levels[l].selected[ci]);
            assert(has_simple_code(vb.levels, ci));
            if sa {
                assert(v0.levels[l].selected[ci]);
                assert(has_simple_code(v0.levels, ci));
            }
        } else if sa {
            // Lost its code here: no other level gives it one.
            if has_simple_code(vb.levels, ci) {
                let lk = choose|lk: int|
                    0 <= lk < vb.levels.len() && (#[trigger] vb.levels[lk]).selected[ci];
                assert(lk != l);
                if lk < l {
                    assert(!v0.levels[lk].selected[ci]);
                } else {
                    assert(!v0.levels[lk].selected[ci]);
                }
            }
        } else {
            if has_simple_code(v0.levels, ci) {
                let lk = choose|lk: int|
                    0 <= lk < v0.levels.len() && (#[trigger] v0.levels[lk]).selected[ci];
                if lk == l {
                    assert(gone);
                    assert(!reached(v0.levels, l, ci));
                    let lm = choose|lm: int| 0 <= lm < l && (#[trigger] v0.levels[lm]).selected[ci];
                    assert(vb.levels[lm].selected[ci]);
                } else {
                    assert(vb.levels[lk].selected[ci]);
                }
            }
            if has_simple_code(vb.levels, ci) {
                let lk = choose|lk: int|
                    0 <= lk < vb.levels.len() && (#[trigger] vb.levels[lk]).selected[ci];
                assert(lk != l);
                assert(v0.levels[lk].selected[ci]);
            }
        }
    }
}

/// Whether everybody who contends does so with their code under an assignment.
pub open spec fn codes_under(ctx: &OptContext, assignment: Seq<u8>, levels: Seq<LevelView>) -> bool {
    forall|li: int, ci: int|
        #![trigger levels[li].codes[ci]]
        0 <= li < ctx.n_levels() && 0 <= ci < ctx.n() && levels[li].codes[ci] is Some
            ==> levels[li].codes[ci] == ctx.eligible_code(assignment, ci, li)
}

/// Whether every bucket is settled by the terms given.
pub open spec fn settled_by(ctx: &OptContext, terms: Terms, levels: Seq<LevelView>) -> bool {
    forall|li: int, c: u32|
        #![trigger levels[li].members.contains_key(c)]
        0 <= li < ctx.n_levels() && levels[li].members.contains_key(c) ==> terms.settled(
            ctx,
            li,
            levels[li],
            c,
        )
}

/// Whether everybody who contends does so with their code under the assignment of `env`.
pub open spec fn codes_right(env: &Env, levels: Seq<LevelView>) -> bool {
    codes_under(env.ctx, env.assignment@, levels)
}

/// Whether every bucket is settled by the terms of `env`.
pub open spec fn all_settled(env: &Env, levels: Seq<LevelView>) -> bool {
    settled_by(env.ctx, env.terms(), levels)
}

/// What every selection keeps: candidates contend at a level exactly when they may, codes and
/// buckets agree, and the marks name those with a simple code.
pub open spec fn in_shape(ctx: &OptContext, output_scope: bool, view: SelView) -> bool {
    &&& all_linked(ctx, view.levels)
    &&& shape(ctx, output_scope, view.levels)
    &&& marks_right(ctx, view)
}

/// Whether a selection is the one that belongs to the terms given: in shape, with codes under the
/// assignment, and every bucket settled.
pub open spec fn belongs(ctx: &OptContext, terms: Terms, output_scope: bool, view: SelView) -> bool {
    &&& in_shape(ctx, output_scope, view)
    &&& codes_under(ctx, terms.assignment, view.levels)
    &&& settled_by(ctx, terms, view.levels)
}

/// Whether a selection is the one that belongs to `env`.
pub open spec fn synced(env: &Env, output_scope: bool, view: SelView) -> bool {
    belongs(env.ctx, env.terms(), output_scope, view)
}

/// Whether only these changes part a selection from `env`: the codes of the affected candidates,
/// the ranks of the seeds, and the protection of the codes named.
pub open spec fn changes_named(
    env: &Env,
    affected: Seq<usize>,
    seeds: Seq<usize>,
    protect_dirty: Seq<u32>,
    levels: Seq<LevelView>,
) -> bool {
    &&& forall|li: int, ci: int|
        #![trigger levels[li].codes[ci]]
        0 <= li < env.ctx.n_levels() && 0 <= ci < env.ctx.n() && levels[li].codes[ci] is Some
            && !affected.contains(ci as usize) ==> levels[li].codes[ci] == env.ctx.eligible_code(
            env.assignment@,
            ci,
            li,
        )
    &&& forall|li: int, c: u32|
        #![trigger levels[li].members.contains_key(c)]
        0 <= li < env.ctx.n_levels() && levels[li].members.contains_key(c)
            && !protect_dirty.contains(c) && undisturbed(env, seeds, levels[li], li, c) ==> settled(
            env,
            li,
            levels[li],
            c,
        )
}

/// Whether the members of a bucket belong there, and none is a seed.
pub open spec fn undisturbed(env: &Env, seeds: Seq<usize>, level: LevelView, li: int, c: u32) -> bool {
    forall|j: int|
        #![trigger level.members[c][j]]
        0 <= j < level.members[c].len() ==> {
            let ci = level.members[c][j];
            &&& !seeds.contains(ci as usize)
            &&& env.ctx.eligible_code(env.assignment@, ci as int, li) == Some(c)
        }
}

/// Brings a selection up to date after a move: puts the affected candidates into the buckets of
/// their new codes, settles every bucket concerned, level by level, and lets those who lose or gain
/// a simple code in or out at the levels above. Says how many candidates were looked at: at each level
/// no more than there are affected ones, seeds, and members of the buckets concerned.
#[verifier::rlimit(40)]
pub(crate) fn do_incremental_selection(
    sel: &mut Selection,
    env: &Env,
    affected: &Vec<usize>,
    seeds: &Vec<usize>,
    protect_dirty: &Vec<u32>,
    Ghost(output_scope): Ghost<bool>,
) -> (visited: usize)
    requires
        env.wf(),
        old(sel).sane(env.ctx),
        old(sel).gens_ok(env.ctx),
        in_shape(env.ctx, output_scope, old(sel)@),
        forall|i: int| 0 <= i < affected@.len() ==> (#[trigger] affected@[i]) < env.ctx.n(),
        forall|i: int| 0 <= i < seeds@.len() ==> (#[trigger] seeds@[i]) < env.ctx.n(),
    ensures
        final(sel).sane(env.ctx),
        final(sel).logged(env.ctx),
        final(sel).base@ == old(sel)@,
        in_shape(env.ctx, output_scope, final(sel)@),
        changes_named(env, affected@, seeds@, protect_dirty@, old(sel)@.levels) ==> synced(
            env,
            output_scope,
            final(sel)@,
        ),
        visited <= visit_limit(env.ctx, final(sel), affected@.len(), seeds@.len()),
{
    let ctx = env.ctx;
    let ghost v0 = sel@;
    sel.begin(ctx);
    touch_codes(sel, env, protect_dirty);
    let ghost sel1 = *sel;
    let relocated = relocate_affected(sel, env, affected, Ghost(output_scope));
    let ghost v1 = sel@;
    let ghost sel2 = *sel;
    let seeded = touch_seeds(sel, env, seeds);
    let mut visited: usize = relocated.saturating_add(seeded);
    let ghost before_levels: nat = affected@.len() * ctx.n_levels() + seeds@.len() * ctx.n_levels();
    let n_levels = ctx.simple_config.levels.len();
    let mut pending: Vec<(usize, bool)> = Vec::new();
    let mut li: usize = 0;
    proof {
        sel.sane_sized(ctx);
        assert forall|l: int, ci: int|
            #![trigger v0.levels[l].codes[ci]]
            #![trigger v1.levels[l].codes[ci]]
            0 <= l < ctx.n_levels() && 0 <= ci < ctx.n() implies (v0.levels[l].codes[ci] is Some
            <==> v1.levels[l].codes[ci] is Some) by {
            let x = v0.levels[l].codes[ci];
            let y = v1.levels[l].codes[ci];
            if v0.levels[l].codes[ci] is Some {
                eligible_code_bound(env, ci, l);
            }
        }
        assert forall|ci: int| #![trigger v1.assigned[ci]] 0 <= ci < ctx.n() implies (v1.assigned[ci]
            <==> ctx.simple_fixed_assigned@[ci] || has_simple_code(v1.levels, ci)) by {
            let x = v0.assigned[ci];
            if has_simple_code(v0.levels, ci) {
                let l = choose|l: int| 0 <= l < v0.levels.len() && (#[trigger] v0.levels[l]).selected[ci];
                assert(v1.levels[l].selected[ci]);
            }
            if has_simple_code(v1.levels, ci) {
                let l = choose|l: int| 0 <= l < v1.levels.len() && (#[trigger] v1.levels[l]).selected[ci];
                assert(v0.levels[l].selected[ci]);
            }
        }
        assert(Seq::new(0nat, |l: int| touched_at(ctx, sel, l)) =~= Seq::<int>::empty());
        assert(codes_follow(env, v1.levels, v1.levels));
        assert(untouched_from(ctx, v0.levels, v1.levels, v1.levels, 0));
        assert forall|ci: int, insert: bool|
            #![trigger pends(pending@, ci, insert)]
            0 <= ci < ctx.n() implies (pends(pending@, ci, insert) <==> in_scope(ctx, output_scope, ci)
            && reached(v1.levels, 0, ci) == insert && reached(v0.levels, 0, ci) == !insert) by {
            assert(reached(v1.levels, 0, ci));
            assert(reached(v0.levels, 0, ci));
        }
    }
    while li < n_levels
        invariant
            li <= n_levels == ctx.n_levels(),
            ctx == env.ctx,
            env.wf(),
            sel.sane(ctx),
            sel.logged(ctx),
            sel.base@ == v0,
            all_linked(ctx, sel@.levels),
            all_linked(ctx, v0.levels),
            shape(ctx, output_scope, v0.levels),
            v1.levels.len() == ctx.n_levels(),
            same_contest(ctx, v0.levels, v1.levels),
            shaped_below(ctx, output_scope, sel@.levels, li as int),
            untouched_from(ctx, v0.levels, v1.levels, sel@.levels, li as int),
            settled_below(env, sel, li as int),
            codes_follow(env, v1.levels, sel@.levels),
            marks_right(ctx, sel@),
            seeds_touched(ctx, sel, seeds@),
            pending_exact(ctx, output_scope, v0.levels, sel@.levels, li as int, pending@),
            pending@.len() <= touched_below(ctx, sel, li as int),
            visited <= before_levels + li * touched_below(ctx, sel, li as int),
            forall|l: int, c: u32|
                0 <= l < ctx.n_levels() && protect_dirty@.contains(c) && c
                    < ctx.simple_level_capacity@[l] ==> #[trigger] sel.touched(l, c),
        decreases n_levels - li,
    {
        let ghost before = *sel;
        let ghost known: int = pending@.len() as int;
        let (next, looked_at) = settle_level(
            sel,
            env,
            li,
            pending,
            Ghost(output_scope),
            Ghost(v1.levels),
            Ghost(seeds@),
        );
        pending = next;
        visited = visited.saturating_add(looked_at);
        proof {
            touched_below_same(ctx, &before, sel, li as int);
            touched_below_step(ctx, sel, li as int);
            let (was, now) = (touched_below(ctx, sel, li as int), touched_below(ctx, sel, li + 1));
            assert(li * was + now <= (li + 1) * now) by (nonlinear_arith)
                requires
                    0 <= li,
                    0 <= was <= now,
            ;
            assert forall|l: int, c: u32|
                0 <= l < ctx.n_levels() && protect_dirty@.contains(c) && c
                    < ctx.simple_level_capacity@[l] implies #[trigger] sel.touched(l, c) by {
                assert(before.touched(l, c));
            }
        }
        li = li + 1;
    }
    proof {
        let (a, s, t) = (affected@.len() as int, seeds@.len() as int, touched_members(ctx, sel));
        let l = ctx.n_levels() as int;
        assert(a * l + s * l + l * t == l * (a + s + t)) by (nonlinear_arith);
        assert(shape(ctx, output_scope, sel@.levels));
        if changes_named(env, affected@, seeds@, protect_dirty@, v0.levels) {
            incremental_codes_right(env, affected@, v0.levels, v1.levels, sel@.levels);
            incremental_settled(env, sel, affected@, seeds@, protect_dirty@);
        }
    }
    visited
}

/// After the levels have been settled, everybody who contends has their code under the assignment.
proof fn incremental_codes_right(
    env: &Env,
    affected: Seq<usize>,
    base: Seq<LevelView>,
    entry: Seq<LevelView>,
    levels: Seq<LevelView>,
)
    requires
        recoded(env, affected, base, entry),
        codes_follow(env, entry, levels),
        forall|li: int, ci: int|
            #![trigger base[li].codes[ci]]
            0 <= li < env.ctx.n_levels() && 0 <= ci < env.ctx.n() && base[li].codes[ci] is Some
                && !affected.contains(ci as usize) ==> base[li].codes[ci] == env.ctx.eligible_code(
                env.assignment@,
                ci,
                li,
            ),
    ensures
        codes_right(env, levels),
{
    assert forall|li: int, ci: int|
        #![trigger levels[li].codes[ci]]
        0 <= li < env.ctx.n_levels() && 0 <= ci < env.ctx.n() && levels[li].codes[ci] is Some implies levels[li].codes[ci]
        == env.ctx.eligible_code(env.assignment@, ci, li) by {
        let x = base[li].codes[ci];
        let y = entry[li].codes[ci];
    }
}

/// After the levels have been settled, so are the buckets that were not put down.
proof fn incremental_settled(
    env: &Env,
    sel: &Selection,
    affected: Seq<usize>,
    seeds: Seq<usize>,
    protect_dirty: Seq<u32>,
)
    requires
        env.wf(),
        sel.sane(env.ctx),
        sel.logged(env.ctx),
        all_linked(env.ctx, sel@.levels),
        all_linked(env.ctx, sel.base@.levels),
        settled_below(env, sel, env.ctx.n_levels() as int),
        codes_right(env, sel@.levels),
        seeds_touched(env.ctx, sel, seeds),
        changes_named(env, affected, seeds, protect_dirty, sel.base@.levels),
        forall|l: int, c: u32|
            0 <= l < env.ctx.n_levels() && protect_dirty.contains(c) && c
                < env.ctx.simple_level_capacity@[l] ==> #[trigger] sel.touched(l, c),
    ensures
        all_settled(env, sel@.levels),
{
    let ctx = env.ctx;
    let base = sel.base@.levels;
    let now = sel@.levels;
    sel.sane_sized(ctx);
    assert forall|li: int, c: u32|
        #![trigger now[li].members.contains_key(c)]
        0 <= li < ctx.n_levels() && now[li].members.contains_key(c) implies settled(env, li, now[li], c) by {
        assert(linked(ctx, li, now[li]));
        assert(linked(ctx, li, base[li]));
        if !sel.touched(li, c) {
            assert(same_bucket(base[li], now[li], c));
            let m = members_at(base[li].members, c);
            assert(m == base[li].members[c] && m == now[li].members[c]);
            assert(now[li].members[c].len() > 0);
            let first = now[li].members[c][0];
            assert(c < ctx.simple_level_capacity@[li]) by {
                let x = now[li].codes[first as int];
            }
            assert(undisturbed(env, seeds, base[li], li, c)) by {
                assert forall|j: int|
                    #![trigger base[li].members[c][j]]
                    0 <= j < base[li].members[c].len() implies {
                    let ci = base[li].members[c][j];
                    &&& !seeds.contains(ci as usize)
                    &&& env.ctx.eligible_code(env.assignment@, ci as int, li) == Some(c)
                } by {
                    let ci = now[li].members[c][j];
                    let x = now[li].codes[ci as int];
                }
            }
            assert(base[li].members.contains_key(c));
            assert(settled(env, li, base[li], c));
            assert forall|ci: int|
                #![trigger now[li].selected[ci]]
                0 <= ci < ctx.n() && base[li].codes[ci] == Some(c) implies base[li].selected[ci]
                == now[li].selected[ci] && base[li].keys[ci] == now[li].keys[ci] by {
                let x = base[li].codes[ci];
                assert(base[li].members[c].contains(ci as u32));
                let j = base[li].members[c].index_of(ci as u32);
                assert(m[j] == ci as u32);
            }
            settled_frame(env, li, base[li], now[li], c);
        }
    }
}

} // verus!
