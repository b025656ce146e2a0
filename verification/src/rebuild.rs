//! Building a selection from scratch.

use rustc_hash::FxHashMap;
use vstd::prelude::*;

use crate::context::OptContext;
use crate::incremental::{
    codes_right, eligible_code_bound, has_simple_code, in_scope, marks_right, marks_step, pending_exact,
    pends, reached, settle_dirty, settled_below, shape_step, shaped_below, synced,
};
use crate::selection::{
    fixed_cell, grand_cell, level_cells, levels_view, same_bucket, BucketUndo, EntryUndo, FlagUndo, SavedTotals,
    SelView, Selection,
};
use crate::simple_level::{LevelView, SimpleLevelTracker};
use crate::simple_select::{all_linked, enrol, linked, settled, Env};
use crate::sums::sum_zero;
use crate::totals::{cell_terms, Totals, CELLS};
use crate::types::EQUIV_TABLE_SIZE;

verus! {

/// Whether nobody contends at a level.
pub open spec fn vacant(ctx: &OptContext, level: LevelView) -> bool {
    &&& level.members == Map::<u32, Seq<u32>>::empty()
    &&& forall|ci: int| 0 <= ci < ctx.n() ==> #[trigger] level.codes[ci] is None
    &&& forall|ci: int| 0 <= ci < ctx.n() ==> !#[trigger] level.selected[ci]
}

/// A level where nobody contends is linked.
proof fn vacant_linked(ctx: &OptContext, li: int, level: LevelView)
    requires
        vacant(ctx, level),
    ensures
        linked(ctx, li, level),
{
}

/// The totals of the fixed codes.
fn fixed_totals(ctx: &OptContext) -> (t: Totals)
    requires
        ctx.wf_levels(),
    ensures
        t.wf(),
        forall|cell: int| 0 <= cell < CELLS ==> #[trigger] t.cells@[cell] == fixed_cell(ctx, cell),
{
    let mut cells: Vec<u128> = Vec::new();
    let mut k: usize = 0;
    while k < EQUIV_TABLE_SIZE
        invariant
            k <= EQUIV_TABLE_SIZE,
            cells@.len() == k,
            ctx.fixed_key_usage@.len() == EQUIV_TABLE_SIZE,
            forall|i: int| 0 <= i < k ==> #[trigger] cells@[i] == ctx.fixed_key_usage@[i],
        decreases EQUIV_TABLE_SIZE - k,
    {
        cells.push(ctx.fixed_key_usage[k]);
        k = k + 1;
    }
    cells.push(ctx.fixed_key_presses);
    cells.push(ctx.fixed_covered_freq as u128);
    Totals { cells }
}

impl Selection {
    /// A selection where only the fixed codes are given out.
    pub(crate) fn empty(ctx: &OptContext) -> (sel: Selection)
        requires
            ctx.wf_full(),
            ctx.wf_levels(),
        ensures
            sel.sane(ctx),
            sel.gens_ok(ctx),
            sel@.assigned == ctx.simple_fixed_assigned@,
            forall|li: int| 0 <= li < ctx.n_levels() ==> vacant(ctx, #[trigger] sel@.levels[li]),
    {
        let n = ctx.char_infos.len();
        let n_levels = ctx.simple_config.levels.len();
        let mut levels: Vec<SimpleLevelTracker> = Vec::new();
        let mut bucket_gen: Vec<FxHashMap<u32, u32>> = Vec::new();
        let mut dirty: Vec<Vec<u32>> = Vec::new();
        let mut li: usize = 0;
        while li < n_levels
            invariant
                li <= n_levels == ctx.n_levels(),
                ctx.wf_full(),
                ctx.wf_levels(),
                levels@.len() == li,
                bucket_gen@.len() == li,
                dirty@.len() == li,
                forall|l: int|
                    0 <= l < li ==> (#[trigger] levels@[l]).sane(ctx, ctx.simple_level_capacity@[l])
                        && vacant(ctx, levels@[l]@),
                forall|l: int, c: u32|
                    0 <= l < li ==> !#[trigger] bucket_gen@[l]@.contains_key(c),
            decreases n_levels - li,
        {
            levels.push(SimpleLevelTracker::new(ctx, ctx.simple_level_capacity[li]));
            bucket_gen.push(FxHashMap::default());
            dirty.push(Vec::new());
            li = li + 1;
        }
        let mut all_assigned_flags: Vec<bool> = Vec::new();
        let mut touch_gen: Vec<u32> = Vec::new();
        let mut start_flag: Vec<bool> = Vec::new();
        let mut ci: usize = 0;
        while ci < n
            invariant
                ci <= n == ctx.n(),
                ctx.simple_fixed_assigned@.len() == ctx.n(),
                all_assigned_flags@ == ctx.simple_fixed_assigned@.take(ci as int),
                touch_gen@.len() == ci,
                start_flag@.len() == ci,
                forall|i: int| 0 <= i < ci ==> #[trigger] touch_gen@[i] == 0,
            decreases n - ci,
        {
            all_assigned_flags.push(ctx.simple_fixed_assigned[ci]);
            touch_gen.push(0);
            start_flag.push(false);
            proof {
                let all = ctx.simple_fixed_assigned@;
                assert(all.take(ci as int).push(all[ci as int]) =~= all.take(ci + 1));
            }
            ci = ci + 1;
        }
        assert(ctx.simple_fixed_assigned@.take(n as int) =~= ctx.simple_fixed_assigned@);
        let totals = fixed_totals(ctx);
        let grand = totals.copy();
        let sel = Selection {
            levels,
            all_assigned_flags,
            totals,
            cur_gen: 0,
            buckets_undo: BucketUndo { snaps: Vec::new(), bucket_gen, dirty },
            flags_undo: FlagUndo { touch_gen, start_flag, touched: Vec::new() },
            entries_undo: EntryUndo { codes: Vec::new(), selected: Vec::new(), keys: Vec::new() },
            saved: SavedTotals { levels: Vec::new(), grand },
            base: Ghost(SelView { levels: levels_view(levels@), assigned: all_assigned_flags@ }),
        };
        proof {
            assert forall|l: int| 0 <= l < ctx.n_levels() implies vacant(ctx, #[trigger] sel@.levels[l]) by {
                assert(sel@.levels[l] == levels@[l]@);
            }
            assert forall|cell: int| 0 <= cell < CELLS implies #[trigger] sel.totals.cells@[cell]
                == grand_cell(ctx, sel@.levels, cell) by {
                let cells = level_cells(ctx, sel@.levels, cell);
                assert forall|l: int| 0 <= l < cells.len() implies cells[l] == 0 by {
                    let v = sel@.levels[l];
                    sum_zero(cell_terms(ctx, v.selected, v.keys, cell));
                }
                sum_zero(cells);
            }
            assert forall|l: int, c: u32|
                #![trigger sel.buckets_undo.bucket_gen@[l]@[c]]
                0 <= l < ctx.n_levels() && sel.buckets_undo.bucket_gen@[l]@.contains_key(c) implies sel.buckets_undo.bucket_gen@[l]@[c]
                <= 0 by {
                assert(!bucket_gen@[l]@.contains_key(c));
            }
        }
        sel
    }
}

/// Whether the first `k` candidates contend at level `li` if they may.
spec fn enrolled(
    env: &Env,
    list: Seq<usize>,
    k: int,
    assigned: Seq<bool>,
    level: LevelView,
    li: int,
) -> bool {
    forall|ci: int|
        #![trigger level.codes[ci]]
        0 <= ci < env.ctx.n() ==> level.codes[ci] == if list.take(k).contains(ci as usize)
            && !assigned[ci] {
            env.ctx.eligible_code(env.assignment@, ci, li)
        } else {
            None
        }
}

/// Lets every candidate without a simple code contend at a level.
fn enrol_all(sel: &mut Selection, env: &Env, li: usize, list: &Vec<usize>)
    requires
        env.wf(),
        old(sel).sane(env.ctx),
        old(sel).logged(env.ctx),
        li < env.ctx.n_levels(),
        vacant(env.ctx, old(sel)@.levels[li as int]),
        env.ctx.candidate_list_ok(list@),
    ensures
        final(sel).sane(env.ctx),
        final(sel).logged(env.ctx),
        final(sel).base == old(sel).base,
        linked(env.ctx, li as int, final(sel)@.levels[li as int]),
        final(sel)@ == old(sel)@.with_level(li as int, final(sel)@.levels[li as int]),
        enrolled(
            env,
            list@,
            list@.len() as int,
            old(sel)@.assigned,
            final(sel)@.levels[li as int],
            li as int,
        ),
        forall|ci: int| 0 <= ci < env.ctx.n() ==> !#[trigger] final(sel)@.levels[li as int].selected[ci],
        forall|l: int, c: u32|
            0 <= l < env.ctx.n_levels() && l != li && #[trigger] final(sel).touched(l, c) ==> old(
                sel,
            ).touched(l, c),
{
    let ctx = env.ctx;
    let ghost v0 = sel@;
    let mut k: usize = 0;
    proof {
        sel.sane_sized(ctx);
        vacant_linked(ctx, li as int, v0.levels[li as int]);
        assert(v0 =~= v0.with_level(li as int, v0.levels[li as int]));
        assert(list@.take(0) =~= Seq::<usize>::empty());
    }
    while k < list.len()
        invariant
            k <= list@.len(),
            ctx == env.ctx,
            env.wf(),
            li < ctx.n_levels(),
            ctx.candidate_list_ok(list@),
            v0 == old(sel)@,
            v0.levels.len() == ctx.n_levels(),
            v0.assigned.len() == ctx.n(),
            sel.sane(ctx),
            sel.logged(ctx),
            sel.base == old(sel).base,
            linked(ctx, li as int, sel@.levels[li as int]),
            sel@ == v0.with_level(li as int, sel@.levels[li as int]),
            enrolled(env, list@, k as int, v0.assigned, sel@.levels[li as int], li as int),
            forall|ci: int| 0 <= ci < ctx.n() ==> !#[trigger] sel@.levels[li as int].selected[ci],
            forall|l: int, c: u32|
                0 <= l < ctx.n_levels() && l != li && #[trigger] sel.touched(l, c) ==> old(sel).touched(
                    l,
                    c,
                ),
        decreases list@.len() - k,
    {
        let ci = list[k];
        let ghost lv = sel@.levels[li as int];
        let ghost front = list@.take(k as int);
        let ghost front2 = list@.take(k + 1);
        let ghost before = *sel;
        proof {
            assert(list@[k as int] < ctx.n());
            assert forall|cj: int| 0 <= cj < ctx.n() implies (#[trigger] front2.contains(cj as usize)
                <==> front.contains(cj as usize) || cj == ci) by {
                if front2.contains(cj as usize) {
                    let i = front2.index_of(cj as usize);
                    assert(front2[i] == list@[i]);
                    if i < k {
                        assert(front[i] == cj as usize);
                    }
                }
                if front.contains(cj as usize) {
                    let i = front.index_of(cj as usize);
                    assert(front2[i] == cj as usize);
                }
                if cj == ci {
                    assert(front2[k as int] == cj as usize);
                }
            }
            if front.contains(ci) {
                let i = front.index_of(ci);
                assert(list@[i] == list@[k as int]);
            }
            let x = lv.codes[ci as int];
            assert(lv.codes[ci as int] is None);
            if ctx.encodable(ci as int, li as int) {
                eligible_code_bound(env, ci as int, li as int);
            }
        }
        if !sel.all_assigned_flags[ci] {
            match ctx.calc_simple_code_eligible(ci, li, env.assignment) {
                Some(code) => {
                    assert(ctx.encodable(ci as int, li as int));
                    enrol(sel, ctx, li, ci, code);
                },
                None => {},
            }
        }
        proof {
            let lv1 = sel@.levels[li as int];
            assert(sel@ =~= v0.with_level(li as int, lv1));
            assert forall|cj: int| #![trigger lv1.codes[cj]] 0 <= cj < ctx.n() implies lv1.codes[cj] == if front2.contains(
                cj as usize,
            ) && !v0.assigned[cj] {
                ctx.eligible_code(env.assignment@, cj, li as int)
            } else {
                None
            } by {
                let x = lv.codes[cj];
                let y = front2.contains(cj as usize);
            }
            assert forall|cj: int| 0 <= cj < ctx.n() implies !#[trigger] lv1.selected[cj] by {
                let x = lv.selected[cj];
            }
            assert forall|l: int, c: u32|
                0 <= l < ctx.n_levels() && l != li && #[trigger] sel.touched(l, c) implies old(sel).touched(
                l,
                c,
            ) by {
                assert(before.touched(l, c));
            }
        }
        k = k + 1;
    }
}

/// Builds the selection that belongs to `env` from scratch: level by level, those candidates
/// contend who have no simple code yet, and in each bucket the best-ranked get one.
#[verifier::rlimit(60)]
pub(crate) fn rebuild_selection(env: &Env, output_scope: bool) -> (sel: Selection)
    requires
        env.wf(),
    ensures
        sel.sane(env.ctx),
        sel.gens_ok(env.ctx),
        synced(env, output_scope, sel@),
{
    let ctx = env.ctx;
    let mut sel = Selection::empty(ctx);
    sel.begin(ctx);
    let ghost base = sel@;
    let list: &Vec<usize> = if output_scope {
        &ctx.simple_output_candidate_chars
    } else {
        &ctx.simple_candidate_chars
    };
    let n_levels = ctx.simple_config.levels.len();
    let mut li: usize = 0;
    proof {
        sel.sane_sized(ctx);
        assert forall|l: int| 0 <= l < ctx.n_levels() implies linked(ctx, l, #[trigger] sel@.levels[l]) by {
            vacant_linked(ctx, l, sel@.levels[l]);
        }
        assert forall|ci: int| #![trigger sel@.assigned[ci]] 0 <= ci < ctx.n() implies !has_simple_code(
            sel@.levels,
            ci,
        ) by {
            if has_simple_code(sel@.levels, ci) {
                let l = choose|l: int| 0 <= l < sel@.levels.len() && (#[trigger] sel@.levels[l]).selected[ci];
                assert(vacant(ctx, sel@.levels[l]));
            }
        }
    }
    while li < n_levels
        invariant
            li <= n_levels == ctx.n_levels(),
            ctx == env.ctx,
            env.wf(),
            list@ == ctx.candidates(output_scope),
            ctx.candidate_list_ok(list@),
            sel.sane(ctx),
            sel.logged(ctx),
            sel.base@ == base,
            forall|l: int| 0 <= l < ctx.n_levels() ==> vacant(ctx, #[trigger] base.levels[l]),
            forall|l: int|
                #![trigger sel@.levels[l]]
                li <= l < ctx.n_levels() ==> sel@.levels[l] == base.levels[l],
            all_linked(ctx, sel@.levels),
            shaped_below(ctx, output_scope, sel@.levels, li as int),
            settled_below(env, &sel, li as int),
            codes_right(env, sel@.levels),
            marks_right(ctx, sel@),
        decreases n_levels - li,
    {
        let ghost v0 = sel@;
        let ghost sel0 = sel;
        let ghost l = li as int;
        proof {
            sel.sane_sized(ctx);
            assert(vacant(ctx, base.levels[l]));
            assert(v0.levels[l] == base.levels[l]);
        }
        enrol_all(&mut sel, env, li, list);
        let ghost va = sel@;
        let ghost sel_a = sel;
        let mut newly_sel: Vec<usize> = Vec::new();
        let mut newly_desel: Vec<usize> = Vec::new();
        settle_dirty(&mut sel, env, li, &mut newly_sel, &mut newly_desel);
        let ghost vb = sel@;
        proof {
            assert(list@.take(list@.len() as int) =~= list@);
            sel.sane_sized(ctx);
            let empty = Seq::<(usize, bool)>::empty();
            assert(vb.levels =~= v0.levels.update(l, vb.levels[l]));
            assert forall|ci: int|
                #![trigger va.levels[l].codes[ci]]
                0 <= ci < ctx.n() implies (va.levels[l].codes[ci] is Some <==> in_scope(
                ctx,
                output_scope,
                ci,
            ) && ctx.encodable(ci, l) && reached(v0.levels, l, ci)) by {
                unassigned_reached(ctx, output_scope, base.levels, v0, l, ci);
                if ctx.encodable(ci, l) {
                    eligible_code_bound(env, ci, l);
                }
            }
            shape_step(ctx, output_scope, v0.levels, v0, va, vb, l);
            assert forall|ci: int| 0 <= ci < ctx.n() && #[trigger] vb.levels[l].selected[ci] implies in_scope(
                ctx,
                output_scope,
                ci,
            ) && reached(v0.levels, l, ci) by {
                assert(linked(ctx, l, vb.levels[l]));
                let x = vb.levels[l].codes[ci];
                let y = va.levels[l].codes[ci];
            }
            assert forall|ci: int, insert: bool| #![trigger pends(empty, ci, insert)] 0 <= ci < ctx.n() implies !pends(
                empty,
                ci,
                insert,
            ) by {}
            assert(pending_exact(ctx, output_scope, v0.levels, v0.levels, l, empty));
            assert forall|ci: int|
                #![trigger va.levels[l].selected[ci]]
                0 <= ci < ctx.n() implies va.levels[l].selected[ci] == (v0.levels[l].selected[ci] && !pends(
                empty,
                ci,
                false,
            )) by {
                let x = v0.levels[l].selected[ci];
            }
            assert forall|lk: int, ci: int|
                #![trigger v0.levels[lk].selected[ci]]
                l < lk < ctx.n_levels() && 0 <= ci < ctx.n() && v0.levels[l].selected[ci] implies !v0.levels[lk].selected[ci] by {}
            assert(va.levels[l].selected.len() == ctx.n());
            marks_step(ctx, output_scope, v0.levels, v0, va, vb, l, empty);
            assert forall|lj: int, c: u32|
                #![trigger vb.levels[lj].members.contains_key(c)]
                0 <= lj < l + 1 && vb.levels[lj].members.contains_key(c) && sel.touched(lj, c) implies settled(
            env, lj, vb.levels[lj], c) by {
                if lj < l {
                    assert(vb.levels[lj] == v0.levels[lj]);
                    let x = v0.levels[lj].members.contains_key(c);
                    assert(sel_a.touched(lj, c));
                    assert(sel0.touched(lj, c));
                }
            }
            assert forall|lj: int, ci: int|
                #![trigger vb.levels[lj].codes[ci]]
                0 <= lj < ctx.n_levels() && 0 <= ci < ctx.n() && vb.levels[lj].codes[ci] is Some implies vb.levels[lj].codes[ci]
                == ctx.eligible_code(env.assignment@, ci, lj) by {
                if lj == l {
                    let x = va.levels[l].codes[ci];
                } else {
                    let x = v0.levels[lj].codes[ci];
                }
            }
            assert forall|lk: int| 0 <= lk < ctx.n_levels() implies linked(ctx, lk, #[trigger] vb.levels[lk]) by {
                if lk != l {
                    assert(linked(ctx, lk, v0.levels[lk]));
                }
            }
        }
        li = li + 1;
    }
    proof {
        assert forall|lj: int, c: u32|
            #![trigger sel@.levels[lj].members.contains_key(c)]
            0 <= lj < ctx.n_levels() && sel@.levels[lj].members.contains_key(c) implies settled(
            env,
            lj,
            sel@.levels[lj],
            c,
        ) by {
            if !sel.touched(lj, c) {
                assert(same_bucket(base.levels[lj], sel@.levels[lj], c));
                assert(vacant(ctx, base.levels[lj]));
            }
        }
    }
    sel
}

/// A candidate has no mark exactly when it reaches the next level, as long as nobody has a simple
/// code from there on.
proof fn unassigned_reached(
    ctx: &OptContext,
    output_scope: bool,
    base: Seq<LevelView>,
    view: SelView,
    li: int,
    ci: int,
)
    requires
        ctx.n() <= usize::MAX,
        0 <= ci < ctx.n(),
        0 <= li <= ctx.n_levels(),
        view.levels.len() == ctx.n_levels(),
        marks_right(ctx, view),
        ctx.candidate_list_ok(ctx.candidates(output_scope)),
        forall|l: int| 0 <= l < ctx.n_levels() ==> vacant(ctx, #[trigger] base[l]),
        forall|l: int|
            #![trigger view.levels[l]]
            li <= l < ctx.n_levels() ==> view.levels[l] == base[l],
    ensures
        in_scope(ctx, output_scope, ci) ==> (!view.assigned[ci] <==> reached(view.levels, li, ci)),
{
    if in_scope(ctx, output_scope, ci) {
        let list = ctx.candidates(output_scope);
        let k = list.index_of(ci as usize);
        assert(list[k] == ci as usize);
        assert(!ctx.simple_fixed_assigned@[ci]);
        if !view.assigned[ci] {
            assert forall|lk: int| 0 <= lk < li implies !(#[trigger] view.levels[lk]).selected[ci] by {
                if view.levels[lk].selected[ci] {
                    assert(has_simple_code(view.levels, ci));
                }
            }
        } else {
            let l = choose|l: int| 0 <= l < view.levels.len() && (#[trigger] view.levels[l]).selected[ci];
            if l >= li {
                assert(vacant(ctx, base[l]));
            }
            assert(view.levels[l].selected[ci]);
        }
    }
}

} // verus!
