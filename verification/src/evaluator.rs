//! The state of an assignment: full codes with their collisions, key strokes, and simple codes. A
//! move changes all of them together, and a move that is refused leaves them as they were.

use vstd::prelude::*;

use crate::codes::{mentions, part_keys_frame};
use crate::context::OptContext;
use crate::full_codes::{is_best, FullCodes};
use crate::incremental::in_scope;
use crate::key_usage::{count_usage, shift_usage, usage_right};
use crate::lists::sorted_distinct;
use crate::simple_collisions::buckets_fit;
use crate::simple_evaluator::{candidates_covered, firsts, protection_quiet, SimpleEvaluator};
use crate::totals::Totals;
use crate::types::{SimpleAssignMode, EQUIV_TABLE_SIZE};
use crate::visits::visit_limit;

verus! {

/// The state of an assignment.
pub struct Evaluator {
    pub full: FullCodes,
    /// Key strokes of the full codes, weighted by frequency.
    pub key_weighted_usage: Totals,
    /// Whether simple codes are kept up to date.
    pub simple_active: bool,
    pub simple_eval: Option<SimpleEvaluator>,
    /// How often the simple codes were built anew on demand.
    pub full_rebuild_calls: u64,
}

/// The buckets of full codes that are in order are those of the codes.
proof fn full_fits(ctx: &OptContext, full: &FullCodes, track: bool)
    requires
        ctx.wf_full(),
        full.inv(ctx, track),
    ensures
        buckets_fit(ctx, &full.full_buckets, full.current_codes@),
        track ==> full.is_first_candidate@ == firsts(ctx, full.current_codes@),
{
    let codes = full.current_codes@;
    assert forall|c: u32| #[trigger] full.full_buckets@.contains_key(c) implies crate::collisions::enumerates(
        full.full_buckets@[c].members@,
        codes,
        c,
    ) && full.full_buckets@[c].members@.len() > 0 by {
        full.bucket_enumerates(ctx, c);
    }
    if track {
        assert forall|ci: int| 0 <= ci < ctx.n() implies full.is_first_candidate@[ci] == firsts(
            ctx,
            codes,
        )[ci] by {
            let x = full.is_first_candidate@[ci];
        }
        assert(full.is_first_candidate@ =~= firsts(ctx, codes));
    }
}

/// Whether two assignments differ in the given groups alone.
pub open spec fn differ_in(a: Seq<u8>, b: Seq<u8>, groups: Seq<usize>) -> bool {
    &&& a.len() == b.len()
    &&& forall|g: int|
        #![trigger b[g]]
        0 <= g < a.len() && a[g] != b[g] ==> groups.contains(g as usize)
}

/// Whether every candidate whose mark differs from `was` is on the list.
pub open spec fn flips_noted(ctx: &OptContext, was: Seq<bool>, now: Seq<bool>, list: Seq<usize>) -> bool {
    forall|ci: int|
        #![trigger now[ci]]
        0 <= ci < ctx.n() && ctx.simple_is_candidate@[ci] && was[ci] != now[ci] ==> list.contains(
            ci as usize,
        )
}

impl Evaluator {
    /// All parts are in order, each for itself.
    pub open spec fn inv(&self, ctx: &OptContext) -> bool {
        &&& self.full.inv(ctx, self.simple_active)
        &&& self.simple_active ==> self.simple_eval is Some
        &&& self.simple_eval matches Some(se) ==> {
            &&& se.inv(ctx)
            &&& ctx.enable_simple_code
            &&& ctx.n_levels() > 0
            &&& self.simple_active ==> flips_noted(
                ctx,
                firsts(ctx, ctx.full_codes(se.at@)),
                self.full.is_first_candidate@,
                self.full.simple_is_first_dirty@,
            )
        }
    }

    /// All parts are those of an assignment.
    pub open spec fn in_step(&self, ctx: &OptContext, assignment: Seq<u8>) -> bool {
        &&& self.inv(ctx)
        &&& ctx.assigns(assignment)
        &&& self.full.current_codes@ == ctx.full_codes(assignment)
        &&& usage_right(ctx, assignment, self.key_weighted_usage)
        &&& self.simple_active ==> self.simple_eval->0.at@ == assignment
    }

    /// How many candidates the last move of the simple codes looked at.
    pub open spec fn visits(&self) -> usize {
        match self.simple_eval {
            Some(se) => se.stage2_visits,
            None => 0,
        }
    }

    /// The candidates noted as shown first or no longer so, where that has a say in the order of
    /// those who contend for a simple code.
    pub open spec fn reordered(&self, ctx: &OptContext) -> Set<usize> {
        match ctx.simple_assign_mode {
            SimpleAssignMode::Efficiency => self.full.simple_is_first_dirty@.to_set(),
            SimpleAssignMode::Frequency => Set::empty(),
        }
    }

    /// How often simple codes were built anew on demand, counted here and by themselves.
    pub open spec fn rebuilds(&self) -> (u64, u64) {
        (
            self.full_rebuild_calls,
            match self.simple_eval {
                Some(se) => se.full_rebuild_calls,
                None => 0,
            },
        )
    }

    /// All parts are as they are built from scratch for an assignment: the marks of who is shown first
    /// are right and none is noted as changed, and there are simple codes of the search wherever there
    /// can be, whether they are kept up to date or not.
    pub open spec fn built_anew(&self, ctx: &OptContext, assignment: Seq<u8>) -> bool {
        &&& self.full.inv(ctx, true)
        &&& self.full.current_codes@ == ctx.full_codes(assignment)
        &&& self.full.simple_is_first_dirty@.len() == 0
        &&& usage_right(ctx, assignment, self.key_weighted_usage)
        &&& self.simple_eval is Some <==> ctx.enable_simple_code && ctx.n_levels() > 0
        &&& self.simple_eval matches Some(se) ==> {
            &&& se.inv(ctx)
            &&& se.at@ == assignment
            &&& !se.output_scope
        }
    }

    /// The simple codes are those of the search, which moves keep up to date.
    pub open spec fn searches(&self) -> bool {
        self.simple_active ==> !self.simple_eval->0.output_scope
    }

    fn new_impl(ctx: &OptContext, assignment: &[u8], build_simple: bool, output_scope: bool) -> (e: Evaluator)
        requires
            ctx.wf_full(),
            ctx.wf_simple(),
            ctx.assigns(assignment@),
        ensures
            e.in_step(ctx, assignment@),
            e.simple_active == (build_simple && ctx.enable_simple_code && ctx.n_levels() > 0),
            e.simple_eval is Some <==> e.simple_active,
            e.full.inv(ctx, true),
            e.full.simple_is_first_dirty@.len() == 0,
            e.simple_active ==> e.simple_eval->0.output_scope == output_scope,
            e.simple_active ==> e.simple_eval->0.full_rebuild_calls == 0,
            e.full_rebuild_calls == 0,
            e.visits() == 0,
    {
        let full = FullCodes::build(ctx, assignment);
        let key_weighted_usage = count_usage(ctx, assignment);
        proof {
            full_fits(ctx, &full, true);
        }
        let build = build_simple && ctx.enable_simple_code && ctx.simple_config.levels.len() > 0;
        let simple_eval = if build {
            Some(
                SimpleEvaluator::new(
                    ctx,
                    assignment,
                    &full.full_buckets,
                    &full.is_first_candidate,
                    output_scope,
                ),
            )
        } else {
            None
        };
        Evaluator {
            full,
            key_weighted_usage,
            simple_active: build,
            simple_eval,
            full_rebuild_calls: 0,
        }
    }

    /// The state of an assignment, with simple codes if there are any.
    pub fn new(ctx: &OptContext, assignment: &[u8]) -> (e: Evaluator)
        requires
            ctx.wf_full(),
            ctx.wf_simple(),
            ctx.assigns(assignment@),
        ensures
            e.in_step(ctx, assignment@),
            e.searches(),
            e.built_anew(ctx, assignment@),
            e.simple_active == (ctx.enable_simple_code && ctx.n_levels() > 0),
            e.simple_eval is Some <==> e.simple_active,
            e.simple_active ==> e.simple_eval->0.full_rebuild_calls == 0,
            e.full_rebuild_calls == 0,
            e.visits() == 0,
    {
        Self::new_impl(ctx, assignment, true, false)
    }

    /// The state of an assignment without simple codes.
    pub fn new_full_only(ctx: &OptContext, assignment: &[u8]) -> (e: Evaluator)
        requires
            ctx.wf_full(),
            ctx.wf_simple(),
            ctx.assigns(assignment@),
        ensures
            e.in_step(ctx, assignment@),
            e.searches(),
            !e.simple_active,
            e.simple_eval is None,
            e.full_rebuild_calls == 0,
    {
        Self::new_impl(ctx, assignment, false, false)
    }

    /// The state of an assignment, with simple codes for all candidates of the output.
    pub fn new_output_scope(ctx: &OptContext, assignment: &[u8]) -> (e: Evaluator)
        requires
            ctx.wf_full(),
            ctx.wf_simple(),
            ctx.assigns(assignment@),
        ensures
            e.in_step(ctx, assignment@),
            e.simple_active == (ctx.enable_simple_code && ctx.n_levels() > 0),
            e.simple_eval is Some <==> e.simple_active,
            e.simple_active ==> e.simple_eval->0.output_scope,
            e.full_rebuild_calls == 0,
            e.visits() == 0,
    {
        Self::new_impl(ctx, assignment, true, true)
    }

    /// Gives a character the full code that it has under the assignment. Nothing changes where that is
    /// the code it has.
    pub fn update_char(&mut self, ctx: &OptContext, assignment: &[u8], ci: usize)
        requires
            ctx.wf_full(),
            ctx.wf_simple(),
            old(self).inv(ctx),
            ctx.assigns(assignment@),
            ci < ctx.n(),
        ensures
            final(self).inv(ctx),
            final(self).full.current_codes@ == old(self).full.current_codes@.update(
                ci as int,
                ctx.full_code(assignment@, ci as int),
            ),
            old(self).full.current_codes@[ci as int] == ctx.full_code(assignment@, ci as int)
                ==> *final(self) == *old(self),
            final(self).key_weighted_usage == old(self).key_weighted_usage,
            final(self).simple_active == old(self).simple_active,
            final(self).simple_eval == old(self).simple_eval,
            final(self).full_rebuild_calls == old(self).full_rebuild_calls,
    {
        let ghost first0 = self.full.is_first_candidate@;
        let ghost dirty0 = self.full.simple_is_first_dirty@;
        let track = self.simple_active;
        self.full.update_char(ctx, assignment, ci, track);
        proof {
            if track {
                let was = firsts(ctx, ctx.full_codes(self.simple_eval->0.at@));
                let now = self.full.is_first_candidate@;
                let dirty = self.full.simple_is_first_dirty@;
                assert forall|cj: int|
                    #![trigger now[cj]]
                    0 <= cj < ctx.n() && ctx.simple_is_candidate@[cj] && was[cj] != now[cj] implies dirty.contains(
                cj as usize) by {
                    if first0[cj] == now[cj] {
                        let x = first0[cj];
                        let i = dirty0.index_of(cj as usize);
                        assert(dirty[i] == cj as usize);
                    }
                }
            }
        }
    }

    /// Gives every character of a group the full code that it has under the assignment.
    fn update_group(&mut self, ctx: &OptContext, assignment: &[u8], r: usize)
        requires
            ctx.wf_full(),
            ctx.wf_simple(),
            old(self).inv(ctx),
            ctx.assigns(assignment@),
            r < ctx.num_groups(),
            old(self).full.current_codes@.len() == ctx.n(),
        ensures
            final(self).inv(ctx),
            final(self).full.current_codes@.len() == ctx.n(),
            forall|ci: int|
                #![trigger final(self).full.current_codes@[ci]]
                0 <= ci < ctx.n() ==> final(self).full.current_codes@[ci] == if mentions(
                    ctx.parts(ci),
                    r as int,
                ) {
                    ctx.full_code(assignment@, ci)
                } else {
                    old(self).full.current_codes@[ci]
                },
            final(self).key_weighted_usage == old(self).key_weighted_usage,
            final(self).simple_active == old(self).simple_active,
            final(self).simple_eval == old(self).simple_eval,
            final(self).full_rebuild_calls == old(self).full_rebuild_calls,
    {
        let ghost codes0 = self.full.current_codes@;
        let chars = &ctx.group_to_chars[r];
        let mut i: usize = 0;
        proof {
            assert(chars@.take(0) =~= Seq::<usize>::empty());
        }
        while i < chars.len()
            invariant
                i <= chars@.len(),
                ctx.wf_full(),
                ctx.wf_simple(),
                ctx.assigns(assignment@),
                r < ctx.num_groups(),
                chars@ == ctx.group_to_chars@[r as int]@,
                codes0 == old(self).full.current_codes@,
                self.inv(ctx),
                self.full.current_codes@.len() == ctx.n(),
                codes0.len() == ctx.n(),
                forall|ci: int|
                    #![trigger self.full.current_codes@[ci]]
                    0 <= ci < ctx.n() ==> self.full.current_codes@[ci] == if chars@.take(i as int).contains(
                        ci as usize,
                    ) {
                        ctx.full_code(assignment@, ci)
                    } else {
                        codes0[ci]
                    },
                self.key_weighted_usage == old(self).key_weighted_usage,
                self.simple_active == old(self).simple_active,
                self.simple_eval == old(self).simple_eval,
                self.full_rebuild_calls == old(self).full_rebuild_calls,
            decreases chars@.len() - i,
        {
            let ci = chars[i];
            let ghost codes1 = self.full.current_codes@;
            let ghost front = chars@.take(i as int);
            let ghost front2 = chars@.take(i + 1);
            proof {
                assert(ctx.group_to_chars@[r as int]@[i as int] < ctx.n());
                assert forall|cj: int| 0 <= cj < ctx.n() implies (#[trigger] front2.contains(
                    cj as usize,
                ) <==> front.contains(cj as usize) || cj == ci) by {
                    if front2.contains(cj as usize) {
                        let j = front2.index_of(cj as usize);
                        assert(front2[j] == chars@[j]);
                        if j < i {
                            assert(front[j] == cj as usize);
                        }
                    }
                    if front.contains(cj as usize) {
                        let j = front.index_of(cj as usize);
                        assert(front2[j] == cj as usize);
                    }
                    if cj == ci {
                        assert(front2[i as int] == cj as usize);
                    }
                }
            }
            self.update_char(ctx, assignment, ci);
            proof {
                let codes2 = self.full.current_codes@;
                assert forall|cj: int| #![trigger codes2[cj]] 0 <= cj < ctx.n() implies codes2[cj]
                    == if front2.contains(cj as usize) {
                    ctx.full_code(assignment@, cj)
                } else {
                    codes0[cj]
                } by {
                    let x = codes1[cj];
                    let y = front2.contains(cj as usize);
                }
            }
            i = i + 1;
        }
        proof {
            assert(chars@.take(chars@.len() as int) =~= chars@);
            let codes2 = self.full.current_codes@;
            assert forall|ci: int| #![trigger codes2[ci]] 0 <= ci < ctx.n() implies codes2[ci] == if mentions(
                ctx.parts(ci),
                r as int,
            ) {
                ctx.full_code(assignment@, ci)
            } else {
                codes0[ci]
            } by {
                group_lists(ctx, r as int, ci);
            }
        }
    }

    /// Whether a move of a group changes simple codes that are kept up to date.
    pub fn has_simple_impact(&self, ctx: &OptContext, group: usize) -> (r: bool)
        requires
            ctx.wf_simple(),
            group < ctx.num_groups(),
        ensures
            r == (ctx.enable_simple_code && self.simple_eval is Some && self.simple_active
                && ctx.group_to_simple_affected@[group as int]@.len() > 0),
    {
        if !ctx.enable_simple_code || self.simple_eval.is_none() || !self.simple_active {
            return false;
        }
        ctx.group_to_simple_affected[group].len() > 0
    }

    /// Brings the simple codes up to date after groups have moved and their characters have got
    /// their new full codes. Without simple codes, nothing is done.
    pub fn apply_simple_for_move(&mut self, ctx: &OptContext, assignment: &[u8], groups: &Vec<usize>)
        requires
            ctx.wf_full(),
            ctx.wf_simple(),
            old(self).inv(ctx),
            ctx.assigns(assignment@),
            old(self).full.current_codes@ == ctx.full_codes(assignment@),
            forall|i: int| 0 <= i < groups@.len() ==> (#[trigger] groups@[i]) < ctx.num_groups(),
            old(self).simple_eval matches Some(se) ==> {
                &&& old(self).simple_active
                &&& !se.output_scope
                &&& differ_in(se.at@, assignment@, groups@)
            },
        ensures
            final(self).inv(ctx),
            final(self).full.current_codes == old(self).full.current_codes,
            final(self).key_weighted_usage == old(self).key_weighted_usage,
            final(self).simple_active == old(self).simple_active,
            final(self).full_rebuild_calls == old(self).full_rebuild_calls,
            old(self).simple_eval is None ==> final(self).simple_eval is None,
            old(self).simple_eval matches Some(was) ==> {
                &&& final(self).simple_eval matches Some(se)
                &&& se.at@ == assignment@
                &&& se.undoable(ctx)
                &&& se.base@ == was@
                &&& se.output_scope == was.output_scope
                &&& se.full_rebuild_calls == was.full_rebuild_calls
                &&& se.stage2_visits <= visit_limit(
                    ctx,
                    &se.sel,
                    moved_candidates(ctx, groups@).len(),
                    old(self).reordered(ctx).len(),
                )
                &&& moved_candidates(ctx, groups@).len() == 0 && old(self).reordered(ctx).len() == 0
                    && protection_quiet(ctx, ctx.full_codes(was.at@), ctx.full_codes(assignment@))
                    ==> se.stage2_visits == 0
            },
    {
        if self.simple_eval.is_none() {
            return;
        }
        let ghost was = self.simple_eval->0;
        proof {
            assert forall|g: int, i: int|
                #![trigger ctx.group_to_chars@[g]@[i]]
                0 <= g < ctx.num_groups() && 0 <= i < ctx.group_to_chars@[g]@.len() implies ctx.group_to_chars@[g]@[i]
                < ctx.n() by {
                let list = ctx.group_to_chars@[g];
            }
            assert forall|g: int, i: int|
                #![trigger ctx.group_to_simple_affected_candidate@[g]@[i]]
                0 <= g < ctx.num_groups() && 0 <= i < ctx.group_to_simple_affected_candidate@[g]@.len() implies ctx.group_to_simple_affected_candidate@[g]@[i]
                < ctx.n() by {
                let list = ctx.group_to_simple_affected_candidate@[g];
            }
        }
        let affected = gathered(&ctx.group_to_simple_affected_candidate, groups, Ghost(ctx.n()));
        let full_affected = gathered(&ctx.group_to_chars, groups, Ghost(ctx.n()));
        let ghost flipped = self.full.simple_is_first_dirty@;
        let seeds = match ctx.simple_assign_mode {
            SimpleAssignMode::Efficiency => sorted_distinct(&self.full.simple_is_first_dirty),
            SimpleAssignMode::Frequency => Vec::new(),
        };
        self.full.simple_is_first_dirty.clear();
        proof {
            full_fits(ctx, &self.full, true);
            moves_covered(ctx, was.at@, assignment@, groups@, affected@, full_affected@);
            seeds_cover(
                ctx,
                was.at@,
                assignment@,
                self.full.is_first_candidate@,
                flipped,
                affected@,
                seeds@,
            );
            assert forall|i: int| 0 <= i < seeds@.len() implies (#[trigger] seeds@[i]) < ctx.n() by {
                assert(seeds@.contains(seeds@[i]));
                let j = flipped.index_of(seeds@[i]);
                assert(flipped[j] < ctx.n());
            }
        }
        let mut moved = self.simple_eval.take();
        if let Some(se) = &mut moved {
            se.apply_move_incremental(
                ctx,
                assignment,
                &affected,
                &seeds,
                &full_affected,
                &self.full.full_buckets,
                &self.full.is_first_candidate,
            );
        }
        self.simple_eval = moved;
    }

    /// Settles for the last move.
    pub fn commit_simple(&mut self, ctx: &OptContext)
        requires
            old(self).inv(ctx),
        ensures
            final(self).inv(ctx),
            final(self).full == old(self).full,
            final(self).key_weighted_usage == old(self).key_weighted_usage,
            final(self).simple_active == old(self).simple_active,
            final(self).full_rebuild_calls == old(self).full_rebuild_calls,
            final(self).simple_eval is Some <==> old(self).simple_eval is Some,
            final(self).simple_eval matches Some(se) ==> {
                &&& se.settled_for()
                &&& se@ == old(self).simple_eval->0@
                &&& se.output_scope == old(self).simple_eval->0.output_scope
                &&& se.full_rebuild_calls == old(self).simple_eval->0.full_rebuild_calls
            },
            final(self).visits() == old(self).visits(),
    {
        let mut settled = self.simple_eval.take();
        if let Some(se) = &mut settled {
            se.commit(ctx);
        }
        self.simple_eval = settled;
    }

    /// Takes back the last move of the simple codes, once the characters concerned have got their
    /// former full codes back.
    pub fn rollback_simple(&mut self, ctx: &OptContext)
        requires
            ctx.wf_full(),
            ctx.wf_simple(),
            old(self).inv(ctx),
            old(self).simple_eval matches Some(se) ==> {
                &&& se.undoable(ctx)
                &&& old(self).full.current_codes@ == ctx.full_codes(se.base@.at)
            },
        ensures
            final(self).inv(ctx),
            final(self).full == old(self).full,
            final(self).key_weighted_usage == old(self).key_weighted_usage,
            final(self).simple_active == old(self).simple_active,
            final(self).full_rebuild_calls == old(self).full_rebuild_calls,
            final(self).simple_eval is Some <==> old(self).simple_eval is Some,
            final(self).simple_eval matches Some(se) ==> {
                &&& se.settled_for()
                &&& se@ == old(self).simple_eval->0.base@
                &&& se.output_scope == old(self).simple_eval->0.output_scope
                &&& se.full_rebuild_calls == old(self).simple_eval->0.full_rebuild_calls
            },
            final(self).visits() == old(self).visits(),
    {
        proof {
            full_fits(ctx, &self.full, self.simple_active);
        }
        let mut restored = self.simple_eval.take();
        if let Some(se) = &mut restored {
            se.rollback(ctx);
        }
        self.simple_eval = restored;
    }
}

/// A group's list of characters holds those with a part of the group.
proof fn group_lists(ctx: &OptContext, g: int, ci: int)
    requires
        ctx.wf_full(),
        0 <= g < ctx.num_groups(),
        0 <= ci < ctx.n(),
    ensures
        ctx.group_to_chars@[g]@.contains(ci as usize) <==> mentions(ctx.parts(ci), g),
{
    let list = ctx.group_to_chars@[g]@;
    let p = |cj: int| mentions(ctx.parts(cj), g);
    assert(crate::context::lists_ascending(list, ctx.n(), p));
    if list.contains(ci as usize) {
        let i = list.index_of(ci as usize);
        assert(list[i] == ci as usize);
        assert(p(list[i] as int));
    }
    if mentions(ctx.parts(ci), g) {
        assert(p(ci));
    }
}

/// Whether a list of one of the groups holds a number.
pub open spec fn named_by(lists: Seq<Vec<usize>>, groups: Seq<usize>, x: usize) -> bool {
    exists|k: int| 0 <= k < groups.len() && #[trigger] lists[groups[k] as int]@.contains(x)
}

/// The candidates whose simple codes moves of groups may change.
pub open spec fn moved_candidates(ctx: &OptContext, groups: Seq<usize>) -> Set<usize> {
    Set::new(|x: usize| named_by(ctx.group_to_simple_affected_candidate@, groups, x))
}

/// What the lists of groups hold, ascending, none twice.
fn gathered(lists: &Vec<Vec<usize>>, groups: &Vec<usize>, Ghost(bound): Ghost<nat>) -> (r: Vec<usize>)
    requires
        forall|i: int| 0 <= i < groups@.len() ==> (#[trigger] groups@[i]) < lists@.len(),
        forall|g: int, i: int|
            #![trigger lists@[g]@[i]]
            0 <= g < lists@.len() && 0 <= i < lists@[g]@.len() ==> lists@[g]@[i] < bound,
    ensures
        forall|i: int| 0 <= i < r@.len() ==> (#[trigger] r@[i]) < bound,
        forall|x: usize| #[trigger] r@.contains(x) <==> named_by(lists@, groups@, x),
        r@.len() == Set::new(|x: usize| named_by(lists@, groups@, x)).len(),
{
    let mut all: Vec<usize> = Vec::new();
    let mut k: usize = 0;
    while k < groups.len()
        invariant
            k <= groups@.len(),
            forall|i: int| 0 <= i < groups@.len() ==> (#[trigger] groups@[i]) < lists@.len(),
            forall|x: usize| #[trigger]
                all@.contains(x) <==> exists|j: int|
                    0 <= j < k && #[trigger] lists@[groups@[j] as int]@.contains(x),
        decreases groups@.len() - k,
    {
        let ghost all0 = all@;
        assert(groups@[k as int] < lists@.len());
        extend(&mut all, &lists[groups[k]]);
        proof {
            assert forall|x: usize| #[trigger] all@.contains(x) <==> exists|j: int|
                0 <= j < k + 1 && #[trigger] lists@[groups@[j] as int]@.contains(x) by {
                let y = all0.contains(x);
                let z = lists@[groups@[k as int] as int]@.contains(x);
            }
        }
        k = k + 1;
    }
    let r = sorted_distinct(&all);
    proof {
        let named = Set::new(|x: usize| named_by(lists@, groups@, x));
        assert forall|x: usize| #[trigger] r@.contains(x) <==> named_by(lists@, groups@, x) by {
            let y = all@.contains(x);
        }
        assert forall|x: usize| all@.to_set().contains(x) <==> named.contains(x) by {
            let y = r@.contains(x);
        }
        assert(all@.to_set() =~= named);
        assert forall|i: int| 0 <= i < r@.len() implies (#[trigger] r@[i]) < bound by {
            let x = r@[i];
            assert(r@.contains(x));
            let j = choose|j: int|
                0 <= j < groups@.len() && #[trigger] lists@[groups@[j] as int]@.contains(x);
            let g = groups@[j] as int;
            let l = lists@[g]@.index_of(x);
            assert(lists@[g]@[l] == x);
        }
    }
    r
}

/// Appends a list to another.
fn extend(v: &mut Vec<usize>, more: &Vec<usize>)
    ensures
        forall|x: usize| #[trigger] final(v)@.contains(x) <==> old(v)@.contains(x) || more@.contains(x),
{
    let ghost v0 = v@;
    let mut i: usize = 0;
    while i < more.len()
        invariant
            i <= more@.len(),
            v@ == v0 + more@.take(i as int),
        decreases more@.len() - i,
    {
        v.push(more[i]);
        assert(v@ =~= v0 + more@.take(i + 1));
        i = i + 1;
    }
    proof {
        assert(more@.take(more@.len() as int) =~= more@);
        assert(v@ == v0 + more@);
        assert forall|x: usize| #[trigger] v@.contains(x) <==> v0.contains(x) || more@.contains(x) by {
            if v@.contains(x) {
                let j = v@.index_of(x);
                if j < v0.len() {
                    assert(v0[j] == x);
                } else {
                    assert(more@[j - v0.len()] == x);
                }
            }
            if v0.contains(x) {
                assert(v@[v0.index_of(x)] == x);
            }
            if more@.contains(x) {
                assert(v@[v0.len() + more@.index_of(x)] == x);
            }
        }
    }
}

/// The lists of groups name all that moving the groups changes.
proof fn moves_covered(
    ctx: &OptContext,
    before: Seq<u8>,
    after: Seq<u8>,
    groups: Seq<usize>,
    affected: Seq<usize>,
    full_affected: Seq<usize>,
)
    requires
        ctx.wf_full(),
        ctx.wf_simple(),
        ctx.assigns(before),
        ctx.assigns(after),
        differ_in(before, after, groups),
        forall|i: int| 0 <= i < groups.len() ==> (#[trigger] groups[i]) < ctx.num_groups(),
        forall|x: usize| #[trigger]
            affected.contains(x) <==> named_by(ctx.group_to_simple_affected_candidate@, groups, x),
        forall|x: usize| #[trigger]
            full_affected.contains(x) <==> named_by(ctx.group_to_chars@, groups, x),
    ensures
        forall|ci: int, li: int|
            #![trigger ctx.eligible_code(after, ci, li)]
            0 <= ci < ctx.n() && 0 <= li < ctx.n_levels() && in_scope(ctx, false, ci)
                && !affected.contains(ci as usize) ==> ctx.eligible_code(before, ci, li)
                == ctx.eligible_code(after, ci, li),
        forall|ci: int|
            #![trigger ctx.full_code(after, ci)]
            0 <= ci < ctx.n() && ctx.full_code(before, ci) != ctx.full_code(after, ci)
                ==> full_affected.contains(ci as usize),
{
    assert forall|ci: int, li: int|
        #![trigger ctx.eligible_code(after, ci, li)]
        0 <= ci < ctx.n() && 0 <= li < ctx.n_levels() && in_scope(ctx, false, ci) && !affected.contains(
            ci as usize,
        ) implies ctx.eligible_code(before, ci, li) == ctx.eligible_code(after, ci, li) by {
        if ctx.simple_parts(ci, li) is Some {
            let parts = ctx.simple_parts(ci, li)->0;
            ctx.simple_parts_ok(ci, li);
            assert(ctx.simple_is_candidate@[ci]);
            assert forall|g: int| 0 <= g < before.len() && before[g] != after[g] implies !#[trigger] mentions(
                parts,
                g,
            ) by {
                if mentions(parts, g) {
                    assert(groups.contains(g as usize));
                    let k = groups.index_of(g as usize);
                    assert(groups[k] == g as usize);
                    let list = ctx.group_to_simple_affected_candidate@[g];
                    assert(list@.contains(ci as usize));
                    assert(ctx.group_to_simple_affected_candidate@[groups[k] as int]@.contains(
                        ci as usize,
                    ));
                }
            }
            part_keys_frame(parts, before, after);
        }
    }
    assert forall|ci: int|
        #![trigger ctx.full_code(after, ci)]
        0 <= ci < ctx.n() && ctx.full_code(before, ci) != ctx.full_code(after, ci) implies full_affected.contains(
    ci as usize) by {
        let parts = ctx.parts(ci);
        let info = ctx.char_infos@[ci];
        if !full_affected.contains(ci as usize) {
            assert forall|g: int| 0 <= g < before.len() && before[g] != after[g] implies !#[trigger] mentions(
                parts,
                g,
            ) by {
                if mentions(parts, g) {
                    assert(groups.contains(g as usize));
                    let k = groups.index_of(g as usize);
                    assert(groups[k] == g as usize);
                    group_lists(ctx, g, ci);
                    assert(ctx.group_to_chars@[groups[k] as int]@.contains(ci as usize));
                }
            }
            part_keys_frame(parts, before, after);
        }
    }
}

/// The candidates whose marks were noted as written, with those affected, cover a move.
proof fn seeds_cover(
    ctx: &OptContext,
    before: Seq<u8>,
    after: Seq<u8>,
    first: Seq<bool>,
    flipped: Seq<usize>,
    affected: Seq<usize>,
    seeds: Seq<usize>,
)
    requires
        ctx.wf_full(),
        ctx.wf_simple(),
        first == firsts(ctx, ctx.full_codes(after)),
        flips_noted(ctx, firsts(ctx, ctx.full_codes(before)), first, flipped),
        ctx.simple_assign_mode == SimpleAssignMode::Efficiency ==> forall|x: usize| #[trigger]
            seeds.contains(x) <==> flipped.contains(x),
        forall|ci: int, li: int|
            #![trigger ctx.eligible_code(after, ci, li)]
            0 <= ci < ctx.n() && 0 <= li < ctx.n_levels() && in_scope(ctx, false, ci)
                && !affected.contains(ci as usize) ==> ctx.eligible_code(before, ci, li)
                == ctx.eligible_code(after, ci, li),
    ensures
        candidates_covered(ctx, false, before, after, affected, seeds),
{
    if ctx.simple_assign_mode == SimpleAssignMode::Efficiency {
        assert forall|ci: int|
            #![trigger is_best(ctx, ctx.full_codes(after), ci)]
            0 <= ci < ctx.n() && in_scope(ctx, false, ci) && !seeds.contains(ci as usize) implies is_best(
            ctx,
            ctx.full_codes(before),
            ci,
        ) == is_best(ctx, ctx.full_codes(after), ci) by {
            assert(ctx.simple_is_candidate@[ci]);
            let x = first[ci];
            let y = firsts(ctx, ctx.full_codes(before))[ci];
        }
    }
}

/// The full codes after a group has moved.
proof fn codes_after_move(ctx: &OptContext, before: Seq<u8>, r: int, new_key: u8, ci: int)
    requires
        ctx.wf_full(),
        ctx.assigns(before),
        0 <= r < before.len(),
        0 <= ci < ctx.n(),
        !mentions(ctx.parts(ci), r),
    ensures
        ctx.full_code(before, ci) == ctx.full_code(before.update(r, new_key), ci),
{
    let info = ctx.char_infos@[ci];
    part_keys_frame(ctx.parts(ci), before, before.update(r, new_key));
}

impl Evaluator {
    /// Puts a group on another key: full codes and key strokes follow, simple codes do not.
    pub(crate) fn shift(&mut self, ctx: &OptContext, assignment: &mut Vec<u8>, r: usize, new_key: u8)
        requires
            ctx.wf_full(),
            ctx.wf_simple(),
            old(self).inv(ctx),
            ctx.assigns(old(assignment)@),
            old(self).full.current_codes@ == ctx.full_codes(old(assignment)@),
            usage_right(ctx, old(assignment)@, old(self).key_weighted_usage),
            r < ctx.num_groups(),
            new_key < EQUIV_TABLE_SIZE,
        ensures
            final(assignment)@ == old(assignment)@.update(r as int, new_key),
            ctx.assigns(final(assignment)@),
            final(self).inv(ctx),
            final(self).full.current_codes@ == ctx.full_codes(final(assignment)@),
            usage_right(ctx, final(assignment)@, final(self).key_weighted_usage),
            final(self).simple_active == old(self).simple_active,
            final(self).simple_eval == old(self).simple_eval,
            final(self).full_rebuild_calls == old(self).full_rebuild_calls,
    {
        let ghost before = assignment@;
        shift_usage(ctx, &mut self.key_weighted_usage, assignment.as_slice(), r, new_key);
        assignment.set(r, new_key);
        let ghost after = assignment@;
        assert(crate::codes::are_keys(after)) by {
            assert forall|i: int| 0 <= i < after.len() implies (#[trigger] after[i]) < EQUIV_TABLE_SIZE by {
                let x = before[i];
            }
        }
        self.update_group(ctx, assignment.as_slice(), r);
        proof {
            let codes = self.full.current_codes@;
            assert forall|ci: int| 0 <= ci < ctx.n() implies codes[ci] == ctx.full_codes(after)[ci] by {
                let x = codes[ci];
                if !mentions(ctx.parts(ci), r as int) {
                    codes_after_move(ctx, before, r as int, new_key, ci);
                }
            }
            assert(codes =~= ctx.full_codes(after));
        }
    }

    /// Whether another state is the same in all that an assignment decides.
    pub open spec fn same_state(&self, other: &Evaluator) -> bool {
        &&& self.full.current_codes@ == other.full.current_codes@
        &&& self.full.total_collisions == other.full.total_collisions
        &&& self.full.collision_frequency == other.full.collision_frequency
        &&& self.key_weighted_usage.cells@ == other.key_weighted_usage.cells@
        &&& self.simple_active == other.simple_active
        &&& self.simple_eval is Some <==> other.simple_eval is Some
        &&& self.simple_eval matches Some(se) ==> se@ == other.simple_eval->0@
    }

    /// Turns simple codes on, if there are any: from now on they are kept up to date.
    pub fn activate_simple(&mut self, ctx: &OptContext, assignment: &[u8])
        requires
            ctx.wf_full(),
            ctx.wf_simple(),
            old(self).in_step(ctx, assignment@),
        ensures
            final(self).in_step(ctx, assignment@),
            final(self).simple_active == (old(self).simple_active || (ctx.enable_simple_code
                && ctx.n_levels() > 0)),
            final(self).full.current_codes == old(self).full.current_codes,
            final(self).full.total_collisions == old(self).full.total_collisions,
            final(self).full.collision_frequency == old(self).full.collision_frequency,
            final(self).key_weighted_usage == old(self).key_weighted_usage,
            final(self).full_rebuild_calls == old(self).full_rebuild_calls,
            old(self).simple_active ==> *final(self) == *old(self),
            !old(self).simple_active ==> final(self).searches(),
            final(self).visits() == if final(self).simple_active && !old(self).simple_active {
                0
            } else {
                old(self).visits()
            },
            final(self).simple_eval matches Some(se) ==> se.full_rebuild_calls == match old(
                self,
            ).simple_eval {
                Some(was) => was.full_rebuild_calls,
                None => 0,
            },
    {
        if self.simple_active {
            return;
        }
        if ctx.enable_simple_code && ctx.simple_config.levels.len() > 0 {
            let calls = match &self.simple_eval {
                Some(se) => se.full_rebuild_calls,
                None => 0,
            };
            self.full.rebuild_first_candidates(ctx);
            proof {
                full_fits(ctx, &self.full, true);
            }
            let mut se = SimpleEvaluator::new(
                ctx,
                assignment,
                &self.full.full_buckets,
                &self.full.is_first_candidate,
                false,
            );
            se.full_rebuild_calls = calls;
            self.simple_eval = Some(se);
            self.simple_active = true;
        }
    }

    /// Turns simple codes off: from now on they are not kept up to date.
    pub fn suspend_simple(&mut self, ctx: &OptContext)
        requires
            old(self).inv(ctx),
        ensures
            final(self).inv(ctx),
            !final(self).simple_active,
            final(self).full == old(self).full,
            final(self).key_weighted_usage == old(self).key_weighted_usage,
            final(self).simple_eval == old(self).simple_eval,
            final(self).full_rebuild_calls == old(self).full_rebuild_calls,
    {
        self.simple_active = false;
    }

    /// Builds the simple codes, if there are any, anew.
    pub fn rebuild_simple(&mut self, ctx: &OptContext, assignment: &[u8])
        requires
            ctx.wf_full(),
            ctx.wf_simple(),
            old(self).in_step(ctx, assignment@),
        ensures
            final(self).in_step(ctx, assignment@),
            final(self).full.current_codes == old(self).full.current_codes,
            final(self).full.total_collisions == old(self).full.total_collisions,
            final(self).full.collision_frequency == old(self).full.collision_frequency,
            final(self).key_weighted_usage == old(self).key_weighted_usage,
            final(self).simple_active == old(self).simple_active,
            final(self).full_rebuild_calls == one_more(old(self).full_rebuild_calls),
            final(self).simple_eval is Some <==> old(self).simple_eval is Some,
            final(self).simple_eval matches Some(se) ==> {
                &&& se.at@ == assignment@
                &&& se.output_scope == old(self).simple_eval->0.output_scope
                &&& se.full_rebuild_calls == one_more(old(self).simple_eval->0.full_rebuild_calls)
            },
            final(self).visits() == old(self).visits(),
    {
        self.full_rebuild_calls = self.full_rebuild_calls.saturating_add(1);
        self.full.simple_is_first_dirty.clear();
        if self.simple_eval.is_some() {
            if !self.simple_active {
                self.full.rebuild_first_candidates(ctx);
            }
            proof {
                full_fits(ctx, &self.full, true);
            }
            let mut rebuilt = self.simple_eval.take();
            if let Some(se) = &mut rebuilt {
                se.full_rebuild(
                    ctx,
                    assignment,
                    &self.full.full_buckets,
                    &self.full.is_first_candidate,
                );
            }
            self.simple_eval = rebuilt;
        }
    }

    /// Builds everything anew, and keeps whether simple codes are on and the counts of rebuilds.
    pub fn reconcile(&mut self, ctx: &OptContext, assignment: &[u8])
        requires
            ctx.wf_full(),
            ctx.wf_simple(),
            old(self).inv(ctx),
            ctx.assigns(assignment@),
        ensures
            final(self).in_step(ctx, assignment@),
            final(self).searches(),
            final(self).built_anew(ctx, assignment@),
            final(self).visits() == 0,
            final(self).simple_active == old(self).simple_active,
            final(self).full_rebuild_calls == old(self).full_rebuild_calls,
            final(self).simple_eval matches Some(se) ==> se.full_rebuild_calls == match old(
                self,
            ).simple_eval {
                Some(was) => was.full_rebuild_calls,
                None => 0,
            },
    {
        let active = self.simple_active;
        let calls = self.full_rebuild_calls;
        let simple_calls = match &self.simple_eval {
            Some(se) => se.full_rebuild_calls,
            None => 0,
        };
        let mut fresh = Evaluator::new(ctx, assignment);
        fresh.simple_active = active;
        fresh.full_rebuild_calls = calls;
        let mut simple = fresh.simple_eval.take();
        if let Some(se) = &mut simple {
            se.full_rebuild_calls = simple_calls;
        }
        fresh.simple_eval = simple;
        *self = fresh;
    }

    /// How many candidates the last move of the simple codes looked at: none where there was no move
    /// yet, or there are no simple codes.
    pub fn last_stage2_visits(&self) -> (r: usize)
        ensures
            r == self.visits(),
    {
        match &self.simple_eval {
            Some(se) => se.stage2_visits,
            None => 0,
        }
    }

    /// How often simple codes were built anew on demand, counted here and by themselves.
    pub fn full_rebuild_calls_breakdown(&self) -> (r: (u64, u64))
        ensures
            r == self.rebuilds(),
    {
        let simple_calls = match &self.simple_eval {
            Some(se) => se.full_rebuild_calls,
            None => 0,
        };
        (self.full_rebuild_calls, simple_calls)
    }

    /// How often simple codes were built anew on demand, counted here and by themselves.
    pub fn full_rebuild_calls(&self) -> (r: u128)
        ensures
            r == self.rebuilds().0 + self.rebuilds().1,
    {
        let (here, simple_calls) = self.full_rebuild_calls_breakdown();
        here as u128 + simple_calls as u128
    }
}

/// Whether a group that is on different keys in two assignments has parts in simple codes.
pub fn differ_in_simple(ctx: &OptContext, before: &[u8], after: &[u8]) -> (r: bool)
    requires
        ctx.wf_simple(),
        before@.len() == ctx.num_groups(),
        after@.len() == ctx.num_groups(),
    ensures
        r <==> exists|g: int|
            0 <= g < ctx.num_groups() && before@[g] != after@[g]
                && (#[trigger] ctx.group_to_simple_affected@[g])@.len() > 0,
{
    let mut g: usize = 0;
    while g < before.len()
        invariant
            g <= before@.len(),
            ctx.wf_simple(),
            before@.len() == ctx.num_groups(),
            after@.len() == ctx.num_groups(),
            forall|h: int|
                0 <= h < g && before@[h] != after@[h]
                    ==> (#[trigger] ctx.group_to_simple_affected@[h])@.len() == 0,
        decreases before@.len() - g,
    {
        if before[g] != after[g] && ctx.group_to_simple_affected[g].len() > 0 {
            assert(ctx.group_to_simple_affected@[g as int]@.len() > 0);
            return true;
        }
        g = g + 1;
    }
    false
}

/// One more, up to the end of the type.
pub open spec fn one_more(n: u64) -> int {
    if n < u64::MAX {
        n + 1
    } else {
        n as int
    }
}

/// An assignment has one set of totals.
pub proof fn same_usage(ctx: &OptContext, assignment: Seq<u8>, a: Totals, b: Totals)
    requires
        usage_right(ctx, assignment, a),
        usage_right(ctx, assignment, b),
    ensures
        a.cells@ == b.cells@,
{
    assert forall|i: int| 0 <= i < a.cells@.len() implies a.cells@[i] == b.cells@[i] by {
        let x = a.cells@[i];
        let y = b.cells@[i];
    }
    assert(a.cells@ =~= b.cells@);
}

} // verus!
