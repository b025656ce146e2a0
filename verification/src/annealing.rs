//! The course of an annealing run: what is due at each step, which move is tried, and what is
//! remembered. Temperatures and scores are the caller's.

use rand::rngs::ThreadRng;
use vstd::prelude::*;

use crate::climb::{
    climb_begins, climb_ends, climb_goes_on, climbed, draw_two, enhanced_hill_climb, move_tried, swap_pair,
    swap_tried, take_step, StepDraw,
};
use crate::conflicts::{find_collision_groups, lists_collisions};
use crate::context::OptContext;
use crate::descent::{coordinate_descent, descends, settled_at, well_founded};
use crate::dice::below;
use crate::evaluator::Evaluator;
use crate::lists::copy_of;
use crate::moves::{can_judge, lists_key, scored, swappable};
use crate::multistart::POLISH_LIMIT;
use crate::neighbours::{resolved, try_resolve_conflict};

verus! {

/// After how many steps a run looks whether it is to stop.
pub const STOP_CHECK_STRIDE: usize = 10_000;

/// From how many of the heaviest collisions a perturbation takes its groups.
pub const PERTURB_PAIRS: usize = 10;

/// The numbers of a run.
#[derive(Clone, Debug)]
pub struct AnnealPlan {
    pub total_steps: usize,
    /// Whether checkpoints are written at all, and after how many steps.
    pub writes_checkpoints: bool,
    pub checkpoint_interval: usize,
    /// After how many steps everything is built anew, once simple codes are on.
    pub reconcile_interval: usize,
    /// After how many steps a cold run is perturbed; 0 for never.
    pub perturb_interval: usize,
    /// After how many steps without improvement a run is heated up.
    pub min_improve_steps: usize,
    /// Whether collisions are resolved on purpose.
    pub conflict_enabled: bool,
    /// After how many steps collisions are looked for again; 0 for never.
    pub conflict_refresh: usize,
    /// Among how many of the heaviest collisions one is drawn.
    pub conflict_window: usize,
    /// Whether collisions are weighed by frequency.
    pub conflict_weight_by_freq: bool,
}

impl AnnealPlan {
    /// Intervals are positive.
    pub open spec fn wf(&self) -> bool {
        &&& self.checkpoint_interval > 0
        &&& self.reconcile_interval > 0
    }

    /// Whether a run that is cold is perturbed after a step.
    pub open spec fn shakes_at(&self, step: int) -> bool {
        self.perturb_interval > 0 && step > 0 && step % self.perturb_interval as int == 0
    }

    /// Whether a run with simple codes builds everything anew after a step.
    pub open spec fn reconciles_at(&self, step: int) -> bool {
        step > 0 && step % self.reconcile_interval as int == 0
    }

    /// Whether a run is heated up when one step more than so many has brought no improvement.
    pub open spec fn reheats_after(&self, steps: usize) -> bool {
        counted(steps) > self.min_improve_steps
    }

    /// Whether collisions are looked for again when they were for so many steps not.
    pub open spec fn refreshes_after(&self, steps: usize) -> bool {
        self.conflict_refresh > 0 && steps >= self.conflict_refresh
    }

    /// Whether progress is reported after a step.
    pub open spec fn reports_at(&self, step: int) -> bool {
        step > 0 && step % report_every(self.total_steps) == 0
    }
}

/// Whether simple codes are on from now on: once they are, they stay on; they are turned on by force,
/// or when the run has come far enough.
pub fn latch_activation(already_activated: bool, reached: bool, hard_activate: bool) -> (r: bool)
    ensures
        r == (already_activated || hard_activate || reached),
{
    already_activated || hard_activate || reached
}

/// Whether a step of a run turns simple codes on.
pub open spec fn triggers(reached: Seq<bool>, hard_activate: bool, j: int) -> bool {
    hard_activate || reached[j]
}

/// The state of the latch after the first `i` steps of a run.
pub open spec fn latched(reached: Seq<bool>, hard_activate: bool, i: int) -> bool
    decreases i,
{
    i > 0 && (latched(reached, hard_activate, i - 1) || triggers(reached, hard_activate, i - 1))
}

/// The latch is on from the first step that triggers it, and never goes off again, whatever the
/// progress does afterwards. By force it is on from the first step.
pub proof fn latch_holds(reached: Seq<bool>, hard_activate: bool, i: int)
    requires
        0 <= i <= reached.len(),
    ensures
        latched(reached, hard_activate, i) <==> exists|j: int|
            0 <= j < i && #[trigger] triggers(reached, hard_activate, j),
        forall|j: int|
            0 <= j <= i && #[trigger] latched(reached, hard_activate, j) ==> latched(
                reached,
                hard_activate,
                i,
            ),
        hard_activate && i > 0 ==> latched(reached, hard_activate, i),
    decreases i,
{
    if i > 0 {
        latch_holds(reached, hard_activate, i - 1);
        let now = triggers(reached, hard_activate, i - 1);
        assert forall|j: int| 0 <= j <= i && #[trigger] latched(reached, hard_activate, j) implies latched(
            reached,
            hard_activate,
            i,
        ) by {
            if j < i {
                assert(latched(reached, hard_activate, i - 1));
            }
        }
    }
}

/// What is due when a step begins.
#[derive(Clone, Copy, Debug, PartialEq, Eq, Structural)]
pub struct Due {
    /// To look whether the run is to stop.
    pub stop_check: bool,
    /// To write a checkpoint.
    pub checkpoint: bool,
}

/// What is due when a step ends.
#[derive(Clone, Copy, Debug, PartialEq, Eq, Structural)]
pub struct DueAfter {
    /// To perturb the run, if it is cold.
    pub perturb: bool,
    /// To report progress.
    pub report: bool,
    /// To build everything anew.
    pub reconcile: bool,
}

/// How a run has gone, step by step.
pub struct RunHistory {
    /// The present assignment that the run began with.
    pub from: Seq<u8>,
    /// The best assignment at the beginning and after each step.
    pub bests: Seq<Seq<u8>>,
    /// The present assignment that each step was remembered by.
    pub nows: Seq<Seq<u8>>,
    /// Which of these were taken for improvements.
    pub improved: Seq<bool>,
}

impl RunHistory {
    /// The beginning of a run.
    pub open spec fn begun(from: Seq<u8>, best: Seq<u8>) -> RunHistory {
        RunHistory { from, bests: seq![best], nows: Seq::empty(), improved: Seq::empty() }
    }

    /// A step more.
    pub open spec fn with_step(&self, now: Seq<u8>, improved: bool) -> RunHistory {
        RunHistory {
            from: self.from,
            bests: self.bests.push(best_after(self.bests.last(), now, improved)),
            nows: self.nows.push(now),
            improved: self.improved.push(improved),
        }
    }

    /// Each best assignment is what the step made of the one before, and the last is this one.
    pub open spec fn leads_to(&self, best: Seq<u8>) -> bool {
        &&& self.bests.len() == self.nows.len() + 1
        &&& self.improved.len() == self.nows.len()
        &&& self.bests.last() == best
        &&& forall|i: int|
            #![trigger self.nows[i]]
            0 <= i < self.nows.len() ==> self.bests[i + 1] == best_after(
                self.bests[i],
                self.nows[i],
                self.improved[i],
            )
    }

    /// The run began with permitted assignments.
    pub open spec fn began_permitted(&self, ctx: &OptContext) -> bool {
        ctx.permits(self.from) && ctx.permits(self.bests[0])
    }

    /// Only what ranks lower than the best assignment before was taken for an improvement.
    pub open spec fn only_lower(&self, rank: spec_fn(Seq<u8>) -> int) -> bool {
        forall|i: int|
            #![trigger self.nows[i]]
            0 <= i < self.nows.len() && self.improved[i] ==> rank(self.nows[i]) < rank(self.bests[i])
    }
}

/// A run.
pub struct Annealer {
    pub assignment: Vec<u8>,
    pub evaluator: Evaluator,
    /// The best assignment so far.
    pub best_assignment: Vec<u8>,
    pub start_step: usize,
    pub step: usize,
    /// Whether simple codes have been turned on.
    pub simple_activated: bool,
    pub steps_since_improve: usize,
    pub collisions: Vec<(usize, usize, u64)>,
    pub steps_since_refresh: usize,
    /// The step of the last report, and the moves tried and made since.
    pub window_start_step: usize,
    pub win_proposed: usize,
    pub win_accepted: usize,
    /// How it has gone.
    pub history: Ghost<RunHistory>,
}

/// One more, up to the end of the type.
pub open spec fn counted(n: usize) -> int {
    if n < usize::MAX {
        n + 1
    } else {
        n as int
    }
}

/// Whether there are simple codes to turn on.
pub open spec fn has_simple(ctx: &OptContext) -> bool {
    ctx.enable_simple_code && ctx.n_levels() > 0
}

impl Annealer {
    /// The run is in order, and its evaluator is that of the present assignment.
    pub open spec fn inv(&self, ctx: &OptContext) -> bool {
        &&& self.evaluator.in_step(ctx, self.assignment@)
        &&& self.evaluator.searches()
        &&& self.evaluator.simple_active == (self.simple_activated && has_simple(ctx))
        &&& ctx.assigns(self.best_assignment@)
        &&& self.start_step <= self.step
        &&& self.window_start_step <= self.step
        &&& self.win_accepted <= self.win_proposed
        &&& self.history@.leads_to(self.best_assignment@)
        &&& self.history@.began_permitted(ctx) ==> ctx.permits(self.assignment@) && ctx.permits(
            self.best_assignment@,
        )
        &&& forall|i: int|
            0 <= i < self.collisions@.len() ==> (#[trigger] self.collisions@[i]).0 < ctx.num_groups()
                && self.collisions@[i].1 < ctx.num_groups()
    }

    /// Nothing but the present assignment, its evaluator and the count of moves differs.
    pub open spec fn only_moved(&self, before: &Annealer) -> bool {
        &&& self.best_assignment == before.best_assignment
        &&& self.start_step == before.start_step
        &&& self.step == before.step
        &&& self.simple_activated == before.simple_activated
        &&& self.steps_since_improve == before.steps_since_improve
        &&& self.collisions == before.collisions
        &&& self.steps_since_refresh == before.steps_since_refresh
        &&& self.window_start_step == before.window_start_step
        &&& self.evaluator.rebuilds() == before.evaluator.rebuilds()
        &&& self.history == before.history
    }

    /// A run from the beginning, without simple codes for now.
    pub fn fresh(ctx: &OptContext, plan: &AnnealPlan, init: Vec<u8>) -> (r: Annealer)
        requires
            ctx.wf_full(),
            ctx.wf_simple(),
            ctx.assigns(init@),
        ensures
            r.inv(ctx),
            r.assignment@ == init@,
            r.best_assignment@ == init@,
            r.history@ == RunHistory::begun(init@, init@),
            r.start_step == 0,
            r.step == 0,
            r.window_start_step == 0,
            !r.simple_activated,
            r.steps_since_improve == 0,
            r.steps_since_refresh == 0,
            r.win_proposed == 0,
            r.win_accepted == 0,
            r.evaluator.rebuilds() == (0u64, 0u64),
            plan.conflict_enabled ==> lists_collisions(
                ctx,
                ctx.full_codes(init@),
                plan.conflict_weight_by_freq,
                r.collisions@,
            ),
            !plan.conflict_enabled ==> r.collisions@.len() == 0,
    {
        let ghost history = RunHistory::begun(init@, init@);
        let evaluator = Evaluator::new_full_only(ctx, init.as_slice());
        let best_assignment = copy_of(&init);
        let collisions = if plan.conflict_enabled {
            find_collision_groups(ctx, init.as_slice(), plan.conflict_weight_by_freq)
        } else {
            Vec::new()
        };
        Annealer {
            assignment: init,
            evaluator,
            best_assignment,
            start_step: 0,
            step: 0,
            simple_activated: false,
            steps_since_improve: 0,
            collisions,
            steps_since_refresh: 0,
            window_start_step: 0,
            win_proposed: 0,
            win_accepted: 0,
            history: Ghost(history),
        }
    }

    /// A run that goes on where a checkpoint was written.
    pub fn resume(
        ctx: &OptContext,
        plan: &AnnealPlan,
        assignment: Vec<u8>,
        best_assignment: Vec<u8>,
        current_step: usize,
        steps_since_improve: usize,
        simple_activated: bool,
    ) -> (r: Annealer)
        requires
            ctx.wf_full(),
            ctx.wf_simple(),
            ctx.assigns(assignment@),
            ctx.assigns(best_assignment@),
        ensures
            r.inv(ctx),
            r.assignment@ == assignment@,
            r.best_assignment@ == best_assignment@,
            r.history@ == RunHistory::begun(assignment@, best_assignment@),
            r.start_step == current_step,
            r.step == current_step,
            r.window_start_step == current_step,
            r.simple_activated == simple_activated,
            r.steps_since_improve == steps_since_improve,
            r.steps_since_refresh == 0,
            r.win_proposed == 0,
            r.win_accepted == 0,
            r.evaluator.rebuilds() == (0u64, 0u64),
            plan.conflict_enabled ==> lists_collisions(
                ctx,
                ctx.full_codes(assignment@),
                plan.conflict_weight_by_freq,
                r.collisions@,
            ),
            !plan.conflict_enabled ==> r.collisions@.len() == 0,
    {
        let ghost history = RunHistory::begun(assignment@, best_assignment@);
        let mut evaluator = Evaluator::new(ctx, assignment.as_slice());
        if !simple_activated {
            evaluator.suspend_simple(ctx);
        }
        let collisions = if plan.conflict_enabled {
            find_collision_groups(ctx, assignment.as_slice(), plan.conflict_weight_by_freq)
        } else {
            Vec::new()
        };
        Annealer {
            assignment,
            evaluator,
            best_assignment,
            start_step: current_step,
            step: current_step,
            simple_activated,
            steps_since_improve,
            collisions,
            steps_since_refresh: 0,
            window_start_step: current_step,
            win_proposed: 0,
            win_accepted: 0,
            history: Ghost(history),
        }
    }

    /// What is due as the step begins. Nothing is due at the step that the run began with.
    pub fn due(&self, plan: &AnnealPlan) -> (r: Due)
        requires
            plan.wf(),
        ensures
            r.stop_check == (self.step > self.start_step && self.step % STOP_CHECK_STRIDE == 0),
            r.checkpoint == (plan.writes_checkpoints && self.step > self.start_step && self.step
                % plan.checkpoint_interval == 0),
    {
        let later = self.step > self.start_step;
        Due {
            stop_check: later && self.step % STOP_CHECK_STRIDE == 0,
            checkpoint: plan.writes_checkpoints && later && self.step % plan.checkpoint_interval == 0,
        }
    }

    /// What is due as the step ends. Nothing is due at step 0.
    pub fn due_after(&self, plan: &AnnealPlan) -> (r: DueAfter)
        requires
            plan.wf(),
        ensures
            r.perturb == plan.shakes_at(self.step as int),
            r.report == plan.reports_at(self.step as int),
            r.reconcile == (self.simple_activated && plan.reconciles_at(self.step as int)),
    {
        DueAfter {
            perturb: plan.perturb_interval > 0 && self.step > 0 && self.step % plan.perturb_interval == 0,
            report: self.step > 0 && self.step % report_interval(plan.total_steps) == 0,
            reconcile: self.simple_activated && self.step > 0 && self.step % plan.reconcile_interval
                == 0,
        }
    }

    /// Turns simple codes on if it is time. Says whether it was.
    pub fn activate(&mut self, ctx: &OptContext, reached: bool, hard_activate: bool) -> (r: bool)
        requires
            ctx.wf_full(),
            ctx.wf_simple(),
            old(self).inv(ctx),
        ensures
            final(self).inv(ctx),
            r == (has_simple(ctx) && !old(self).simple_activated && (hard_activate || reached)),
            final(self).simple_activated == (old(self).simple_activated || r),
            final(self).assignment == old(self).assignment,
            final(self).best_assignment == old(self).best_assignment,
            final(self).history == old(self).history,
            final(self).start_step == old(self).start_step,
            final(self).step == old(self).step,
            final(self).steps_since_improve == old(self).steps_since_improve,
            final(self).collisions == old(self).collisions,
            final(self).steps_since_refresh == old(self).steps_since_refresh,
            final(self).window_start_step == old(self).window_start_step,
            final(self).win_proposed == old(self).win_proposed,
            final(self).win_accepted == old(self).win_accepted,
            final(self).evaluator.rebuilds() == old(self).evaluator.rebuilds(),
            !r ==> *final(self) == *old(self),
    {
        if ctx.enable_simple_code && ctx.simple_config.levels.len() > 0 && !self.simple_activated
            && latch_activation(self.simple_activated, reached, hard_activate) {
            self.evaluator.activate_simple(ctx, self.assignment.as_slice());
            self.simple_activated = true;
            true
        } else {
            false
        }
    }

    /// The state of the best assignment, with simple codes, to price it anew.
    pub fn best_state(&self, ctx: &OptContext) -> (e: Evaluator)
        requires
            ctx.wf_full(),
            ctx.wf_simple(),
            self.inv(ctx),
        ensures
            e.in_step(ctx, self.best_assignment@),
            e.searches(),
            e.simple_active == has_simple(ctx),
    {
        Evaluator::new(ctx, self.best_assignment.as_slice())
    }

    /// Looks for collisions again if it is time, and counts the step otherwise.
    pub fn refresh_collisions(&mut self, ctx: &OptContext, plan: &AnnealPlan)
        requires
            ctx.wf_full(),
            old(self).inv(ctx),
        ensures
            final(self).inv(ctx),
            final(self).assignment == old(self).assignment,
            final(self).evaluator == old(self).evaluator,
            final(self).best_assignment == old(self).best_assignment,
            final(self).history == old(self).history,
            final(self).start_step == old(self).start_step,
            final(self).step == old(self).step,
            final(self).simple_activated == old(self).simple_activated,
            final(self).steps_since_improve == old(self).steps_since_improve,
            final(self).window_start_step == old(self).window_start_step,
            final(self).win_proposed == old(self).win_proposed,
            final(self).win_accepted == old(self).win_accepted,
            !plan.conflict_enabled ==> *final(self) == *old(self),
            plan.conflict_enabled ==> {
                if plan.refreshes_after(old(self).steps_since_refresh) {
                    &&& final(self).steps_since_refresh == 0
                    &&& lists_collisions(
                        ctx,
                        ctx.full_codes(old(self).assignment@),
                        plan.conflict_weight_by_freq,
                        final(self).collisions@,
                    )
                } else {
                    &&& final(self).steps_since_refresh == counted(old(self).steps_since_refresh)
                    &&& final(self).collisions == old(self).collisions
                }
            },
    {
        if plan.conflict_enabled {
            if plan.conflict_refresh > 0 && self.steps_since_refresh >= plan.conflict_refresh {
                self.collisions = find_collision_groups(
                    ctx,
                    self.assignment.as_slice(),
                    plan.conflict_weight_by_freq,
                );
                self.steps_since_refresh = 0;
            } else {
                self.steps_since_refresh = self.steps_since_refresh.saturating_add(1);
            }
        }
    }
}

/// How it goes when a group, perhaps another one, and a place among the keys of the first have been
/// drawn: the two groups are to swap their keys if they can; otherwise the first is to go to that key.
pub open spec fn neighbour_went<S, F: Fn(&Evaluator, &Vec<u8>) -> S, G: Fn(&S, &S) -> bool>(
    ctx: &OptContext,
    simple: bool,
    score: &F,
    accept: &G,
    r: usize,
    other: Option<usize>,
    pick: usize,
    a: Seq<u8>,
    b: Seq<u8>,
    accepted: bool,
) -> bool {
    let there = ctx.choices(r as int)[pick as int];
    match other {
        Some(h) => if swappable(ctx, a, r as int, h as int) {
            swap_tried(ctx, simple, score, accept, a, b, r as int, h as int, accepted)
        } else {
            move_tried(ctx, simple, score, accept, a, b, r as int, there, accepted)
        },
        None => move_tried(ctx, simple, score, accept, a, b, r as int, there, accepted),
    }
}

/// Whether what was drawn for a neighbour is there: groups, different ones, and a place among the
/// keys of the first.
pub open spec fn neighbour_fits(ctx: &OptContext, r: usize, other: Option<usize>, pick: usize) -> bool {
    &&& r < ctx.num_groups()
    &&& other matches Some(h) ==> h < ctx.num_groups() && h != r
    &&& pick < ctx.choices(r as int).len()
}

/// Whether a neighbour of an assignment was tried: with some draw, in which there is another group
/// where a swap is asked for and there are two groups.
pub open spec fn neighbour_tried<S, F: Fn(&Evaluator, &Vec<u8>) -> S, G: Fn(&S, &S) -> bool>(
    ctx: &OptContext,
    simple: bool,
    score: &F,
    accept: &G,
    swap: bool,
    a: Seq<u8>,
    b: Seq<u8>,
    accepted: bool,
) -> bool {
    exists|r: usize, other: Option<usize>, pick: usize|
        {
            &&& neighbour_fits(ctx, r, other, pick)
            &&& other is Some <==> swap && ctx.num_groups() >= 2
            &&& #[trigger] neighbour_went(ctx, simple, score, accept, r, other, pick, a, b, accepted)
        }
}

/// The best assignment after a step: the present one where it is an improvement.
pub open spec fn best_after(best: Seq<u8>, now: Seq<u8>, improved: bool) -> Seq<u8> {
    if improved {
        now
    } else {
        best
    }
}

/// After how many steps progress is reported: twenty times in a run.
pub open spec fn report_every(total_steps: usize) -> int {
    if total_steps / 20 > 1 {
        (total_steps / 20) as int
    } else {
        1
    }
}

/// After how many steps progress is reported.
pub fn report_interval(total_steps: usize) -> (r: usize)
    ensures
        r == report_every(total_steps),
        r > 0,
{
    let r: usize = total_steps / 20;
    if r > 1 {
        r
    } else {
        1
    }
}

impl Annealer {
    /// Counts a move that was tried.
    fn count_proposal(&mut self, accepted: bool)
        requires
            old(self).win_accepted <= old(self).win_proposed,
        ensures
            final(self).win_proposed == counted(old(self).win_proposed),
            final(self).win_accepted == if accepted {
                counted(old(self).win_accepted)
            } else {
                old(self).win_accepted as int
            },
            final(self).win_accepted <= final(self).win_proposed,
            final(self).assignment == old(self).assignment,
            final(self).evaluator == old(self).evaluator,
            final(self).only_moved(old(self)),
    {
        self.win_proposed = self.win_proposed.saturating_add(1);
        if accepted {
            self.win_accepted = self.win_accepted.saturating_add(1);
        }
    }

    /// Tries to resolve one of the collisions.
    pub fn propose_resolution<S, F: Fn(&Evaluator, &Vec<u8>) -> S, G: Fn(&S, &S) -> bool>(
        &mut self,
        ctx: &OptContext,
        plan: &AnnealPlan,
        rng: &mut ThreadRng,
        score: &F,
        accept: &G,
    ) -> (accepted: bool)
        requires
            ctx.wf_full(),
            ctx.wf_simple(),
            ctx.playable(),
            old(self).inv(ctx),
            can_judge(score, accept),
        ensures
            final(self).inv(ctx),
            final(self).only_moved(old(self)),
            final(self).win_proposed == counted(old(self).win_proposed),
            final(self).win_accepted == if accepted {
                counted(old(self).win_accepted)
            } else {
                old(self).win_accepted as int
            },
            !accepted ==> final(self).assignment@ == old(self).assignment@,
            old(self).collisions@.len() == 0 || plan.conflict_window == 0 ==> !accepted,
            old(self).collisions@.len() > 0 && plan.conflict_window > 0 ==> resolved(
                ctx,
                old(self).evaluator.simple_active,
                score,
                accept,
                old(self).collisions@,
                plan.conflict_window as int,
                old(self).assignment@,
                final(self).assignment@,
                accepted,
            ),
            ctx.permits(old(self).assignment@) ==> ctx.permits(final(self).assignment@),
    {
        let accepted = try_resolve_conflict(
            ctx,
            &mut self.assignment,
            &mut self.evaluator,
            &self.collisions,
            plan.conflict_window,
            rng,
            score,
            accept,
        );
        self.count_proposal(accepted);
        accepted
    }

    /// Tries the neighbour that was drawn: to swap a group with another one, if there is one and that
    /// is permitted, or else to move it to the key at a place among its keys.
    pub fn propose_drawn<S, F: Fn(&Evaluator, &Vec<u8>) -> S, G: Fn(&S, &S) -> bool>(
        &mut self,
        ctx: &OptContext,
        r: usize,
        other: Option<usize>,
        pick: usize,
        score: &F,
        accept: &G,
    ) -> (accepted: bool)
        requires
            ctx.wf_full(),
            ctx.wf_simple(),
            ctx.playable(),
            old(self).inv(ctx),
            neighbour_fits(ctx, r, other, pick),
            can_judge(score, accept),
        ensures
            final(self).inv(ctx),
            final(self).only_moved(old(self)),
            final(self).win_proposed == counted(old(self).win_proposed),
            final(self).win_accepted == if accepted {
                counted(old(self).win_accepted)
            } else {
                old(self).win_accepted as int
            },
            !accepted ==> final(self).assignment@ == old(self).assignment@,
            neighbour_went(
                ctx,
                old(self).evaluator.simple_active,
                score,
                accept,
                r,
                other,
                pick,
                old(self).assignment@,
                final(self).assignment@,
                accepted,
            ),
            ctx.permits(old(self).assignment@) ==> ctx.permits(final(self).assignment@),
    {
        let swaps = match other {
            Some(h) => {
                let k1 = self.assignment[r];
                let k2 = self.assignment[h];
                k1 != k2 && lists_key(&ctx.groups[r].allowed_keys, k2) && lists_key(
                    &ctx.groups[h].allowed_keys,
                    k1,
                )
            },
            None => false,
        };
        let draw = match other {
            Some(h) => if swaps {
                StepDraw::Swap { r1: r, r2: h }
            } else {
                StepDraw::Move { g: r, pick }
            },
            None => StepDraw::Move { g: r, pick },
        };
        let accepted = take_step(ctx, &mut self.assignment, &mut self.evaluator, draw, score, accept);
        self.count_proposal(accepted);
        accepted
    }

    /// Tries to swap two groups, if that is asked for and permitted, or else to move one.
    pub fn propose_neighbour<S, F: Fn(&Evaluator, &Vec<u8>) -> S, G: Fn(&S, &S) -> bool>(
        &mut self,
        ctx: &OptContext,
        swap: bool,
        rng: &mut ThreadRng,
        score: &F,
        accept: &G,
    ) -> (accepted: bool)
        requires
            ctx.wf_full(),
            ctx.wf_simple(),
            ctx.playable(),
            ctx.num_groups() > 0,
            old(self).inv(ctx),
            can_judge(score, accept),
        ensures
            final(self).inv(ctx),
            final(self).only_moved(old(self)),
            final(self).win_proposed == counted(old(self).win_proposed),
            final(self).win_accepted == if accepted {
                counted(old(self).win_accepted)
            } else {
                old(self).win_accepted as int
            },
            !accepted ==> final(self).assignment@ == old(self).assignment@,
            neighbour_tried(
                ctx,
                old(self).evaluator.simple_active,
                score,
                accept,
                swap,
                old(self).assignment@,
                final(self).assignment@,
                accepted,
            ),
            ctx.permits(old(self).assignment@) ==> ctx.permits(final(self).assignment@),
    {
        let n = self.assignment.len();
        let (r, other) = if swap && n >= 2 {
            let (r, h) = draw_two(n, rng);
            (r, Some(h))
        } else {
            (below(rng, n), None)
        };
        let pick = below(rng, ctx.groups[r].allowed_keys.len());
        self.propose_drawn(ctx, r, other, pick, score, accept)
    }

    /// Tries the move of a step: if collisions are resolved on purpose, there are some, and the draw
    /// says so, one of them is taken on; otherwise a neighbour is tried.
    pub fn propose<S, F: Fn(&Evaluator, &Vec<u8>) -> S, G: Fn(&S, &S) -> bool>(
        &mut self,
        ctx: &OptContext,
        plan: &AnnealPlan,
        conflict_drawn: bool,
        swap_drawn: bool,
        rng: &mut ThreadRng,
        score: &F,
        accept: &G,
    ) -> (accepted: bool)
        requires
            ctx.wf_full(),
            ctx.wf_simple(),
            ctx.playable(),
            ctx.num_groups() > 0,
            old(self).inv(ctx),
            can_judge(score, accept),
        ensures
            final(self).inv(ctx),
            final(self).only_moved(old(self)),
            final(self).win_proposed == counted(old(self).win_proposed),
            final(self).win_accepted == if accepted {
                counted(old(self).win_accepted)
            } else {
                old(self).win_accepted as int
            },
            !accepted ==> final(self).assignment@ == old(self).assignment@,
            if plan.conflict_enabled && conflict_drawn && old(self).collisions@.len() > 0 {
                if plan.conflict_window == 0 {
                    !accepted
                } else {
                    resolved(
                        ctx,
                        old(self).evaluator.simple_active,
                        score,
                        accept,
                        old(self).collisions@,
                        plan.conflict_window as int,
                        old(self).assignment@,
                        final(self).assignment@,
                        accepted,
                    )
                }
            } else {
                neighbour_tried(
                    ctx,
                    old(self).evaluator.simple_active,
                    score,
                    accept,
                    swap_drawn,
                    old(self).assignment@,
                    final(self).assignment@,
                    accepted,
                )
            },
            ctx.permits(old(self).assignment@) ==> ctx.permits(final(self).assignment@),
    {
        if plan.conflict_enabled && conflict_drawn && self.collisions.len() > 0 {
            self.propose_resolution(ctx, plan, rng, score, accept)
        } else {
            self.propose_neighbour(ctx, swap_drawn, rng, score, accept)
        }
    }

    /// Remembers how a step went. An improvement makes the present assignment the best one. Says
    /// whether there was none for so long that the run is to be heated up; counting then starts over.
    pub fn record(&mut self, ctx: &OptContext, plan: &AnnealPlan, improved: bool) -> (reheat: bool)
        requires
            old(self).inv(ctx),
        ensures
            final(self).inv(ctx),
            final(self).best_assignment@ == best_after(
                old(self).best_assignment@,
                old(self).assignment@,
                improved,
            ),
            final(self).history@ == old(self).history@.with_step(old(self).assignment@, improved),
            reheat == (!improved && plan.reheats_after(old(self).steps_since_improve)),
            final(self).steps_since_improve == if improved || reheat {
                0
            } else {
                counted(old(self).steps_since_improve)
            },
            final(self).assignment == old(self).assignment,
            final(self).evaluator == old(self).evaluator,
            final(self).start_step == old(self).start_step,
            final(self).step == old(self).step,
            final(self).simple_activated == old(self).simple_activated,
            final(self).collisions == old(self).collisions,
            final(self).steps_since_refresh == old(self).steps_since_refresh,
            final(self).window_start_step == old(self).window_start_step,
            final(self).win_proposed == old(self).win_proposed,
            final(self).win_accepted == old(self).win_accepted,
    {
        let ghost before = self.history@;
        self.history = Ghost(before.with_step(self.assignment@, improved));
        proof {
            let after = self.history@;
            assert(after.bests.drop_last() =~= before.bests);
            assert forall|i: int| #![trigger after.nows[i]] 0 <= i < after.nows.len() implies after.bests[i
                + 1] == best_after(after.bests[i], after.nows[i], after.improved[i]) by {
                if i < before.nows.len() {
                    let x = before.nows[i];
                }
            }
        }
        if improved {
            self.best_assignment = copy_of(&self.assignment);
            self.steps_since_improve = 0;
        } else {
            self.steps_since_improve = self.steps_since_improve.saturating_add(1);
        }
        if self.steps_since_improve > plan.min_improve_steps {
            self.steps_since_improve = 0;
            true
        } else {
            false
        }
    }

    /// Builds everything anew.
    pub fn reconcile(&mut self, ctx: &OptContext)
        requires
            ctx.wf_full(),
            ctx.wf_simple(),
            old(self).inv(ctx),
        ensures
            final(self).inv(ctx),
            final(self).evaluator.built_anew(ctx, old(self).assignment@),
            final(self).assignment == old(self).assignment,
            final(self).win_proposed == old(self).win_proposed,
            final(self).win_accepted == old(self).win_accepted,
            final(self).only_moved(old(self)),
    {
        self.evaluator.reconcile(ctx, self.assignment.as_slice());
    }

    /// The steps since the last report and the moves tried and made in them; counting starts over.
    pub fn close_window(&mut self, ctx: &OptContext) -> (r: (usize, usize, usize))
        requires
            old(self).inv(ctx),
        ensures
            final(self).inv(ctx),
            r.0 == old(self).step - old(self).window_start_step,
            r.1 == old(self).win_proposed,
            r.2 == old(self).win_accepted,
            r.2 <= r.1,
            final(self).window_start_step == old(self).step,
            final(self).win_proposed == 0,
            final(self).win_accepted == 0,
            final(self).assignment == old(self).assignment,
            final(self).evaluator == old(self).evaluator,
            final(self).best_assignment == old(self).best_assignment,
            final(self).history == old(self).history,
            final(self).start_step == old(self).start_step,
            final(self).step == old(self).step,
            final(self).simple_activated == old(self).simple_activated,
            final(self).steps_since_improve == old(self).steps_since_improve,
            final(self).collisions == old(self).collisions,
            final(self).steps_since_refresh == old(self).steps_since_refresh,
    {
        let r = (self.step - self.window_start_step, self.win_proposed, self.win_accepted);
        self.window_start_step = self.step;
        self.win_proposed = 0;
        self.win_accepted = 0;
        r
    }

    /// Goes on to the next step.
    pub fn advance(&mut self, ctx: &OptContext, plan: &AnnealPlan)
        requires
            old(self).inv(ctx),
            old(self).step < plan.total_steps,
        ensures
            final(self).inv(ctx),
            final(self).step == old(self).step + 1,
            final(self).assignment == old(self).assignment,
            final(self).evaluator == old(self).evaluator,
            final(self).best_assignment == old(self).best_assignment,
            final(self).history == old(self).history,
            final(self).start_step == old(self).start_step,
            final(self).simple_activated == old(self).simple_activated,
            final(self).steps_since_improve == old(self).steps_since_improve,
            final(self).collisions == old(self).collisions,
            final(self).steps_since_refresh == old(self).steps_since_refresh,
            final(self).window_start_step == old(self).window_start_step,
            final(self).win_proposed == old(self).win_proposed,
            final(self).win_accepted == old(self).win_accepted,
    {
        self.step = self.step + 1;
    }
}

/// Whether a group is in one of the heaviest collisions of a list.
pub open spec fn in_heaviest(list: Seq<(usize, usize, u64)>, g: int) -> bool {
    exists|i: int|
        #![trigger list[i]]
        0 <= i < list.len() && i < PERTURB_PAIRS && (list[i].0 == g || list[i].1 == g)
}

/// Appends a number to a list, unless it is there.
fn note(list: &mut Vec<usize>, g: usize)
    requires
        old(list)@.no_duplicates(),
    ensures
        final(list)@.no_duplicates(),
        forall|x: usize| #[trigger] final(list)@.contains(x) <==> old(list)@.contains(x) || x == g,
{
    let ghost was = list@;
    let mut i: usize = 0;
    while i < list.len()
        invariant
            i <= list@.len(),
            list@ == was,
            was == old(list)@,
            was.no_duplicates(),
            forall|j: int| 0 <= j < i ==> #[trigger] list@[j] != g,
        decreases list@.len() - i,
    {
        if list[i] == g {
            assert(was[i as int] == g);
            return;
        }
        i = i + 1;
    }
    list.push(g);
    proof {
        assert forall|x: usize| #[trigger] list@.contains(x) <==> was.contains(x) || x == g by {
            if was.contains(x) {
                let j = was.index_of(x);
                assert(list@[j] == x);
            }
            if x == g {
                assert(list@[was.len() as int] == x);
            }
            if list@.contains(x) {
                let j = list@.index_of(x);
                if j < was.len() {
                    assert(was[j] == x);
                }
            }
        }
    }
}

/// Whether a list holds the groups of the heaviest collisions, each once.
pub open spec fn lists_heaviest(list: Seq<(usize, usize, u64)>, groups: Seq<usize>) -> bool {
    &&& groups.no_duplicates()
    &&& forall|x: usize| #[trigger] groups.contains(x) <==> in_heaviest(list, x as int)
}

/// The groups of the heaviest collisions of a list, each once.
pub fn heaviest_groups(list: &Vec<(usize, usize, u64)>) -> (r: Vec<usize>)
    ensures
        lists_heaviest(list@, r@),
{
    let mut r: Vec<usize> = Vec::new();
    let mut i: usize = 0;
    while i < list.len() && i < PERTURB_PAIRS
        invariant
            i <= list@.len(),
            i <= PERTURB_PAIRS,
            r@.no_duplicates(),
            forall|x: usize| #[trigger]
                r@.contains(x) <==> exists|j: int|
                    #![trigger list@[j]]
                    0 <= j < i && (list@[j].0 == x || list@[j].1 == x),
        decreases list@.len() - i,
    {
        let ghost was = r@;
        note(&mut r, list[i].0);
        let ghost mid = r@;
        note(&mut r, list[i].1);
        proof {
            assert forall|x: usize| #[trigger] r@.contains(x) <==> exists|j: int|
                #![trigger list@[j]]
                0 <= j < i + 1 && (list@[j].0 == x || list@[j].1 == x) by {
                let a = was.contains(x);
                let b = mid.contains(x);
                if list@[i as int].0 == x || list@[i as int].1 == x {
                    let y = list@[i as int];
                }
            }
        }
        i = i + 1;
    }
    proof {
        assert forall|x: usize| #[trigger] r@.contains(x) <==> in_heaviest(list@, x as int) by {
            if r@.contains(x) {
                let j = choose|j: int|
                    #![trigger list@[j]]
                    0 <= j < i && (list@[j].0 == x || list@[j].1 == x);
                let y = list@[j];
            }
            if in_heaviest(list@, x as int) {
                let j = choose|j: int|
                    #![trigger list@[j]]
                    0 <= j < list@.len() && j < PERTURB_PAIRS && (list@[j].0 == x || list@[j].1 == x);
                let y = list@[j];
            }
        }
    }
    r
}

/// Whether a group with a choice was to go to the key at a place among its keys.
pub open spec fn nudged_to<S, F: Fn(&Evaluator, &Vec<u8>) -> S, G: Fn(&S, &S) -> bool>(
    ctx: &OptContext,
    simple: bool,
    score: &F,
    accept: &G,
    a: Seq<u8>,
    b: Seq<u8>,
    g: int,
    pick: int,
    moved: bool,
) -> bool {
    if ctx.choices(g).len() > 1 {
        move_tried(ctx, simple, score, accept, a, b, g, ctx.choices(g)[pick], moved)
    } else {
        !moved && b == a
    }
}

/// Whether a group with a choice was to go to one of its keys.
pub open spec fn nudged<S, F: Fn(&Evaluator, &Vec<u8>) -> S, G: Fn(&S, &S) -> bool>(
    ctx: &OptContext,
    simple: bool,
    score: &F,
    accept: &G,
    a: Seq<u8>,
    b: Seq<u8>,
    g: int,
) -> bool {
    exists|pick: int, moved: bool|
        0 <= pick < ctx.choices(g).len() && #[trigger] nudged_to(
            ctx,
            simple,
            score,
            accept,
            a,
            b,
            g,
            pick,
            moved,
        )
}

/// Whether two groups were to swap their keys, unless they are one and the same.
pub open spec fn jostled_by<S, F: Fn(&Evaluator, &Vec<u8>) -> S, G: Fn(&S, &S) -> bool>(
    ctx: &OptContext,
    simple: bool,
    score: &F,
    accept: &G,
    a: Seq<u8>,
    b: Seq<u8>,
    r1: int,
    r2: int,
    moved: bool,
) -> bool {
    if r1 == r2 {
        !moved && b == a
    } else {
        swap_tried(ctx, simple, score, accept, a, b, r1, r2, moved)
    }
}

/// Whether two groups drawn at random were to swap their keys, unless one was drawn twice.
pub open spec fn jostled<S, F: Fn(&Evaluator, &Vec<u8>) -> S, G: Fn(&S, &S) -> bool>(
    ctx: &OptContext,
    simple: bool,
    score: &F,
    accept: &G,
    a: Seq<u8>,
    b: Seq<u8>,
) -> bool {
    exists|r1: int, r2: int, moved: bool|
        {
            &&& 0 <= r1 < ctx.num_groups()
            &&& 0 <= r2 < ctx.num_groups()
            &&& #[trigger] jostled_by(ctx, simple, score, accept, a, b, r1, r2, moved)
        }
}

/// Whether a list of assignments is the course of a shake. With collisions, the groups of the heaviest
/// ones are nudged, but no more than a number; without, that number of pairs are jostled.
pub open spec fn shaken<S, F: Fn(&Evaluator, &Vec<u8>) -> S, G: Fn(&S, &S) -> bool>(
    ctx: &OptContext,
    simple: bool,
    score: &F,
    accept: &G,
    list: Seq<(usize, usize, u64)>,
    groups: Seq<usize>,
    number: int,
    trail: Seq<Seq<u8>>,
) -> bool {
    if list.len() > 0 {
        &&& lists_heaviest(list, groups)
        &&& trail.len() == 1 + if groups.len() < number {
            groups.len() as int
        } else {
            number
        }
        &&& forall|i: int|
            #![trigger trail[i]]
            0 <= i < trail.len() - 1 ==> nudged(
                ctx,
                simple,
                score,
                accept,
                trail[i],
                trail[i + 1],
                groups[i] as int,
            )
    } else {
        &&& trail.len() == 1 + number
        &&& forall|i: int|
            #![trigger trail[i]]
            0 <= i < trail.len() - 1 ==> jostled(ctx, simple, score, accept, trail[i], trail[i + 1])
    }
}

/// Whether a shake leads from one assignment to another.
pub open spec fn was_shaken<S, F: Fn(&Evaluator, &Vec<u8>) -> S, G: Fn(&S, &S) -> bool>(
    ctx: &OptContext,
    simple: bool,
    score: &F,
    accept: &G,
    number: int,
    a: Seq<u8>,
    b: Seq<u8>,
) -> bool {
    exists|list: Seq<(usize, usize, u64)>, groups: Seq<usize>, trail: Seq<Seq<u8>>|
        {
            &&& lists_collisions(ctx, ctx.full_codes(a), false, list)
            &&& #[trigger] shaken(ctx, simple, score, accept, list, groups, number, trail)
            &&& trail[0] == a
            &&& trail.last() == b
        }
}

/// How a step ended.
#[derive(Clone, Copy, Debug)]
pub struct StepEnd {
    /// Whether the run is to be heated up.
    pub reheat: bool,
    /// Where a report is due: the steps since the last one, and the moves tried and made in them.
    pub window: Option<(usize, usize, usize)>,
}

impl Annealer {
    /// Tries a group that has a choice on the key at a place among its keys.
    pub fn nudge<S, F: Fn(&Evaluator, &Vec<u8>) -> S, G: Fn(&S, &S) -> bool>(
        &mut self,
        ctx: &OptContext,
        g: usize,
        pick: usize,
        score: &F,
        accept: &G,
    ) -> (moved: bool)
        requires
            ctx.wf_full(),
            ctx.wf_simple(),
            ctx.playable(),
            g < ctx.num_groups(),
            pick < ctx.choices(g as int).len(),
            old(self).inv(ctx),
            can_judge(score, accept),
        ensures
            final(self).inv(ctx),
            final(self).only_moved(old(self)),
            final(self).win_proposed == old(self).win_proposed,
            final(self).win_accepted == old(self).win_accepted,
            nudged_to(
                ctx,
                old(self).evaluator.simple_active,
                score,
                accept,
                old(self).assignment@,
                final(self).assignment@,
                g as int,
                pick as int,
                moved,
            ),
            ctx.permits(old(self).assignment@) ==> ctx.permits(final(self).assignment@),
    {
        if ctx.groups[g].allowed_keys.len() > 1 {
            let draw = StepDraw::Move { g, pick };
            take_step(ctx, &mut self.assignment, &mut self.evaluator, draw, score, accept)
        } else {
            false
        }
    }

    /// Tries two groups with their keys swapped, where both may be put on them, unless they are one
    /// and the same.
    pub fn jostle<S, F: Fn(&Evaluator, &Vec<u8>) -> S, G: Fn(&S, &S) -> bool>(
        &mut self,
        ctx: &OptContext,
        r1: usize,
        r2: usize,
        score: &F,
        accept: &G,
    ) -> (moved: bool)
        requires
            ctx.wf_full(),
            ctx.wf_simple(),
            r1 < ctx.num_groups(),
            r2 < ctx.num_groups(),
            old(self).inv(ctx),
            can_judge(score, accept),
        ensures
            final(self).inv(ctx),
            final(self).only_moved(old(self)),
            final(self).win_proposed == old(self).win_proposed,
            final(self).win_accepted == old(self).win_accepted,
            jostled_by(
                ctx,
                old(self).evaluator.simple_active,
                score,
                accept,
                old(self).assignment@,
                final(self).assignment@,
                r1 as int,
                r2 as int,
                moved,
            ),
            ctx.permits(old(self).assignment@) ==> ctx.permits(final(self).assignment@),
    {
        if r1 == r2 {
            return false;
        }
        swap_pair(ctx, &mut self.assignment, &mut self.evaluator, r1, r2, score, accept)
    }

    /// Shakes the run: with collisions, groups of the heaviest ones are tried on random keys;
    /// without, random groups are tried with their keys swapped.
    pub fn perturb<S, F: Fn(&Evaluator, &Vec<u8>) -> S, G: Fn(&S, &S) -> bool>(
        &mut self,
        ctx: &OptContext,
        n_perturb: usize,
        rng: &mut ThreadRng,
        score: &F,
        accept: &G,
    )
        requires
            ctx.wf_full(),
            ctx.wf_simple(),
            ctx.playable(),
            ctx.num_groups() > 0,
            old(self).inv(ctx),
            can_judge(score, accept),
        ensures
            final(self).inv(ctx),
            final(self).only_moved(old(self)),
            final(self).win_proposed == old(self).win_proposed,
            final(self).win_accepted == old(self).win_accepted,
            climbed(
                ctx,
                old(self).evaluator.simple_active,
                score,
                accept,
                old(self).assignment@,
                final(self).assignment@,
            ),
            was_shaken(
                ctx,
                old(self).evaluator.simple_active,
                score,
                accept,
                n_perturb as int,
                old(self).assignment@,
                final(self).assignment@,
            ),
            ctx.permits(old(self).assignment@) ==> ctx.permits(final(self).assignment@),
    {
        let ghost simple = self.evaluator.simple_active;
        let ghost start = self.assignment@;
        let list = find_collision_groups(ctx, self.assignment.as_slice(), false);
        let ghost mut trail: Seq<Seq<u8>> = seq![start];
        proof {
            climb_begins(ctx, simple, score, accept, start);
        }
        if list.len() > 0 {
            let groups = heaviest_groups(&list);
            let mut i: usize = 0;
            while i < groups.len() && i < n_perturb
                invariant
                    ctx.wf_full(),
                    ctx.wf_simple(),
                    ctx.playable(),
                    can_judge(score, accept),
                    i <= n_perturb,
                    start == old(self).assignment@,
                    self.inv(ctx),
                    self.evaluator.simple_active == simple,
                    self.only_moved(old(self)),
                    self.win_proposed == old(self).win_proposed,
                    self.win_accepted == old(self).win_accepted,
                    i <= groups@.len(),
                    climbed(ctx, simple, score, accept, start, self.assignment@),
                    lists_heaviest(list@, groups@),
                    trail.len() == i + 1,
                    trail[0] == start,
                    trail[i as int] == self.assignment@,
                    forall|j: int|
                        #![trigger trail[j]]
                        0 <= j < i ==> nudged(
                            ctx,
                            simple,
                            score,
                            accept,
                            trail[j],
                            trail[j + 1],
                            groups@[j] as int,
                        ),
                    forall|j: int|
                        0 <= j < list@.len() ==> (#[trigger] list@[j]).0 < list@[j].1 < ctx.num_groups(),
                    ctx.permits(start) ==> ctx.permits(self.assignment@),
                decreases groups@.len() - i,
            {
                let gi = groups[i];
                let ghost before = self.assignment@;
                proof {
                    assert(groups@.contains(gi));
                    let j = choose|j: int|
                        #![trigger list@[j]]
                        0 <= j < list@.len() && j < PERTURB_PAIRS && (list@[j].0 == gi || list@[j].1 == gi);
                    let x = list@[j];
                    assert(gi < ctx.num_groups());
                }
                assert(ctx.choices(gi as int).len() > 0);
                let pick = below(rng, ctx.groups[gi].allowed_keys.len());
                let moved = self.nudge(ctx, gi, pick, score, accept);
                proof {
                    if moved {
                        climb_goes_on(ctx, simple, score, accept, start, before, self.assignment@);
                    }
                    assert(nudged_to(
                        ctx,
                        simple,
                        score,
                        accept,
                        before,
                        self.assignment@,
                        gi as int,
                        pick as int,
                        moved,
                    ));
                }
                proof {
                    let was = trail;
                    trail = was.push(self.assignment@);
                    assert forall|j: int| #![trigger trail[j]] 0 <= j < i + 1 implies nudged(
                        ctx,
                        simple,
                        score,
                        accept,
                        trail[j],
                        trail[j + 1],
                        groups@[j] as int,
                    ) by {
                        if j < i {
                            let x = was[j];
                        }
                    }
                }
                i = i + 1;
            }
            assert(shaken(ctx, simple, score, accept, list@, groups@, n_perturb as int, trail));
        } else {
            let n = self.assignment.len();
            let mut i: usize = 0;
            while i < n_perturb
                invariant
                    ctx.wf_full(),
                    ctx.wf_simple(),
                    ctx.playable(),
                    can_judge(score, accept),
                    n == ctx.num_groups(),
                    n > 0,
                    i <= n_perturb,
                    start == old(self).assignment@,
                    self.inv(ctx),
                    self.evaluator.simple_active == simple,
                    self.only_moved(old(self)),
                    self.win_proposed == old(self).win_proposed,
                    self.win_accepted == old(self).win_accepted,
                    climbed(ctx, simple, score, accept, start, self.assignment@),
                    trail.len() == i + 1,
                    trail[0] == start,
                    trail[i as int] == self.assignment@,
                    forall|j: int|
                        #![trigger trail[j]]
                        0 <= j < i ==> jostled(ctx, simple, score, accept, trail[j], trail[j + 1]),
                    ctx.permits(start) ==> ctx.permits(self.assignment@),
                decreases n_perturb - i,
            {
                let ghost before = self.assignment@;
                let r1 = below(rng, n);
                let r2 = below(rng, n);
                let moved = self.jostle(ctx, r1, r2, score, accept);
                proof {
                    if moved {
                        climb_goes_on(ctx, simple, score, accept, start, before, self.assignment@);
                    }
                    assert(jostled_by(
                        ctx,
                        simple,
                        score,
                        accept,
                        before,
                        self.assignment@,
                        r1 as int,
                        r2 as int,
                        moved,
                    ));
                }
                proof {
                    let was = trail;
                    trail = was.push(self.assignment@);
                    assert forall|j: int| #![trigger trail[j]] 0 <= j < i + 1 implies jostled(
                        ctx,
                        simple,
                        score,
                        accept,
                        trail[j],
                        trail[j + 1],
                    ) by {
                        if j < i {
                            let x = was[j];
                        }
                    }
                }
                i = i + 1;
            }
            assert(shaken(ctx, simple, score, accept, list@, Seq::empty(), n_perturb as int, trail));
        }
    }
}

impl Annealer {
    /// Begins a step: turns simple codes on if it is time, and looks for collisions again if it is
    /// time. Says whether simple codes were turned on.
    pub fn begin_step(
        &mut self,
        ctx: &OptContext,
        plan: &AnnealPlan,
        reached: bool,
        hard_activate: bool,
    ) -> (r: bool)
        requires
            ctx.wf_full(),
            ctx.wf_simple(),
            old(self).inv(ctx),
        ensures
            final(self).inv(ctx),
            r == (has_simple(ctx) && !old(self).simple_activated && (hard_activate || reached)),
            final(self).simple_activated == (old(self).simple_activated || r),
            final(self).assignment == old(self).assignment,
            final(self).best_assignment == old(self).best_assignment,
            final(self).history == old(self).history,
            final(self).start_step == old(self).start_step,
            final(self).step == old(self).step,
            final(self).steps_since_improve == old(self).steps_since_improve,
            final(self).window_start_step == old(self).window_start_step,
            final(self).win_proposed == old(self).win_proposed,
            final(self).win_accepted == old(self).win_accepted,
            final(self).evaluator.rebuilds() == old(self).evaluator.rebuilds(),
            if plan.conflict_enabled && plan.refreshes_after(old(self).steps_since_refresh) {
                &&& final(self).steps_since_refresh == 0
                &&& lists_collisions(
                    ctx,
                    ctx.full_codes(old(self).assignment@),
                    plan.conflict_weight_by_freq,
                    final(self).collisions@,
                )
            } else {
                &&& final(self).steps_since_refresh == if plan.conflict_enabled {
                    counted(old(self).steps_since_refresh)
                } else {
                    old(self).steps_since_refresh as int
                }
                &&& final(self).collisions == old(self).collisions
            },
    {
        let activated = self.activate(ctx, reached, hard_activate);
        self.refresh_collisions(ctx, plan);
        activated
    }

    /// Ends a step: remembers how it went, shakes the run if it is cold and it is time, builds
    /// everything anew if it is time, and goes on to the next step.
    pub fn end_step<S, F: Fn(&Evaluator, &Vec<u8>) -> S, G: Fn(&S, &S) -> bool>(
        &mut self,
        ctx: &OptContext,
        plan: &AnnealPlan,
        improved: bool,
        cold: bool,
        n_perturb: usize,
        rng: &mut ThreadRng,
        score: &F,
        accept: &G,
    ) -> (r: StepEnd)
        requires
            ctx.wf_full(),
            ctx.wf_simple(),
            ctx.playable(),
            ctx.num_groups() > 0,
            plan.wf(),
            old(self).inv(ctx),
            old(self).step < plan.total_steps,
            can_judge(score, accept),
        ensures
            final(self).inv(ctx),
            final(self).step == old(self).step + 1,
            final(self).start_step == old(self).start_step,
            final(self).simple_activated == old(self).simple_activated,
            final(self).collisions == old(self).collisions,
            final(self).steps_since_refresh == old(self).steps_since_refresh,
            final(self).evaluator.rebuilds() == old(self).evaluator.rebuilds(),
            final(self).best_assignment@ == best_after(
                old(self).best_assignment@,
                old(self).assignment@,
                improved,
            ),
            final(self).history@ == old(self).history@.with_step(old(self).assignment@, improved),
            r.reheat == (!improved && plan.reheats_after(old(self).steps_since_improve)),
            final(self).steps_since_improve == if improved || r.reheat {
                0
            } else {
                counted(old(self).steps_since_improve)
            },
            if cold && plan.shakes_at(old(self).step as int) {
                was_shaken(
                    ctx,
                    old(self).evaluator.simple_active,
                    score,
                    accept,
                    n_perturb as int,
                    old(self).assignment@,
                    final(self).assignment@,
                )
            } else {
                final(self).assignment@ == old(self).assignment@
            },
            old(self).simple_activated && plan.reconciles_at(old(self).step as int)
                ==> final(self).evaluator.built_anew(ctx, final(self).assignment@),
            if plan.reports_at(old(self).step as int) {
                &&& r.window == Some(
                    (
                        (old(self).step - old(self).window_start_step) as usize,
                        old(self).win_proposed,
                        old(self).win_accepted,
                    ),
                )
                &&& final(self).window_start_step == old(self).step
                &&& final(self).win_proposed == 0
                &&& final(self).win_accepted == 0
            } else {
                &&& r.window is None
                &&& final(self).window_start_step == old(self).window_start_step
                &&& final(self).win_proposed == old(self).win_proposed
                &&& final(self).win_accepted == old(self).win_accepted
            },
            ctx.permits(old(self).assignment@) ==> ctx.permits(final(self).assignment@),
    {
        let reheat = self.record(ctx, plan, improved);
        let due = self.due_after(plan);
        if due.perturb && cold {
            self.perturb(ctx, n_perturb, rng, score, accept);
        }
        let window = if due.report {
            Some(self.close_window(ctx))
        } else {
            None
        };
        if due.reconcile {
            self.reconcile(ctx);
        }
        self.advance(ctx, plan);
        StepEnd { reheat, window }
    }
}

/// For how many steps the best assignment is improved at the end.
pub open spec fn final_steps(n: int) -> int {
    let wanted = n * 50;
    if wanted < 5000 {
        5000
    } else if wanted > 100_000 {
        100_000
    } else {
        wanted
    }
}

/// For how many steps the best assignment is improved at the end: fifty for each group, no less than
/// 5000 and no more than 100000.
pub fn final_warmup_steps(n: usize) -> (r: usize)
    ensures
        r == final_steps(n as int),
{
    if n > 2000 {
        100_000
    } else if n * 50 < 5000 {
        5000
    } else {
        n * 50
    }
}

/// Whether an assignment is another one, or was held against it with its score and found lower.
pub open spec fn kept_lower<S, F: Fn(&Evaluator, &Vec<u8>) -> S, H: Fn(&S, &S) -> bool>(
    ctx: &OptContext,
    simple: bool,
    score: &F,
    lower: &H,
    was: (Seq<u8>, S),
    tried: Seq<u8>,
    now: (Seq<u8>, S),
) -> bool {
    exists|t: S|
        {
            &&& #[trigger] scored(ctx, simple, score, tried, t)
            &&& {
                ||| call_ensures(lower, (&was.1, &t), true) && now == (tried, t)
                ||| call_ensures(lower, (&was.1, &t), false) && now == was
            }
        }
}

/// Whether a descent from an assignment, to one that no move of a single group betters, was held
/// against it with its score.
pub open spec fn descent_held<
    S,
    F: Fn(&Evaluator, &Vec<u8>) -> S,
    H: Fn(&S, &S) -> bool,
    B: Fn(&S, &S) -> bool,
>(
    ctx: &OptContext,
    score: &F,
    lower: &H,
    better: &B,
    mid: (Seq<u8>, S),
    now: (Seq<u8>, S),
) -> bool {
    exists|b: Seq<u8>|
        {
            &&& descends(ctx, has_simple(ctx), score, better, mid.0, b)
            &&& forall|g: int|
                0 <= g < ctx.num_groups() ==> #[trigger] settled_at(
                    ctx,
                    has_simple(ctx),
                    score,
                    better,
                    b,
                    g,
                )
            &&& #[trigger] kept_lower(ctx, has_simple(ctx), score, lower, mid, b, now)
        }
}

/// Whether an assignment with its score is what is left of another one when a climb from it and, for
/// few groups, a descent were held against it.
pub open spec fn refined<
    S,
    F: Fn(&Evaluator, &Vec<u8>) -> S,
    G: Fn(&S, &S) -> bool,
    H: Fn(&S, &S) -> bool,
    B: Fn(&S, &S) -> bool,
>(
    ctx: &OptContext,
    score: &F,
    accept: &G,
    lower: &H,
    better: &B,
    was: (Seq<u8>, S),
    now: (Seq<u8>, S),
) -> bool {
    exists|a: Seq<u8>, mid: (Seq<u8>, S)|
        {
            &&& climb_ends(
                ctx,
                has_simple(ctx),
                score,
                accept,
                was.0,
                final_steps(ctx.num_groups() as int),
                a,
            )
            &&& #[trigger] kept_lower(ctx, has_simple(ctx), score, lower, was, a, mid)
            &&& if ctx.num_groups() <= POLISH_LIMIT {
                descent_held(ctx, score, lower, better, mid, now)
            } else {
                now == mid
            }
        }
}

/// Improves the best assignment of a run once more: a climb, and for few groups a descent, each
/// taken where it scores lower.
pub fn refine<
    S,
    F: Fn(&Evaluator, &Vec<u8>) -> S,
    G: Fn(&S, &S) -> bool,
    H: Fn(&S, &S) -> bool,
    B: Fn(&S, &S) -> bool,
>(
    ctx: &OptContext,
    best: Vec<u8>,
    best_score: S,
    rng: &mut ThreadRng,
    score: &F,
    accept: &G,
    lower: &H,
    better: &B,
) -> (r: (Vec<u8>, S))
    requires
        ctx.wf_full(),
        ctx.wf_simple(),
        ctx.playable(),
        ctx.assigns(best@),
        can_judge(score, accept),
        can_judge(score, lower),
        can_judge(score, better),
        well_founded(ctx, has_simple(ctx), score, better),
    ensures
        ctx.assigns(r.0@),
        ctx.permits(best@) ==> ctx.permits(r.0@),
        refined(ctx, score, accept, lower, better, (best@, best_score), (r.0@, r.1)),
{
    let n = ctx.groups.len();
    let ghost was = (best@, best_score);
    let copy = copy_of(&best);
    let (tried, ev) = enhanced_hill_climb(
        ctx,
        copy,
        rng,
        final_warmup_steps(n),
        false,
        score,
        accept,
    );
    let s = score(&ev, &tried);
    proof {
        assert(call_ensures(score, (&ev, &tried), s));
        assert(scored(ctx, has_simple(ctx), score, tried@, s));
    }
    let wins = lower(&best_score, &s);
    let ghost a = tried@;
    let (best, best_score) = if wins {
        (tried, s)
    } else {
        (best, best_score)
    };
    let ghost mid = (best@, best_score);
    assert(kept_lower(ctx, has_simple(ctx), score, lower, was, a, mid));
    if n <= POLISH_LIMIT {
        let copy = copy_of(&best);
        let (tried, ev) = coordinate_descent(ctx, copy, false, score, better);
        let s = score(&ev, &tried);
        proof {
            assert(call_ensures(score, (&ev, &tried), s));
            assert(scored(ctx, has_simple(ctx), score, tried@, s));
        }
        let wins = lower(&best_score, &s);
        let ghost b = tried@;
        let r = if wins {
            (tried, s)
        } else {
            (best, best_score)
        };
        assert(kept_lower(ctx, has_simple(ctx), score, lower, mid, b, (r.0@, r.1)));
        r
    } else {
        (best, best_score)
    }
}

/// The best assignment never ranks higher from step to step, if only what ranks lower counts as an
/// improvement.
proof fn best_never_worse(history: RunHistory, rank: spec_fn(Seq<u8>) -> int, i: int)
    requires
        history.leads_to(history.bests.last()),
        history.only_lower(rank),
        0 <= i < history.bests.len(),
    ensures
        rank(history.bests[i]) <= rank(history.bests[0]),
    decreases i,
{
    if i > 0 {
        best_never_worse(history, rank, i - 1);
        let x = history.nows[i - 1];
    }
}

/// A run never ends above where it began. Whatever its steps were, if only what ranks lower than the
/// best assignment was taken for an improvement, and a score stands for the rank of its assignment,
/// then what is left of the best assignment when it was refined ranks no higher than the one that the
/// run began with. That is the start of a new run, and the best assignment so far of one that is
/// taken up again. The best assignment is permitted if the run began with permitted ones.
pub proof fn run_never_worse<
    S,
    F: Fn(&Evaluator, &Vec<u8>) -> S,
    G: Fn(&S, &S) -> bool,
    H: Fn(&S, &S) -> bool,
    B: Fn(&S, &S) -> bool,
>(
    ctx: &OptContext,
    score: &F,
    accept: &G,
    lower: &H,
    better: &B,
    run: &Annealer,
    best_score: S,
    r: (Seq<u8>, S),
    rank: spec_fn(Seq<u8>) -> int,
    value: spec_fn(S) -> int,
)
    requires
        run.inv(ctx),
        run.history@.only_lower(rank),
        refined(ctx, score, accept, lower, better, (run.best_assignment@, best_score), r),
        value(best_score) == rank(run.best_assignment@),
        forall|a: Seq<u8>, s: S| #[trigger]
            scored(ctx, has_simple(ctx), score, a, s) ==> value(s) == rank(a),
        forall|s: S, t: S| #[trigger] call_ensures(lower, (&s, &t), true) ==> value(t) < value(s),
    ensures
        rank(run.best_assignment@) <= rank(run.history@.bests[0]),
        rank(r.0) <= rank(run.best_assignment@),
        value(r.1) == rank(r.0),
        run.history@.began_permitted(ctx) ==> ctx.permits(run.best_assignment@),
{
    best_never_worse(run.history@, rank, run.history@.nows.len() as int);
    let was = (run.best_assignment@, best_score);
    let (a, mid) = choose|a: Seq<u8>, mid: (Seq<u8>, S)|
        {
            &&& climb_ends(
                ctx,
                has_simple(ctx),
                score,
                accept,
                was.0,
                final_steps(ctx.num_groups() as int),
                a,
            )
            &&& #[trigger] kept_lower(ctx, has_simple(ctx), score, lower, was, a, mid)
            &&& if ctx.num_groups() <= POLISH_LIMIT {
                descent_held(ctx, score, lower, better, mid, r)
            } else {
                r == mid
            }
        };
    assert(value(mid.1) == rank(mid.0) && rank(mid.0) <= rank(was.0));
    if ctx.num_groups() <= POLISH_LIMIT {
        let b = choose|b: Seq<u8>|
            {
                &&& descends(ctx, has_simple(ctx), score, better, mid.0, b)
                &&& forall|g: int|
                    0 <= g < ctx.num_groups() ==> #[trigger] settled_at(
                        ctx,
                        has_simple(ctx),
                        score,
                        better,
                        b,
                        g,
                    )
                &&& #[trigger] kept_lower(ctx, has_simple(ctx), score, lower, mid, b, r)
            };
        assert(kept_lower(ctx, has_simple(ctx), score, lower, mid, b, r));
    }
}

} // verus!
