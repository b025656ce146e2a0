//! The simple codes of an assignment: who has one, and the collisions that remain once those who
//! have one are left out. Both are brought up to date move by move, and a move can be taken back.

use rustc_hash::FxHashMap;
use vstd::prelude::*;

use crate::agreement::same_decisions;
use crate::bucket_store::{BucketStore, FullBucket};
use crate::codes::{encode_injective, part_keys_are_keys};
use crate::collisions::{counts, excess, excess_by_code, hidden_by_code, hidden_freq, total_excess, total_hidden};
use crate::context::OptContext;
use crate::full_codes::is_best;
use crate::incremental::{
    belongs, changes_named, do_incremental_selection, in_scope, in_shape, synced, undisturbed,
};
use crate::laws::empty_move_changes_nothing;
use crate::protection::{
    count_at, guarded, guards_count, guards_recode, protect_right, protected, recompute_protect_count,
};
use crate::rebuild::rebuild_selection;
use crate::selection::{SelView, Selection};
use crate::simple_collisions::{
    buckets_fit, refresh_collisions, rows_match, share_frame, share_of_nobody, Shares,
};
use crate::simple_select::{linked, settled, Env, Terms};
use crate::sums::sum_zero;
use crate::types::SimpleAssignMode;
use crate::undo::{
    found, fx_found, fx_put, unwind, unwind_entries, unwound, unwound_entries, unwound_entries_step,
    unwound_step,
};
use crate::visits::{visit_limit, visit_limit_nonnegative};

verus! {

/// Who is shown first in the buckets of the full codes.
pub open spec fn firsts(ctx: &OptContext, codes: Seq<u32>) -> Seq<bool> {
    Seq::new(ctx.n(), |ci: int| is_best(ctx, codes, ci))
}

/// What a selection is made by under an assignment.
pub open spec fn terms_for(ctx: &OptContext, assignment: Seq<u8>) -> Terms {
    Terms {
        assignment,
        first: firsts(ctx, ctx.full_codes(assignment)),
        blocked: Set::new(|c: u32| protected(ctx, ctx.full_codes(assignment), c)),
    }
}

/// What an environment made of the parts that belong to an assignment goes by.
proof fn env_terms(env: &Env)
    requires
        env.wf(),
        buckets_fit(env.ctx, env.full_buckets, env.ctx.full_codes(env.assignment@)),
        env.first@ == firsts(env.ctx, env.ctx.full_codes(env.assignment@)),
        protect_right(env.ctx, env.ctx.full_codes(env.assignment@), env.protect@),
    ensures
        env.terms() == terms_for(env.ctx, env.assignment@),
{
    let ctx = env.ctx;
    let codes = ctx.full_codes(env.assignment@);
    assert forall|c: u32| env.blocked(c) == protected(ctx, codes, c) by {
        if ctx.simple_protect_top_n == 0 {
            if env.full_buckets@.contains_key(c) {
                let x = env.full_buckets@[c].members@[0];
                assert(codes[x as int] == c);
                assert(guarded(ctx, x as int));
            }
            if protected(ctx, codes, c) {
                let ci = choose|ci: int|
                    0 <= ci < ctx.n() && #[trigger] codes[ci] == c && guarded(ctx, ci);
                assert(env.full_buckets@.contains_key(codes[ci]));
            }
        } else {
            guards_count(ctx, codes, c);
            let x = count_at(env.protect@, c);
        }
    }
    assert(env.terms().blocked =~= terms_for(ctx, env.assignment@).blocked);
}

/// Whether lists name all that an assignment changes for simple codes: the candidates with another
/// code, those whose place in the full code buckets counts and has changed, and the codes that
/// have become protected or free.
pub open spec fn covers(
    ctx: &OptContext,
    output_scope: bool,
    before: Seq<u8>,
    after: Seq<u8>,
    affected: Seq<usize>,
    seeds: Seq<usize>,
    dirty: Seq<u32>,
) -> bool {
    &&& candidates_covered(ctx, output_scope, before, after, affected, seeds)
    &&& forall|c: u32|
        #![trigger dirty.contains(c)]
        protected(ctx, ctx.full_codes(before), c) != protected(ctx, ctx.full_codes(after), c)
            ==> dirty.contains(c)
}

/// Whether lists name the candidates that an assignment changes.
pub open spec fn candidates_covered(
    ctx: &OptContext,
    output_scope: bool,
    before: Seq<u8>,
    after: Seq<u8>,
    affected: Seq<usize>,
    seeds: Seq<usize>,
) -> bool {
    &&& forall|ci: int, li: int|
        #![trigger ctx.eligible_code(after, ci, li)]
        0 <= ci < ctx.n() && 0 <= li < ctx.n_levels() && in_scope(ctx, output_scope, ci)
            && !affected.contains(ci as usize) ==> ctx.eligible_code(before, ci, li)
            == ctx.eligible_code(after, ci, li)
    &&& ctx.simple_assign_mode == SimpleAssignMode::Efficiency ==> forall|ci: int|
        #![trigger is_best(ctx, ctx.full_codes(after), ci)]
        0 <= ci < ctx.n() && in_scope(ctx, output_scope, ci) && !seeds.contains(ci as usize)
            ==> is_best(ctx, ctx.full_codes(before), ci) == is_best(ctx, ctx.full_codes(after), ci)
}

/// A selection that belonged to an assignment differs from one of the next by what the lists name.
proof fn named_from_covers(
    env: &Env,
    output_scope: bool,
    before: Seq<u8>,
    view: SelView,
    affected: Seq<usize>,
    seeds: Seq<usize>,
    dirty: Seq<u32>,
)
    requires
        env.wf(),
        env.terms() == terms_for(env.ctx, env.assignment@),
        env.ctx.assigns(before),
        belongs(env.ctx, terms_for(env.ctx, before), output_scope, view),
        covers(env.ctx, output_scope, before, env.assignment@, affected, seeds, dirty),
    ensures
        changes_named(env, affected, seeds, dirty, view.levels),
{
    let ctx = env.ctx;
    let after = env.assignment@;
    let levels = view.levels;
    let t0 = terms_for(ctx, before);
    let t1 = env.terms();
    assert forall|li: int, ci: int|
        #![trigger levels[li].codes[ci]]
        0 <= li < ctx.n_levels() && 0 <= ci < ctx.n() && levels[li].codes[ci] is Some
            && !affected.contains(ci as usize) implies levels[li].codes[ci] == ctx.eligible_code(
        after,
        ci,
        li,
    ) by {
        let x = ctx.eligible_code(after, ci, li);
    }
    assert forall|li: int, c: u32|
        #![trigger levels[li].members.contains_key(c)]
        0 <= li < ctx.n_levels() && levels[li].members.contains_key(c) && !dirty.contains(c)
            && undisturbed(env, seeds, levels[li], li, c) implies settled(env, li, levels[li], c) by {
        let level = levels[li];
        let m = level.members[c];
        assert(linked(ctx, li, level));
        assert(t0.settled(ctx, li, level, c));
        assert(t0.blocked.contains(c) == t1.blocked.contains(c));
        assert(t0.quota(ctx, li, c) == t1.quota(ctx, li, c));
        assert forall|i: int| #![trigger m[i]] 0 <= i < m.len() implies t0.rank_key(
            ctx,
            li,
            m[i] as int,
        ) == t1.rank_key(ctx, li, m[i] as int) && forall|r: int|
            t0.keys_at(ctx, li, m[i] as int, c, r) == t1.keys_at(ctx, li, m[i] as int, c, r) by {
            let ci = level.members[c][i] as int;
            assert(level.codes[ci] == Some(c));
            let y = levels[li].codes[ci];
            assert(in_scope(ctx, output_scope, ci));
            if ctx.simple_assign_mode == SimpleAssignMode::Efficiency {
                let z = is_best(ctx, ctx.full_codes(after), ci);
                assert(t0.first[ci] == t1.first[ci]);
            }
            assert(ctx.eligible_code(before, ci, li) == Some(c));
            assert(ctx.eligible_code(after, ci, li) == Some(c));
            same_code_same_keys(ctx, before, after, ci, li);
        }
        assert forall|i: int, j: int|
            #![trigger m[i], m[j]]
            0 <= i < j < m.len() implies t1.rank_key(ctx, li, m[i] as int).before(
            t1.rank_key(ctx, li, m[j] as int),
        ) by {}
        assert forall|i: int| #![trigger m[i]] 0 <= i < m.len() implies {
            &&& level.selected[m[i] as int] == (i < t1.quota(ctx, li, c))
            &&& i < t1.quota(ctx, li, c) ==> level.keys[m[i] as int] == t1.keys_at(
                ctx,
                li,
                m[i] as int,
                c,
                i,
            )
        } by {
            assert(t0.keys_at(ctx, li, m[i] as int, c, i) == t1.keys_at(ctx, li, m[i] as int, c, i));
        }
    }
}

/// Two assignments that give a simple code the same number give it the same keys.
pub proof fn same_code_same_keys(ctx: &OptContext, a: Seq<u8>, b: Seq<u8>, ci: int, li: int)
    requires
        ctx.wf_full(),
        ctx.wf_levels(),
        ctx.assigns(a),
        ctx.assigns(b),
        0 <= ci < ctx.n(),
        0 <= li < ctx.n_levels(),
        ctx.eligible_code(a, ci, li) is Some,
        ctx.eligible_code(a, ci, li) == ctx.eligible_code(b, ci, li),
    ensures
        ctx.simple_keys(a, ci, li) == ctx.simple_keys(b, ci, li),
{
    let parts = ctx.simple_parts(ci, li)->0;
    let ka = ctx.simple_keys(a, ci, li)->0;
    let kb = ctx.simple_keys(b, ci, li)->0;
    ctx.simple_code_bound(a, ci, li);
    ctx.simple_code_bound(b, ci, li);
    ctx.simple_parts_ok(ci, li);
    part_keys_are_keys(parts, a);
    part_keys_are_keys(parts, b);
    encode_injective(ka, kb);
}

/// Where nothing is named as changed, a selection belongs where it did.
proof fn nothing_named(env: &Env, output_scope: bool, view: SelView)
    requires
        in_shape(env.ctx, output_scope, view),
        changes_named(
            env,
            Seq::<usize>::empty(),
            Seq::<usize>::empty(),
            Seq::<u32>::empty(),
            view.levels,
        ),
    ensures
        synced(env, output_scope, view),
{
    let levels = view.levels;
    assert forall|li: int, c: u32|
        #![trigger levels[li].members.contains_key(c)]
        0 <= li < env.ctx.n_levels() && levels[li].members.contains_key(c) implies settled(
        env,
        li,
        levels[li],
        c,
    ) by {
        assert(linked(env.ctx, li, levels[li]));
        assert(undisturbed(env, Seq::<usize>::empty(), levels[li], li, c)) by {
            assert forall|j: int| #![trigger levels[li].members[c][j]] 0 <= j < levels[li].members[c].len() implies {
                let ci = levels[li].members[c][j];
                &&& !Seq::<usize>::empty().contains(ci as usize)
                &&& env.ctx.eligible_code(env.assignment@, ci as int, li) == Some(c)
            } by {
                let ci = levels[li].members[c][j];
                let x = levels[li].codes[ci as int];
            }
        }
    }
}

/// What takes back the last move.
pub struct SimpleUndo {
    /// Whether the selection was gone through.
    pub has_selection: bool,
    /// The full codes overwritten.
    pub codes: Vec<(usize, u32)>,
    /// The counts of protected characters overwritten.
    pub protect: Vec<(u32, Option<u32>)>,
    /// The shares in the collisions overwritten.
    pub shares: Vec<(u32, Option<(usize, u64)>)>,
    pub collision_count: usize,
    pub collision_freq: u64,
}

/// What a [`SimpleEvaluator`] holds.
pub struct SimpleView {
    /// The assignment.
    pub at: Seq<u8>,
    pub sel: SelView,
    /// The full code of each character.
    pub codes: Seq<u32>,
    pub protect: Map<u32, u32>,
    pub shares: Map<u32, (usize, u64)>,
    pub collision_count: usize,
    pub collision_freq: u64,
}

/// The simple codes of an assignment.
pub struct SimpleEvaluator {
    pub sel: Selection,
    /// How many characters without a simple code share a full code with a better one.
    pub simple_collision_count: usize,
    /// How frequent those characters are.
    pub simple_collision_freq: u64,
    /// What each full code bucket adds to the collisions.
    pub bucket_shares: Shares,
    /// The full code of each character.
    pub last_full_codes: Vec<u32>,
    /// How many protected characters have each full code, where only some are protected.
    pub protect_count: FxHashMap<u32, u32>,
    /// Whether all candidates for the output take part, or those of the search alone.
    pub output_scope: bool,
    pub undo: SimpleUndo,
    /// How often everything was built anew.
    pub full_rebuild_calls: u64,
    /// How many candidates the last move looked at, those met more than once counted each time.
    pub stage2_visits: usize,
    /// The assignment.
    pub at: Ghost<Seq<u8>>,
    /// What the last move started from.
    pub base: Ghost<SimpleView>,
}

/// Whether all is as it has to be under the assignment.
pub open spec fn in_order(ctx: &OptContext, output_scope: bool, v: SimpleView) -> bool {
    &&& ctx.assigns(v.at)
    &&& belongs(ctx, terms_for(ctx, v.at), output_scope, v.sel)
    &&& v.codes == ctx.full_codes(v.at)
    &&& protect_right(ctx, v.codes, v.protect)
    &&& rows_match(
        v.shares,
        excess_by_code(ctx, v.codes, v.sel.assigned),
        hidden_by_code(ctx, v.codes, v.sel.assigned),
    )
    &&& v.collision_count == total_excess(ctx, v.codes, v.sel.assigned)
    &&& v.collision_freq == total_hidden(ctx, v.codes, v.sel.assigned)
}

impl View for SimpleEvaluator {
    type V = SimpleView;

    open spec fn view(&self) -> SimpleView {
        SimpleView {
            at: self.at@,
            sel: self.sel@,
            codes: self.last_full_codes@,
            protect: self.protect_count@,
            shares: self.bucket_shares@,
            collision_count: self.simple_collision_count,
            collision_freq: self.simple_collision_freq,
        }
    }
}

/// Whether a change of full codes leaves alone who is protected: no protected character has another
/// code, or, where all are protected, each that has another code left a code that is still used for
/// one that somebody kept.
pub open spec fn protection_quiet(ctx: &OptContext, codes: Seq<u32>, codes2: Seq<u32>) -> bool {
    forall|ci: int|
        #![trigger codes[ci]]
        0 <= ci < ctx.n() && codes[ci] != codes2[ci] ==> if ctx.simple_protect_top_n > 0 {
            !ctx.simple_is_topn@[ci]
        } else {
            codes2.contains(codes[ci]) && kept_by_some(ctx, codes, codes2, codes2[ci])
        }
}

/// Whether somebody has a code before and after.
pub open spec fn kept_by_some(ctx: &OptContext, codes: Seq<u32>, codes2: Seq<u32>, c: u32) -> bool {
    exists|cj: int| #![trigger codes[cj]] 0 <= cj < ctx.n() && codes[cj] == c && codes2[cj] == c
}

/// Whether one of the members has a code.
fn one_has(members: &Vec<u32>, codes: &Vec<u32>, code: u32) -> (r: bool)
    requires
        forall|i: int| 0 <= i < members@.len() ==> (#[trigger] members@[i]) < codes@.len(),
    ensures
        r <==> exists|i: int| 0 <= i < members@.len() && codes@[(#[trigger] members@[i]) as int] == code,
{
    let mut i: usize = 0;
    while i < members.len()
        invariant
            i <= members@.len(),
            forall|j: int| 0 <= j < members@.len() ==> (#[trigger] members@[j]) < codes@.len(),
            forall|j: int| 0 <= j < i ==> codes@[(#[trigger] members@[j]) as int] != code,
        decreases members@.len() - i,
    {
        if codes[members[i] as usize] == code {
            return true;
        }
        i = i + 1;
    }
    false
}

/// Follows the full codes of an assignment: updates the code of every character listed and the
/// counts of protected characters. Returns the codes whose buckets have changed, and those that have
/// become protected or free.
#[verifier::rlimit(40)]
fn track_codes(
    ctx: &OptContext,
    assignment: &[u8],
    full_affected: &Vec<usize>,
    buckets: &BucketStore<FullBucket>,
    codes: &mut Vec<u32>,
    protect: &mut FxHashMap<u32, u32>,
    codes_log: &mut Vec<(usize, u32)>,
    protect_log: &mut Vec<(u32, Option<u32>)>,
) -> (r: (Vec<u32>, Vec<u32>))
    requires
        ctx.wf_full(),
        ctx.wf_levels(),
        ctx.assigns(assignment@),
        forall|i: int| 0 <= i < full_affected@.len() ==> (#[trigger] full_affected@[i]) < ctx.n(),
        old(codes)@.len() == ctx.n(),
        forall|ci: int| 0 <= ci < ctx.n() ==> (#[trigger] old(codes)@[ci]) < ctx.code_space,
        protect_right(ctx, old(codes)@, old(protect)@),
        buckets_fit(ctx, buckets, ctx.full_codes(assignment@)),
        old(codes_log)@.len() == 0,
        old(protect_log)@.len() == 0,
        forall|ci: int|
            #![trigger old(codes)@[ci]]
            0 <= ci < ctx.n() && old(codes)@[ci] != ctx.full_code(assignment@, ci)
                ==> full_affected@.contains(ci as usize),
    ensures
        final(codes)@ == ctx.full_codes(assignment@),
        protect_right(ctx, final(codes)@, final(protect)@),
        unwound_entries(final(codes_log)@, final(codes)@) == old(codes)@,
        unwound(final(protect_log)@, final(protect)@) == old(protect)@,
        forall|i: int|
            0 <= i < final(codes_log)@.len() ==> (#[trigger] final(codes_log)@[i]).0 < ctx.n(),
        forall|i: int| 0 <= i < r.0@.len() ==> (#[trigger] r.0@[i]) < ctx.code_space,
        forall|ci: int|
            #![trigger old(codes)@[ci]]
            0 <= ci < ctx.n() && old(codes)@[ci] != final(codes)@[ci] ==> r.0@.contains(
                old(codes)@[ci],
            ) && r.0@.contains(final(codes)@[ci]),
        forall|c: u32|
            #![trigger r.1@.contains(c)]
            protected(ctx, old(codes)@, c) != protected(ctx, final(codes)@, c) ==> r.1@.contains(c),
        protection_quiet(ctx, old(codes)@, final(codes)@) ==> r.1@.len() == 0,
{
    let ghost codes0 = codes@;
    let ghost target = ctx.full_codes(assignment@);
    let mut list: Vec<u32> = Vec::new();
    let mut dirty: Vec<u32> = Vec::new();
    let mut k: usize = 0;
    proof {
        assert(full_affected@.take(0) =~= Seq::<usize>::empty());
    }
    while k < full_affected.len()
        invariant
            k <= full_affected@.len(),
            protection_quiet(ctx, codes0, target) ==> dirty@.len() == 0,
            ctx.wf_full(),
            ctx.wf_levels(),
            ctx.assigns(assignment@),
            forall|i: int|
                0 <= i < full_affected@.len() ==> (#[trigger] full_affected@[i]) < ctx.n(),
            target == ctx.full_codes(assignment@),
            buckets_fit(ctx, buckets, target),
            codes0 == old(codes)@,
            codes0.len() == ctx.n(),
            codes@.len() == ctx.n(),
            forall|ci: int| 0 <= ci < ctx.n() ==> (#[trigger] codes0[ci]) < ctx.code_space,
            forall|ci: int|
                #![trigger codes@[ci]]
                0 <= ci < ctx.n() ==> codes@[ci] == if full_affected@.take(k as int).contains(
                    ci as usize,
                ) {
                    target[ci]
                } else {
                    codes0[ci]
                },
            protect_right(ctx, codes@, protect@),
            unwound_entries(codes_log@, codes@) == codes0,
            unwound(protect_log@, protect@) == old(protect)@,
            forall|i: int| 0 <= i < codes_log@.len() ==> (#[trigger] codes_log@[i]).0 < ctx.n(),
            forall|i: int| 0 <= i < list@.len() ==> (#[trigger] list@[i]) < ctx.code_space,
            forall|ci: int|
                #![trigger codes0[ci]]
                0 <= ci < ctx.n() && codes0[ci] != codes@[ci] ==> list@.contains(codes0[ci])
                    && list@.contains(codes@[ci]),
            ctx.simple_protect_top_n > 0 ==> forall|c: u32|
                #![trigger dirty@.contains(c)]
                protected(ctx, codes0, c) != protected(ctx, codes@, c) ==> dirty@.contains(c),
            ctx.simple_protect_top_n == 0 ==> forall|ci: int|
                #![trigger codes0[ci]]
                0 <= ci < ctx.n() && codes0[ci] != codes@[ci] ==> (dirty@.contains(codes@[ci])
                    || codes0.contains(codes@[ci])) && (!buckets@.contains_key(codes0[ci]) ==> dirty@.contains(codes0[ci])),
        decreases full_affected@.len() - k,
    {
        let ci = full_affected[k];
        let ghost codes1 = codes@;
        let ghost list1 = list@;
        let ghost dirty1 = dirty@;
        let ghost front = full_affected@.take(k as int);
        let ghost front2 = full_affected@.take(k + 1);
        proof {
            assert(full_affected@[k as int] < ctx.n());
            assert forall|cj: int| 0 <= cj < ctx.n() implies (#[trigger] front2.contains(cj as usize)
                <==> front.contains(cj as usize) || cj == ci) by {
                if front2.contains(cj as usize) {
                    let i = front2.index_of(cj as usize);
                    assert(front2[i] == full_affected@[i]);
                    if i < k {
                        assert(front[i] == cj as usize);
                    }
                }
                if front.contains(cj as usize) {
                    let i = front.index_of(cj as usize);
                    assert(front2[i] == cj as usize);
                }
                if cj == ci {
                    assert(front2[k as int] == cj as usize);
                }
            }
        }
        let new_code = ctx.calc_code_only(ci, assignment);
        let old_code = codes[ci];
        proof {
            assert(target[ci as int] == new_code);
            assert(target[ci as int] < ctx.code_space);
            let x = codes0[ci as int];
        }
        if new_code != old_code {
            list.push(old_code);
            list.push(new_code);
            proof {
                unwound_entries_step(codes_log@, codes@, ci, new_code);
                // Its code was not touched before: it is what it was at the start.
                assert(old_code == codes0[ci as int]);
            }
            codes_log.push((ci, old_code));
            proof {
                assert(list@.contains(old_code)) by {
                    assert(list@[list1.len() as int] == old_code);
                }
                assert(list@.contains(new_code)) by {
                    assert(list@.last() == new_code);
                }
                assert forall|c: u32| list1.contains(c) implies #[trigger] list@.contains(c) by {
                    let i = list1.index_of(c);
                    assert(list@[i] == c);
                }
            }
            if ctx.simple_protect_top_n == 0 {
                if buckets.get(old_code).is_none() {
                    dirty.push(old_code);
                }
                let held = match buckets.get(new_code) {
                    Some(bucket) => {
                        proof {
                            assert(buckets@.contains_key(new_code));
                            assert forall|i: int| 0 <= i < bucket.members@.len() implies (
                            #[trigger] bucket.members@[i]) < codes@.len() by {}
                        }
                        one_has(&bucket.members, &*codes, new_code)
                    },
                    None => false,
                };
                if !held {
                    dirty.push(new_code);
                }
                codes.set(ci, new_code);
                proof {
                    assert forall|c: u32| dirty1.contains(c) implies #[trigger] dirty@.contains(c) by {
                        let i = dirty1.index_of(c);
                        assert(dirty@[i] == c);
                    }
                    assert(buckets@.contains_key(target[ci as int]));
                    let members = buckets@[new_code].members@;
                    if held {
                        let i = choose|i: int|
                            0 <= i < members.len() && codes1[(#[trigger] members[i]) as int] == new_code;
                        let m = members[i] as int;
                        if codes0[m] == new_code {
                            assert(codes0.contains(new_code));
                        } else {
                            assert(dirty1.contains(codes1[m]) || codes0.contains(codes1[m]));
                        }
                    } else {
                        assert(dirty@.last() == new_code);
                    }
                    assert(dirty@.contains(new_code) || codes0.contains(new_code));
                    if protection_quiet(ctx, codes0, target) {
                        assert(codes0[ci as int] != target[ci as int]);
                        let z = choose|z: int| 0 <= z < target.len() && target[z] == old_code;
                        assert(buckets@.contains_key(target[z]));
                        let cj = choose|cj: int|
                            #![trigger codes0[cj]]
                            0 <= cj < ctx.n() && codes0[cj] == new_code && target[cj] == new_code;
                        assert(codes1[cj] == new_code);
                        let i = choose|i: int| 0 <= i < members.len() && members[i] == cj;
                        assert(codes1[members[i] as int] == new_code);
                    }
                    if !buckets@.contains_key(old_code) {
                        assert(dirty@[dirty1.len() as int] == old_code);
                        assert(dirty@.contains(old_code));
                    }
                }
            } else {
                codes.set(ci, new_code);
                count_move(ctx, ci, old_code, new_code, protect, protect_log, &mut dirty, Ghost(codes1));
                proof {
                    assert(codes@ == codes1.update(ci as int, new_code));
                    assert forall|c: u32|
                        #![trigger dirty@.contains(c)]
                        protected(ctx, codes0, c) != protected(ctx, codes@, c) implies dirty@.contains(c) by {
                        let x = dirty1.contains(c);
                    }
                }
            }
        }
        proof {
            assert forall|cj: int| #![trigger codes@[cj]] 0 <= cj < ctx.n() implies codes@[cj]
                == if front2.contains(cj as usize) {
                target[cj]
            } else {
                codes0[cj]
            } by {
                let x = codes1[cj];
                let y = front2.contains(cj as usize);
            }
            assert forall|cj: int|
                #![trigger codes0[cj]]
                0 <= cj < ctx.n() && codes0[cj] != codes@[cj] implies list@.contains(codes0[cj])
                && list@.contains(codes@[cj]) by {
                if cj != ci {
                    assert(codes1[cj] == codes@[cj]);
                    assert(list1.contains(codes0[cj]) && list1.contains(codes1[cj]));
                }
            }
            if ctx.simple_protect_top_n == 0 {
                assert forall|cj: int|
                    #![trigger codes0[cj]]
                    0 <= cj < ctx.n() && codes0[cj] != codes@[cj] implies (dirty@.contains(codes@[cj])
                    || codes0.contains(codes@[cj])) && (!buckets@.contains_key(codes0[cj]) ==> dirty@.contains(codes0[cj])) by {
                    if cj != ci {
                        assert(codes1[cj] == codes@[cj]);
                        assert(dirty1.contains(codes1[cj]) || codes0.contains(codes1[cj]));
                    }
                }
            }
        }
        k = k + 1;
    }
    proof {
        let all = full_affected@;
        assert(all.take(all.len() as int) =~= all);
        assert forall|ci: int| 0 <= ci < ctx.n() implies codes@[ci] == target[ci] by {
            let x = codes0[ci];
        }
        assert(codes@ =~= target);
        if ctx.simple_protect_top_n == 0 {
            assert forall|c: u32|
                #![trigger dirty@.contains(c)]
                protected(ctx, codes0, c) != protected(ctx, codes@, c) implies dirty@.contains(c) by {
                if protected(ctx, codes0, c) {
                    let ci = choose|ci: int|
                        0 <= ci < ctx.n() && #[trigger] codes0[ci] == c && guarded(ctx, ci);
                    assert(codes@[ci] != c);
                    if buckets@.contains_key(c) {
                        let x = buckets@[c].members@[0];
                        assert(target[x as int] == c);
                        assert(guarded(ctx, x as int));
                        assert(protected(ctx, codes@, c));
                    }
                    assert(codes0[ci] != codes@[ci]);
                } else {
                    let ci = choose|ci: int|
                        0 <= ci < ctx.n() && #[trigger] codes@[ci] == c && guarded(ctx, ci);
                    assert(codes0[ci] != c);
                    if codes0.contains(c) {
                        let cj = choose|cj: int| 0 <= cj < codes0.len() && codes0[cj] == c;
                        assert(guarded(ctx, cj));
                    }
                }
            }
        }
    }
    (list, dirty)
}

/// Follows one character's move from a full code to another in the counts of protected characters.
fn count_move(
    ctx: &OptContext,
    ci: usize,
    old_code: u32,
    new_code: u32,
    protect: &mut FxHashMap<u32, u32>,
    protect_log: &mut Vec<(u32, Option<u32>)>,
    dirty: &mut Vec<u32>,
    Ghost(codes): Ghost<Seq<u32>>,
)
    requires
        ctx.wf_full(),
        ctx.wf_levels(),
        ctx.simple_protect_top_n > 0,
        ci < ctx.n() == codes.len(),
        codes[ci as int] == old_code,
        old_code != new_code,
        protect_right(ctx, codes, old(protect)@),
    ensures
        protect_right(ctx, codes.update(ci as int, new_code), final(protect)@),
        unwound(final(protect_log)@, final(protect)@) == unwound(old(protect_log)@, old(protect)@),
        forall|c: u32| old(dirty)@.contains(c) ==> #[trigger] final(dirty)@.contains(c),
        forall|c: u32|
            #![trigger final(dirty)@.contains(c)]
            protected(ctx, codes, c) != protected(ctx, codes.update(ci as int, new_code), c)
                ==> final(dirty)@.contains(c),
        !ctx.simple_is_topn@[ci as int] ==> final(dirty)@ == old(dirty)@,
{
    let ghost codes2 = codes.update(ci as int, new_code);
    let ghost m0 = protect@;
    let ghost dirty0 = dirty@;
    proof {
        assert forall|c: u32|
            count_at(m0, c) == crate::protection::guards(ctx, codes, c) && 0 <= #[trigger] count_at(m0, c)
                <= ctx.n() && (count_at(m0, c) > 0 <==> protected(ctx, codes, c)) by {
            guards_count(ctx, codes, c);
        }
        assert forall|c: u32|
            0 <= #[trigger] crate::protection::guards(ctx, codes2, c) <= ctx.n() && (
            crate::protection::guards(ctx, codes2, c) > 0 <==> protected(ctx, codes2, c)) && crate::protection::guards(
                ctx,
                codes2,
                c,
            ) == count_at(m0, c) - (if guarded(ctx, ci as int) && old_code == c {
                1int
            } else {
                0
            }) + (if guarded(ctx, ci as int) && new_code == c {
                1int
            } else {
                0
            }) by {
            guards_count(ctx, codes2, c);
            guards_recode(ctx, codes, ci as int, new_code, c);
            let x = count_at(m0, c);
        }
    }
    if ctx.simple_is_topn[ci] {
        proof {
            assert(guarded(ctx, ci as int));
            let x = count_at(m0, old_code);
            let y = crate::protection::guards(ctx, codes2, old_code);
            let z = crate::protection::guards(ctx, codes2, new_code);
            let w = count_at(m0, new_code);
        }
        let was_old = fx_found(protect, old_code);
        let old_count: u32 = match was_old {
            Some(c) => c,
            None => 0,
        };
        let next_old = if old_count <= 1 {
            None
        } else {
            Some(old_count - 1)
        };
        proof {
            unwound_step(protect_log@, protect@, old_code, next_old);
        }
        protect_log.push((old_code, was_old));
        fx_put(protect, old_code, next_old);
        if old_count <= 1 {
            dirty.push(old_code);
        }
        let was_new = fx_found(protect, new_code);
        let new_count: u32 = match was_new {
            Some(c) => c,
            None => 0,
        };
        proof {
            assert(found(protect@, new_code) == found(m0, new_code));
            unwound_step(protect_log@, protect@, new_code, Some((new_count + 1) as u32));
        }
        protect_log.push((new_code, was_new));
        fx_put(protect, new_code, Some(new_count + 1));
        if new_count == 0 {
            dirty.push(new_code);
        }
        proof {
            assert forall|c: u32| #[trigger] count_at(protect@, c) == crate::protection::guards(
                ctx,
                codes2,
                c,
            ) by {
                let x = count_at(m0, c);
            }
            assert forall|c: u32| dirty0.contains(c) implies #[trigger] dirty@.contains(c) by {
                let i = dirty0.index_of(c);
                assert(dirty@[i] == c);
            }
            assert(old_count <= 1 ==> dirty@.contains(old_code)) by {
                if old_count <= 1 {
                    assert(dirty@[dirty0.len() as int] == old_code);
                }
            }
            assert(new_count == 0 ==> dirty@.contains(new_code)) by {
                if new_count == 0 {
                    assert(dirty@.last() == new_code);
                }
            }
            assert forall|c: u32|
                #![trigger dirty@.contains(c)]
                protected(ctx, codes, c) != protected(ctx, codes2, c) implies dirty@.contains(c) by {
                let x = count_at(m0, c);
                let y = crate::protection::guards(ctx, codes2, c);
            }
        }
    } else {
        proof {
            assert(!guarded(ctx, ci as int));
            assert forall|c: u32| #[trigger] count_at(protect@, c) == crate::protection::guards(
                ctx,
                codes2,
                c,
            ) by {
                let x = crate::protection::guards(ctx, codes2, c);
            }
            assert forall|c: u32|
                #![trigger dirty@.contains(c)]
                protected(ctx, codes, c) != protected(ctx, codes2, c) implies dirty@.contains(c) by {
                let x = count_at(m0, c);
                let y = crate::protection::guards(ctx, codes2, c);
            }
        }
    }
}

/// Lists the full codes of those who have gained or lost a simple code.
fn push_flipped(ctx: &OptContext, sel: &Selection, codes: &Vec<u32>, list: &mut Vec<u32>)
    requires
        sel.sane(ctx),
        sel.logged(ctx),
        codes@.len() == ctx.n(),
        forall|ci: int| 0 <= ci < ctx.n() ==> (#[trigger] codes@[ci]) < ctx.code_space,
        forall|i: int| 0 <= i < old(list)@.len() ==> (#[trigger] old(list)@[i]) < ctx.code_space,
        ctx.n() <= usize::MAX,
    ensures
        forall|i: int| 0 <= i < final(list)@.len() ==> (#[trigger] final(list)@[i]) < ctx.code_space,
        forall|c: u32| old(list)@.contains(c) ==> #[trigger] final(list)@.contains(c),
        forall|ci: int|
            #![trigger sel@.assigned[ci]]
            0 <= ci < ctx.n() && sel.base@.assigned[ci] != sel@.assigned[ci] ==> final(list)@.contains(
                codes@[ci],
            ),
{
    let ghost list0 = list@;
    let mut i: usize = 0;
    while i < sel.flags_undo.touched.len()
        invariant
            i <= sel.flags_undo.touched@.len(),
            sel.sane(ctx),
            sel.logged(ctx),
            codes@.len() == ctx.n(),
            forall|ci: int| 0 <= ci < ctx.n() ==> (#[trigger] codes@[ci]) < ctx.code_space,
            list0 == old(list)@,
            list0.is_prefix_of(list@),
            forall|j: int| 0 <= j < list@.len() ==> (#[trigger] list@[j]) < ctx.code_space,
            forall|j: int|
                #![trigger sel.flags_undo.touched@[j]]
                0 <= j < i ==> {
                    let ci = sel.flags_undo.touched@[j] as int;
                    sel.flags_undo.start_flag@[ci] != sel.all_assigned_flags@[ci] ==> list@.contains(
                        codes@[ci],
                    )
                },
        decreases sel.flags_undo.touched@.len() - i,
    {
        let ci = sel.flags_undo.touched[i];
        let ghost list1 = list@;
        assert(sel.flags_undo.touched@[i as int] < ctx.n());
        if sel.flags_undo.start_flag[ci] != sel.all_assigned_flags[ci] {
            list.push(codes[ci]);
            proof {
                assert(list@.last() == codes@[ci as int]);
                assert forall|c: u32| list1.contains(c) implies #[trigger] list@.contains(c) by {
                    let j = list1.index_of(c);
                    assert(list@[j] == c);
                }
            }
        }
        i = i + 1;
    }
    proof {
        assert forall|c: u32| list0.contains(c) implies #[trigger] list@.contains(c) by {
            let j = list0.index_of(c);
            assert(list@[j] == c);
        }
        assert forall|ci: int|
            #![trigger sel@.assigned[ci]]
            0 <= ci < ctx.n() && sel.base@.assigned[ci] != sel@.assigned[ci] implies list@.contains(codes@[ci]) by {
            let g = sel.flags_undo.touch_gen@[ci];
            assert(sel.flags_undo.touched@.contains(ci as usize));
            let j = sel.flags_undo.touched@.index_of(ci as usize);
            assert(sel.flags_undo.touched@[j] == ci as usize);
        }
    }
}

/// The full codes of all characters.
fn all_full_codes(ctx: &OptContext, assignment: &[u8]) -> (codes: Vec<u32>)
    requires
        ctx.wf_full(),
        ctx.assigns(assignment@),
    ensures
        codes@ == ctx.full_codes(assignment@),
{
    let n = ctx.char_infos.len();
    let mut codes: Vec<u32> = Vec::new();
    let mut ci: usize = 0;
    while ci < n
        invariant
            ci <= n == ctx.n(),
            ctx.wf_full(),
            ctx.assigns(assignment@),
            codes@ == ctx.full_codes(assignment@).take(ci as int),
        decreases n - ci,
    {
        codes.push(ctx.calc_code_only(ci, assignment));
        proof {
            let all = ctx.full_codes(assignment@);
            assert(all.take(ci as int).push(all[ci as int]) =~= all.take(ci + 1));
        }
        ci = ci + 1;
    }
    assert(ctx.full_codes(assignment@).take(n as int) =~= ctx.full_codes(assignment@));
    codes
}

impl SimpleEvaluator {
    /// The selection is in order, and all is as it has to be under the assignment.
    pub open spec fn inv(&self, ctx: &OptContext) -> bool {
        &&& self.sel.sane(ctx)
        &&& self.sel.gens_ok(ctx)
        &&& in_order(ctx, self.output_scope, self@)
    }

    /// The last move can be taken back.
    pub open spec fn undoable(&self, ctx: &OptContext) -> bool {
        let base = self.base@;
        &&& in_order(ctx, self.output_scope, base)
        &&& unwound_entries(self.undo.codes@, self.last_full_codes@) == base.codes
        &&& unwound(self.undo.protect@, self.protect_count@) == base.protect
        &&& unwound(self.undo.shares@, self.bucket_shares@) == base.shares
        &&& self.undo.collision_count == base.collision_count
        &&& self.undo.collision_freq == base.collision_freq
        &&& forall|i: int| 0 <= i < self.undo.codes@.len() ==> (#[trigger] self.undo.codes@[i]).0 < ctx.n()
        &&& if self.undo.has_selection {
            self.sel.logged(ctx) && self.sel.base@ == base.sel
        } else {
            self.sel@ == base.sel
        }
    }

    /// Nothing is left by which a move could be taken back.
    pub open spec fn settled_for(&self) -> bool {
        &&& !self.undo.has_selection
        &&& self.undo.codes@.len() == 0
        &&& self.undo.protect@.len() == 0
        &&& self.undo.shares@.len() == 0
        &&& self.sel.forgotten()
    }

    /// Builds the simple codes of an assignment from scratch.
    pub fn new(
        ctx: &OptContext,
        assignment: &[u8],
        full_buckets: &BucketStore<FullBucket>,
        is_first_candidate: &Vec<bool>,
        output_scope: bool,
    ) -> (se: SimpleEvaluator)
        requires
            ctx.wf_full(),
            ctx.wf_levels(),
            ctx.assigns(assignment@),
            buckets_fit(ctx, full_buckets, ctx.full_codes(assignment@)),
            is_first_candidate@ == firsts(ctx, ctx.full_codes(assignment@)),
        ensures
            se.inv(ctx),
            se.at@ == assignment@,
            se.output_scope == output_scope,
            se.full_rebuild_calls == 0,
            se.stage2_visits == 0,
    {
        let last_full_codes = all_full_codes(ctx, assignment);
        let protect_count = recompute_protect_count(ctx, &last_full_codes);
        let env = Env {
            ctx,
            assignment,
            first: is_first_candidate,
            full_buckets,
            protect: &protect_count,
        };
        proof {
            env_terms(&env);
        }
        let sel = rebuild_selection(&env, output_scope);
        let ghost codes = last_full_codes@;
        let mut bucket_shares: Shares = FxHashMap::default();
        let mut log: Vec<(u32, Option<(usize, u64)>)> = Vec::new();
        let list = full_buckets.nonempty_codes();
        let ghost zeros = Seq::new(ctx.code_space as nat, |c: int| 0int);
        proof {
            sum_zero(zeros);
            assert forall|i: int| 0 <= i < list@.len() implies (#[trigger] list@[i]) < ctx.code_space by {
                assert(list@.to_set().contains(list@[i]));
                assert(full_buckets@.contains_key(list@[i]));
                let x = full_buckets@[list@[i]].members@[0];
                assert(codes[x as int] == list@[i]);
            }
            assert forall|c: u32|
                #![trigger zeros[c as int]]
                c < ctx.code_space && !list@.contains(c) implies excess(ctx, codes, sel@.assigned, c) == 0
                && hidden_freq(ctx, codes, sel@.assigned, c) == 0 by {
                assert(!full_buckets@.contains_key(c)) by {
                    if full_buckets@.contains_key(c) {
                        assert(full_buckets@.dom().contains(c));
                        assert(list@.to_set().contains(c));
                    }
                }
                assert forall|ci: int| 0 <= ci < ctx.n() implies #[trigger] codes[ci] != c by {
                    assert(full_buckets@.contains_key(codes[ci]));
                }
                share_of_nobody(ctx, codes, sel@.assigned, c);
            }
        }
        let (simple_collision_count, simple_collision_freq) = refresh_collisions(
            ctx,
            full_buckets,
            &sel.all_assigned_flags,
            &mut bucket_shares,
            &mut log,
            &list,
            0,
            0,
            Ghost(codes),
            Ghost(zeros),
            Ghost(zeros),
        );
        let undo = SimpleUndo {
            has_selection: false,
            codes: Vec::new(),
            protect: Vec::new(),
            shares: Vec::new(),
            collision_count: simple_collision_count,
            collision_freq: simple_collision_freq,
        };
        let ghost view = SimpleView {
            at: assignment@,
            sel: sel@,
            codes,
            protect: protect_count@,
            shares: bucket_shares@,
            collision_count: simple_collision_count,
            collision_freq: simple_collision_freq,
        };
        SimpleEvaluator {
            sel,
            simple_collision_count,
            simple_collision_freq,
            bucket_shares,
            last_full_codes,
            protect_count,
            output_scope,
            undo,
            full_rebuild_calls: 0,
            stage2_visits: 0,
            at: Ghost(assignment@),
            base: Ghost(view),
        }
    }

    /// Builds everything anew for an assignment.
    pub fn full_rebuild(
        &mut self,
        ctx: &OptContext,
        assignment: &[u8],
        full_buckets: &BucketStore<FullBucket>,
        is_first_candidate: &Vec<bool>,
    )
        requires
            ctx.wf_full(),
            ctx.wf_levels(),
            ctx.assigns(assignment@),
            buckets_fit(ctx, full_buckets, ctx.full_codes(assignment@)),
            is_first_candidate@ == firsts(ctx, ctx.full_codes(assignment@)),
        ensures
            final(self).inv(ctx),
            final(self).at@ == assignment@,
            final(self).output_scope == old(self).output_scope,
            final(self).full_rebuild_calls == if old(self).full_rebuild_calls < u64::MAX {
                old(self).full_rebuild_calls + 1
            } else {
                u64::MAX as int
            },
            final(self).stage2_visits == old(self).stage2_visits,
    {
        let calls = self.full_rebuild_calls.saturating_add(1);
        let visits = self.stage2_visits;
        let scope = self.output_scope;
        *self = SimpleEvaluator::new(ctx, assignment, full_buckets, is_first_candidate, scope);
        self.full_rebuild_calls = calls;
        self.stage2_visits = visits;
    }

    /// Brings the simple codes up to date after a move. `affected_candidates` names the candidates
    /// whose simple codes may have changed, `resort_seeds` those whose place in the full code
    /// buckets has, and `full_affected_chars` the characters whose full codes have. The count of
    /// visits starts again from nothing: it stays there where no candidate is named and protection
    /// is left alone, and never exceeds what those named and the members of the buckets put down
    /// make up.
    pub fn apply_move_incremental(
        &mut self,
        ctx: &OptContext,
        assignment: &[u8],
        affected_candidates: &Vec<usize>,
        resort_seeds: &Vec<usize>,
        full_affected_chars: &Vec<usize>,
        full_buckets: &BucketStore<FullBucket>,
        is_first_candidate: &Vec<bool>,
    )
        requires
            ctx.wf_full(),
            ctx.wf_levels(),
            old(self).inv(ctx),
            ctx.assigns(assignment@),
            buckets_fit(ctx, full_buckets, ctx.full_codes(assignment@)),
            is_first_candidate@ == firsts(ctx, ctx.full_codes(assignment@)),
            forall|i: int|
                0 <= i < affected_candidates@.len() ==> (#[trigger] affected_candidates@[i]) < ctx.n(),
            forall|i: int| 0 <= i < resort_seeds@.len() ==> (#[trigger] resort_seeds@[i]) < ctx.n(),
            forall|i: int|
                0 <= i < full_affected_chars@.len() ==> (#[trigger] full_affected_chars@[i]) < ctx.n(),
            candidates_covered(
                ctx,
                old(self).output_scope,
                old(self).at@,
                assignment@,
                affected_candidates@,
                resort_seeds@,
            ),
            forall|ci: int|
                #![trigger ctx.full_code(assignment@, ci)]
                0 <= ci < ctx.n() && ctx.full_code(old(self).at@, ci) != ctx.full_code(assignment@, ci)
                    ==> full_affected_chars@.contains(ci as usize),
        ensures
            final(self).inv(ctx),
            final(self).at@ == assignment@,
            final(self).undoable(ctx),
            final(self).base@ == old(self)@,
            final(self).output_scope == old(self).output_scope,
            final(self).full_rebuild_calls == old(self).full_rebuild_calls,
            affected_candidates@.len() == 0 && resort_seeds@.len() == 0 && full_affected_chars@.len() == 0 ==> {
                &&& same_decisions(ctx.n(), old(self).sel@, final(self).sel@)
                &&& final(self).sel.totals.cells@ == old(self).sel.totals.cells@
                &&& final(self).simple_collision_count == old(self).simple_collision_count
                &&& final(self).simple_collision_freq == old(self).simple_collision_freq
                &&& final(self).last_full_codes@ == old(self).last_full_codes@
                &&& final(self).stage2_visits == 0
            },
            affected_candidates@.len() == 0 && resort_seeds@.len() == 0 && protection_quiet(
                ctx,
                ctx.full_codes(old(self).at@),
                ctx.full_codes(assignment@),
            ) ==> final(self).stage2_visits == 0,
            final(self).stage2_visits <= visit_limit(
                ctx,
                &final(self).sel,
                affected_candidates@.len(),
                resort_seeds@.len(),
            ),
    {
        let ghost start = *self;
        let ghost before = self@;
        let ghost codes0 = self.last_full_codes@;
        let ghost assigned0 = self.sel@.assigned;
        let ghost out = self.output_scope;
        self.base = Ghost(before);
        self.stage2_visits = 0;
        self.undo.has_selection = false;
        self.undo.codes.clear();
        self.undo.protect.clear();
        self.undo.shares.clear();
        self.undo.collision_count = self.simple_collision_count;
        self.undo.collision_freq = self.simple_collision_freq;
        proof {
            let target = ctx.full_codes(assignment@);
            assert forall|ci: int| 0 <= ci < ctx.n() implies (#[trigger] codes0[ci]) < ctx.code_space by {
                ctx.full_code_bound(self.at@, ci);
            }
            assert forall|ci: int|
                #![trigger codes0[ci]]
                0 <= ci < ctx.n() && codes0[ci] != ctx.full_code(assignment@, ci) implies full_affected_chars@.contains(
            ci as usize) by {}
        }
        let (mut list, protect_dirty) = track_codes(
            ctx,
            assignment,
            full_affected_chars,
            full_buckets,
            &mut self.last_full_codes,
            &mut self.protect_count,
            &mut self.undo.codes,
            &mut self.undo.protect,
        );
        let ghost list0 = list@;
        let ghost codes = self.last_full_codes@;
        let env = Env {
            ctx,
            assignment,
            first: is_first_candidate,
            full_buckets,
            protect: &self.protect_count,
        };
        proof {
            env_terms(&env);
            named_from_covers(
                &env,
                out,
                before.at,
                before.sel,
                affected_candidates@,
                resort_seeds@,
                protect_dirty@,
            );
        }
        let selection_may_change = affected_candidates.len() > 0 || resort_seeds.len() > 0
            || protect_dirty.len() > 0;
        if selection_may_change {
            self.stage2_visits = do_incremental_selection(
                &mut self.sel,
                &env,
                affected_candidates,
                resort_seeds,
                &protect_dirty,
                Ghost(out),
            );
            self.undo.has_selection = true;
            push_flipped(ctx, &self.sel, &self.last_full_codes, &mut list);
        } else {
            proof {
                assert(affected_candidates@ =~= Seq::<usize>::empty());
                assert(resort_seeds@ =~= Seq::<usize>::empty());
                assert(protect_dirty@ =~= Seq::<u32>::empty());
                nothing_named(&env, out, before.sel);
                visit_limit_nonnegative(ctx, &self.sel, 0, 0);
            }
        }
        let ghost assigned = self.sel@.assigned;
        let ghost old_e = excess_by_code(ctx, codes0, assigned0);
        let ghost old_h = hidden_by_code(ctx, codes0, assigned0);
        proof {
            assert forall|c: u32|
                #![trigger old_e[c as int]]
                c < ctx.code_space && !list@.contains(c) implies old_e[c as int] == excess(
                ctx,
                codes,
                assigned,
                c,
            ) && old_h[c as int] == hidden_freq(ctx, codes, assigned, c) by {
                assert forall|ci: int| 0 <= ci < ctx.n() implies #[trigger] counts(
                    codes0,
                    assigned0,
                    c,
                    ci,
                ) == counts(codes, assigned, c, ci) by {
                    let x = codes0[ci];
                    let y = self.sel@.assigned[ci];
                    if codes0[ci] != codes[ci] {
                        assert(list0.contains(codes0[ci]) && list0.contains(codes[ci]));
                        assert(list@.contains(codes0[ci]) && list@.contains(codes[ci]));
                    }
                }
                share_frame(ctx, codes0, assigned0, codes, assigned, c);
            }
        }
        let (count, freq) = refresh_collisions(
            ctx,
            full_buckets,
            &self.sel.all_assigned_flags,
            &mut self.bucket_shares,
            &mut self.undo.shares,
            &list,
            self.simple_collision_count,
            self.simple_collision_freq,
            Ghost(codes),
            Ghost(old_e),
            Ghost(old_h),
        );
        self.simple_collision_count = count;
        self.simple_collision_freq = freq;
        self.at = Ghost(assignment@);
        proof {
            if affected_candidates@.len() == 0 && resort_seeds@.len() == 0 && full_affected_chars@.len() == 0 {
                assert(affected_candidates@ =~= Seq::<usize>::empty());
                assert(resort_seeds@ =~= Seq::<usize>::empty());
                assert(ctx.full_codes(start.at@) =~= ctx.full_codes(assignment@)) by {
                    assert forall|ci: int| 0 <= ci < ctx.n() implies ctx.full_code(start.at@, ci)
                        == ctx.full_code(assignment@, ci) by {
                        let x = ctx.full_code(assignment@, ci);
                    }
                }
                empty_move_changes_nothing(ctx, &start, self);
            }
        }
    }

    /// Settles for the last move: it can no longer be taken back.
    pub fn commit(&mut self, ctx: &OptContext)
        requires
            old(self).inv(ctx),
        ensures
            final(self).inv(ctx),
            final(self).settled_for(),
            final(self)@ == old(self)@,
            final(self).output_scope == old(self).output_scope,
            final(self).full_rebuild_calls == old(self).full_rebuild_calls,
            final(self).stage2_visits == old(self).stage2_visits,
    {
        self.undo.has_selection = false;
        self.undo.codes.clear();
        self.undo.protect.clear();
        self.undo.shares.clear();
        self.sel.forget();
    }

    /// Takes the last move back.
    pub fn rollback(&mut self, ctx: &OptContext)
        requires
            ctx.wf_full(),
            ctx.wf_levels(),
            old(self).inv(ctx),
            old(self).undoable(ctx),
        ensures
            final(self).inv(ctx),
            final(self).settled_for(),
            final(self)@ == old(self).base@,
            final(self).output_scope == old(self).output_scope,
            final(self).full_rebuild_calls == old(self).full_rebuild_calls,
            final(self).stage2_visits == old(self).stage2_visits,
    {
        let ghost base = self.base@;
        if self.undo.has_selection {
            self.sel.roll_back(ctx);
        }
        unwind_entries(&mut self.last_full_codes, &self.undo.codes);
        unwind(&mut self.protect_count, &self.undo.protect);
        unwind(&mut self.bucket_shares, &self.undo.shares);
        self.simple_collision_count = self.undo.collision_count;
        self.simple_collision_freq = self.undo.collision_freq;
        self.at = Ghost(base.at);
        self.commit(ctx);
    }
}

} // verus!
