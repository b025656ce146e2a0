//! Moves of several groups at once: made for good, made to see where they lead, or made and taken
//! back unless they are accepted.

use vstd::prelude::*;

use crate::context::OptContext;
use crate::evaluator::{differ_in, moved_candidates, same_usage, Evaluator};
use crate::key_usage::usage_right;
use crate::simple_evaluator::protection_quiet;
use crate::types::{SimpleAssignMode, EQUIV_TABLE_SIZE};

verus! {

/// An assignment after the first `i` groups of a list have been put, in turn, on the keys given.
pub open spec fn placed(a: Seq<u8>, groups: Seq<usize>, keys: Seq<u8>, i: int) -> Seq<u8>
    decreases i,
{
    if i <= 0 {
        a
    } else {
        placed(a, groups, keys, i - 1).update(groups[i - 1] as int, keys[i - 1])
    }
}

/// Whether a list of groups and a list of keys name a move.
pub open spec fn names_move(ctx: &OptContext, groups: Seq<usize>, keys: Seq<u8>) -> bool {
    &&& groups.len() == keys.len()
    &&& forall|i: int| 0 <= i < groups.len() ==> (#[trigger] groups[i]) < ctx.num_groups()
    &&& forall|i: int| 0 <= i < keys.len() ==> (#[trigger] keys[i]) < EQUIV_TABLE_SIZE
}

/// Whether moving groups leaves all that decides who has a simple code as it is: who comes first is
/// decided by frequency alone, no candidate has a part of the groups, and protection stays put.
pub open spec fn no_candidate_stirred(ctx: &OptContext, before: Seq<u8>, after: Seq<u8>, groups: Seq<usize>) -> bool {
    &&& ctx.simple_assign_mode == SimpleAssignMode::Frequency
    &&& moved_candidates(ctx, groups).len() == 0
    &&& protection_quiet(ctx, ctx.full_codes(before), ctx.full_codes(after))
}

/// A move leaves alone what it does not name.
proof fn placed_differs(a: Seq<u8>, groups: Seq<usize>, keys: Seq<u8>, i: int)
    requires
        0 <= i <= groups.len(),
        groups.len() == keys.len(),
        forall|j: int| 0 <= j < groups.len() ==> (#[trigger] groups[j]) < a.len(),
        a.len() <= usize::MAX,
    ensures
        differ_in(a, placed(a, groups, keys, i), groups),
    decreases i,
{
    if i > 0 {
        placed_differs(a, groups, keys, i - 1);
        let was = placed(a, groups, keys, i - 1);
        let now = placed(a, groups, keys, i);
        assert forall|g: int|
            #![trigger now[g]]
            0 <= g < a.len() && a[g] != now[g] implies groups.contains(g as usize) by {
            if g == groups[i - 1] {
                assert(groups[i - 1] == g as usize);
            } else {
                assert(was[g] == now[g]);
            }
        }
    }
}

/// A move of distinct groups puts each on its key.
pub proof fn placed_at(a: Seq<u8>, groups: Seq<usize>, keys: Seq<u8>, i: int, j: int)
    requires
        0 <= j < i <= groups.len(),
        groups.len() == keys.len(),
        groups.no_duplicates(),
        forall|l: int| 0 <= l < groups.len() ==> (#[trigger] groups[l]) < a.len(),
    ensures
        placed(a, groups, keys, i).len() == a.len(),
        placed(a, groups, keys, i)[groups[j] as int] == keys[j],
    decreases i,
{
    placed_len(a, groups, keys, i - 1);
    if j < i - 1 {
        placed_at(a, groups, keys, i - 1, j);
        assert(groups[j] != groups[i - 1]);
    }
}

/// A move keeps the number of groups.
pub proof fn placed_len(a: Seq<u8>, groups: Seq<usize>, keys: Seq<u8>, i: int)
    requires
        i <= groups.len(),
        forall|l: int| 0 <= l < groups.len() ==> (#[trigger] groups[l]) < a.len(),
    ensures
        placed(a, groups, keys, i).len() == a.len(),
    decreases i,
{
    if i > 0 {
        placed_len(a, groups, keys, i - 1);
        let g = groups[i - 1];
    }
}

/// Putting distinct groups back on their keys undoes a move.
proof fn placed_back(a: Seq<u8>, groups: Seq<usize>, keys: Seq<u8>, former: Seq<u8>)
    requires
        groups.len() == keys.len(),
        former.len() == keys.len(),
        a.len() <= usize::MAX,
        groups.no_duplicates(),
        forall|l: int| 0 <= l < groups.len() ==> (#[trigger] groups[l]) < a.len(),
        forall|l: int| 0 <= l < groups.len() ==> #[trigger] former[l] == a[groups[l] as int],
    ensures
        placed(placed(a, groups, keys, groups.len() as int), groups, former, groups.len() as int) == a,
{
    let n = groups.len() as int;
    let b = placed(a, groups, keys, n);
    let c = placed(b, groups, former, n);
    placed_len(a, groups, keys, n);
    placed_len(b, groups, former, n);
    placed_differs(a, groups, keys, n);
    placed_differs(b, groups, former, n);
    assert forall|g: int| 0 <= g < a.len() implies c[g] == a[g] by {
        let x = b[g];
        let y = c[g];
        if groups.contains(g as usize) {
            let j = groups.index_of(g as usize);
            assert(groups[j] == g as usize);
            placed_at(b, groups, former, n, j);
            assert(former[j] == a[groups[j] as int]);
        }
    }
    assert(c =~= a);
}

impl Evaluator {
    /// The simple codes, if they are kept up to date, can be taken back to a former state.
    pub open spec fn undoable_to(&self, ctx: &OptContext, before: &Evaluator) -> bool {
        self.simple_active ==> {
            &&& self.simple_eval->0.undoable(ctx)
            &&& self.simple_eval->0.base@ == before.simple_eval->0@
            &&& self.simple_eval->0.output_scope == before.simple_eval->0.output_scope
            &&& self.simple_eval->0.full_rebuild_calls == before.simple_eval->0.full_rebuild_calls
        }
    }

    /// Puts groups, in turn, on the keys given; full codes, key strokes and simple codes follow.
    fn put(&mut self, ctx: &OptContext, assignment: &mut Vec<u8>, groups: &Vec<usize>, keys: &Vec<u8>)
        requires
            ctx.wf_full(),
            ctx.wf_simple(),
            old(self).in_step(ctx, old(assignment)@),
            old(self).searches(),
            names_move(ctx, groups@, keys@),
        ensures
            final(assignment)@ == placed(old(assignment)@, groups@, keys@, groups@.len() as int),
            final(self).in_step(ctx, final(assignment)@),
            final(self).searches(),
            final(self).undoable_to(ctx, old(self)),
            final(self).simple_active == old(self).simple_active,
            final(self).rebuilds() == old(self).rebuilds(),
            !old(self).simple_active ==> final(self).simple_eval == old(self).simple_eval,
            old(self).simple_active && no_candidate_stirred(
                ctx,
                old(assignment)@,
                final(assignment)@,
                groups@,
            ) ==> final(self).visits() == 0,
    {
        let ghost before = assignment@;
        let ghost start = *self;
        let mut i: usize = 0;
        while i < groups.len()
            invariant
                i <= groups@.len(),
                ctx.wf_full(),
                ctx.wf_simple(),
                names_move(ctx, groups@, keys@),
                ctx.assigns(assignment@),
                assignment@ == placed(before, groups@, keys@, i as int),
                self.inv(ctx),
                self.full.current_codes@ == ctx.full_codes(assignment@),
                usage_right(ctx, assignment@, self.key_weighted_usage),
                self.simple_active == start.simple_active,
                self.simple_eval == start.simple_eval,
                self.rebuilds() == start.rebuilds(),
            decreases groups@.len() - i,
        {
            assert(groups@[i as int] < ctx.num_groups());
            assert(keys@[i as int] < EQUIV_TABLE_SIZE);
            self.shift(ctx, assignment, groups[i], keys[i]);
            i = i + 1;
        }
        proof {
            placed_differs(before, groups@, keys@, groups@.len() as int);
        }
        if self.simple_active {
            self.apply_simple_for_move(ctx, assignment.as_slice(), groups);
        }
    }

    /// Takes a move back: the groups go to their former keys, and the simple codes to their former
    /// state.
    fn take_back(&mut self, ctx: &OptContext, assignment: &mut Vec<u8>, groups: &Vec<usize>, former: &Vec<u8>, Ghost(start): Ghost<Evaluator>, Ghost(before): Ghost<Seq<u8>>)
        requires
            ctx.wf_full(),
            ctx.wf_simple(),
            start.in_step(ctx, before),
            start.searches(),
            old(self).in_step(ctx, old(assignment)@),
            old(self).searches(),
            old(self).undoable_to(ctx, &start),
            old(self).simple_active == start.simple_active,
            old(self).rebuilds() == start.rebuilds(),
            !start.simple_active ==> old(self).simple_eval == start.simple_eval,
            names_move(ctx, groups@, former@),
            placed(old(assignment)@, groups@, former@, groups@.len() as int) == before,
        ensures
            final(assignment)@ == before,
            final(self).in_step(ctx, before),
            final(self).searches(),
            final(self).same_state(&start),
            final(self).simple_active == start.simple_active,
            final(self).rebuilds() == start.rebuilds(),
            final(self).visits() == old(self).visits(),
    {
        let ghost moved = *self;
        let ghost after = assignment@;
        let mut i: usize = 0;
        while i < groups.len()
            invariant
                i <= groups@.len(),
                ctx.wf_full(),
                ctx.wf_simple(),
                names_move(ctx, groups@, former@),
                ctx.assigns(assignment@),
                assignment@ == placed(after, groups@, former@, i as int),
                self.inv(ctx),
                self.full.current_codes@ == ctx.full_codes(assignment@),
                usage_right(ctx, assignment@, self.key_weighted_usage),
                self.simple_active == moved.simple_active,
                self.simple_eval == moved.simple_eval,
                self.rebuilds() == moved.rebuilds(),
            decreases groups@.len() - i,
        {
            assert(groups@[i as int] < ctx.num_groups());
            assert(former@[i as int] < EQUIV_TABLE_SIZE);
            self.shift(ctx, assignment, groups[i], former[i]);
            i = i + 1;
        }
        assert(assignment@ == before);
        if self.simple_active {
            self.rollback_simple(ctx);
        }
        proof {
            same_usage(ctx, before, start.key_weighted_usage, self.key_weighted_usage);
        }
    }
}

/// The keys that groups are on.
fn keys_of(assignment: &Vec<u8>, groups: &Vec<usize>) -> (r: Vec<u8>)
    requires
        forall|i: int| 0 <= i < groups@.len() ==> (#[trigger] groups@[i]) < assignment@.len(),
    ensures
        r@.len() == groups@.len(),
        forall|i: int| 0 <= i < groups@.len() ==> #[trigger] r@[i] == assignment@[groups@[i] as int],
{
    let mut r: Vec<u8> = Vec::new();
    let mut i: usize = 0;
    while i < groups.len()
        invariant
            i <= groups@.len(),
            forall|j: int| 0 <= j < groups@.len() ==> (#[trigger] groups@[j]) < assignment@.len(),
            r@.len() == i,
            forall|j: int| 0 <= j < i ==> #[trigger] r@[j] == assignment@[groups@[j] as int],
        decreases groups@.len() - i,
    {
        assert(groups@[i as int] < assignment@.len());
        r.push(assignment[groups[i]]);
        i = i + 1;
    }
    r
}

impl Evaluator {
    /// Puts groups on the keys given, for good.
    pub fn apply_moves(&mut self, ctx: &OptContext, assignment: &mut Vec<u8>, groups: &Vec<usize>, keys: &Vec<u8>)
        requires
            ctx.wf_full(),
            ctx.wf_simple(),
            old(self).in_step(ctx, old(assignment)@),
            old(self).searches(),
            names_move(ctx, groups@, keys@),
        ensures
            final(assignment)@ == placed(old(assignment)@, groups@, keys@, groups@.len() as int),
            final(self).in_step(ctx, final(assignment)@),
            final(self).searches(),
            final(self).simple_active == old(self).simple_active,
            final(self).rebuilds() == old(self).rebuilds(),
            !old(self).simple_active ==> final(self).visits() == old(self).visits(),
            old(self).simple_active && no_candidate_stirred(
                ctx,
                old(assignment)@,
                final(assignment)@,
                groups@,
            ) ==> final(self).visits() == 0,
    {
        self.put(ctx, assignment, groups, keys);
        if self.simple_active {
            self.commit_simple(ctx);
        }
    }

    /// The score that `score` gives the state with groups on the keys given. Everything is put back.
    pub fn probe_moves<S, F: Fn(&Evaluator, &Vec<u8>) -> S>(
        &mut self,
        ctx: &OptContext,
        assignment: &mut Vec<u8>,
        groups: &Vec<usize>,
        keys: &Vec<u8>,
        score: &F,
    ) -> (s: S)
        requires
            ctx.wf_full(),
            ctx.wf_simple(),
            old(self).in_step(ctx, old(assignment)@),
            old(self).searches(),
            names_move(ctx, groups@, keys@),
            groups@.no_duplicates(),
            forall|e: &Evaluator, a: &Vec<u8>| call_requires(score, (e, a)),
        ensures
            final(assignment)@ == old(assignment)@,
            final(self).in_step(ctx, final(assignment)@),
            final(self).searches(),
            final(self).same_state(old(self)),
            final(self).rebuilds() == old(self).rebuilds(),
            scored(ctx, old(self).simple_active, score, placed(old(assignment)@, groups@, keys@, groups@.len() as int), s),
    {
        let ghost start = *self;
        let ghost before = assignment@;
        let former = keys_of(assignment, groups);
        proof {
            placed_back(before, groups@, keys@, former@);
            assert forall|i: int| 0 <= i < former@.len() implies (#[trigger] former@[i])
                < EQUIV_TABLE_SIZE by {
                let g = groups@[i];
                let x = before[g as int];
            }
        }
        self.put(ctx, assignment, groups, keys);
        let s = score(&*self, &*assignment);
        proof {
            assert(call_ensures(score, (&*self, &*assignment), s));
        }
        self.take_back(ctx, assignment, groups, &former, Ghost(start), Ghost(before));
        s
    }

    /// Puts groups on the keys given, and keeps them there if `accept` says so of the scores before
    /// and after. Otherwise everything is put back.
    pub fn try_moves<S, F: Fn(&Evaluator, &Vec<u8>) -> S, G: Fn(&S, &S) -> bool>(
        &mut self,
        ctx: &OptContext,
        assignment: &mut Vec<u8>,
        groups: &Vec<usize>,
        keys: &Vec<u8>,
        score: &F,
        accept: &G,
    ) -> (moved: bool)
        requires
            ctx.wf_full(),
            ctx.wf_simple(),
            old(self).in_step(ctx, old(assignment)@),
            old(self).searches(),
            names_move(ctx, groups@, keys@),
            groups@.no_duplicates(),
            can_judge(score, accept),
        ensures
            final(self).in_step(ctx, final(assignment)@),
            final(self).searches(),
            final(self).simple_active == old(self).simple_active,
            final(self).rebuilds() == old(self).rebuilds(),
            moved ==> final(assignment)@ == placed(old(assignment)@, groups@, keys@, groups@.len() as int),
            !moved ==> final(assignment)@ == old(assignment)@ && final(self).same_state(old(self)),
            judged(
                ctx,
                old(self).simple_active,
                score,
                accept,
                old(assignment)@,
                placed(old(assignment)@, groups@, keys@, groups@.len() as int),
                moved,
            ),
            !old(self).simple_active ==> final(self).visits() == old(self).visits(),
            old(self).simple_active && no_candidate_stirred(
                ctx,
                old(assignment)@,
                placed(old(assignment)@, groups@, keys@, groups@.len() as int),
                groups@,
            ) ==> final(self).visits() == 0,
    {
        let ghost simple = self.simple_active;
        let ghost start = *self;
        let ghost before = assignment@;
        let former = keys_of(assignment, groups);
        proof {
            placed_back(before, groups@, keys@, former@);
            assert forall|i: int| 0 <= i < former@.len() implies (#[trigger] former@[i])
                < EQUIV_TABLE_SIZE by {
                let g = groups@[i];
                let x = before[g as int];
            }
        }
        let score_before = score(&*self, &*assignment);
        proof {
            assert(call_ensures(score, (&*self, &*assignment), score_before));
            assert(scored(ctx, simple, score, before, score_before));
        }
        self.put(ctx, assignment, groups, keys);
        let score_after = score(&*self, &*assignment);
        proof {
            assert(call_ensures(score, (&*self, &*assignment), score_after));
            assert(scored(ctx, simple, score, assignment@, score_after));
        }
        let keep = accept(&score_before, &score_after);
        if keep {
            if self.simple_active {
                self.commit_simple(ctx);
            }
            true
        } else {
            self.take_back(ctx, assignment, groups, &former, Ghost(start), Ghost(before));
            false
        }
    }
}

/// Whether states can be scored, and scores compared.
pub open spec fn can_judge<S, F: Fn(&Evaluator, &Vec<u8>) -> S, G: Fn(&S, &S) -> bool>(
    score: &F,
    accept: &G,
) -> bool {
    &&& forall|e: &Evaluator, a: &Vec<u8>| call_requires(score, (e, a))
    &&& forall|s: &S, t: &S| call_requires(accept, (s, t))
}

/// Whether `verdict` is what `accept` says of scores of two assignments.
pub open spec fn judged<S, F: Fn(&Evaluator, &Vec<u8>) -> S, G: Fn(&S, &S) -> bool>(
    ctx: &OptContext,
    simple: bool,
    score: &F,
    accept: &G,
    before: Seq<u8>,
    after: Seq<u8>,
    verdict: bool,
) -> bool {
    exists|s: S, t: S|
        {
            &&& scored(ctx, simple, score, before, s)
            &&& scored(ctx, simple, score, after, t)
            &&& #[trigger] call_ensures(accept, (&s, &t), verdict)
        }
}

/// Whether `s` is a score that `score` gives the state of an assignment, with simple codes kept up to
/// date or without.
pub open spec fn scored<S, F: Fn(&Evaluator, &Vec<u8>) -> S>(
    ctx: &OptContext,
    simple: bool,
    score: &F,
    assignment: Seq<u8>,
    s: S,
) -> bool {
    exists|e: &Evaluator, a: &Vec<u8>|
        {
            &&& a@ == assignment
            &&& e.in_step(ctx, a@)
            &&& e.searches()
            &&& e.simple_active == simple
            &&& #[trigger] call_ensures(score, (e, a), s)
        }
}

/// Whether two groups can be swapped: they are on different keys, and each may be put on that of the
/// other.
pub open spec fn swappable(ctx: &OptContext, a: Seq<u8>, g: int, h: int) -> bool {
    &&& g != h
    &&& a[g] != a[h]
    &&& ctx.choices(g).contains(a[h])
    &&& ctx.choices(h).contains(a[g])
}

/// An assignment with the keys of two groups swapped.
pub open spec fn swapped(a: Seq<u8>, r1: int, r2: int) -> Seq<u8> {
    a.update(r1, a[r2]).update(r2, a[r1])
}

/// A move of one group.
proof fn placed_one(a: Seq<u8>, r: usize, k: u8)
    ensures
        placed(a, seq![r], seq![k], 1) == a.update(r as int, k),
{
    reveal_with_fuel(placed, 2);
}

/// A move of two groups.
proof fn placed_two(a: Seq<u8>, r1: usize, r2: usize, k1: u8, k2: u8)
    ensures
        placed(a, seq![r1, r2], seq![k1, k2], 2) == a.update(r1 as int, k1).update(r2 as int, k2),
{
    reveal_with_fuel(placed, 3);
}

impl Evaluator {
    /// Puts a group on another key, unless it is there already, and keeps it there if `accept` says
    /// so of the scores before and after. Otherwise everything is put back.
    pub fn try_move<S, F: Fn(&Evaluator, &Vec<u8>) -> S, G: Fn(&S, &S) -> bool>(
        &mut self,
        ctx: &OptContext,
        assignment: &mut Vec<u8>,
        r: usize,
        new_key: u8,
        score: &F,
        accept: &G,
    ) -> (moved: bool)
        requires
            ctx.wf_full(),
            ctx.wf_simple(),
            old(self).in_step(ctx, old(assignment)@),
            old(self).searches(),
            r < ctx.num_groups(),
            new_key < EQUIV_TABLE_SIZE,
            can_judge(score, accept),
        ensures
            final(self).in_step(ctx, final(assignment)@),
            final(self).searches(),
            final(self).simple_active == old(self).simple_active,
            final(self).rebuilds() == old(self).rebuilds(),
            old(assignment)@[r as int] == new_key ==> !moved,
            moved ==> final(assignment)@ == old(assignment)@.update(r as int, new_key),
            !moved ==> final(assignment)@ == old(assignment)@ && final(self).same_state(old(self)),
            old(assignment)@[r as int] != new_key ==> judged(
                ctx,
                old(self).simple_active,
                score,
                accept,
                old(assignment)@,
                old(assignment)@.update(r as int, new_key),
                moved,
            ),
    {
        if assignment[r] == new_key {
            return false;
        }
        let mut groups: Vec<usize> = Vec::new();
        groups.push(r);
        let mut keys: Vec<u8> = Vec::new();
        keys.push(new_key);
        proof {
            placed_one(assignment@, r, new_key);
            assert(groups@ =~= seq![r]);
            assert(keys@ =~= seq![new_key]);
        }
        self.try_moves(ctx, assignment, &groups, &keys, score, accept)
    }

    /// Swaps the keys of two groups, unless they share one, and keeps them swapped if `accept` says
    /// so of the scores before and after. Otherwise everything is put back.
    pub fn try_swap<S, F: Fn(&Evaluator, &Vec<u8>) -> S, G: Fn(&S, &S) -> bool>(
        &mut self,
        ctx: &OptContext,
        assignment: &mut Vec<u8>,
        r1: usize,
        r2: usize,
        score: &F,
        accept: &G,
    ) -> (moved: bool)
        requires
            ctx.wf_full(),
            ctx.wf_simple(),
            old(self).in_step(ctx, old(assignment)@),
            old(self).searches(),
            r1 < ctx.num_groups(),
            r2 < ctx.num_groups(),
            can_judge(score, accept),
        ensures
            final(self).in_step(ctx, final(assignment)@),
            final(self).searches(),
            final(self).simple_active == old(self).simple_active,
            final(self).rebuilds() == old(self).rebuilds(),
            old(assignment)@[r1 as int] == old(assignment)@[r2 as int] ==> !moved,
            moved ==> final(assignment)@ == swapped(old(assignment)@, r1 as int, r2 as int),
            !moved ==> final(assignment)@ == old(assignment)@ && final(self).same_state(old(self)),
            old(assignment)@[r1 as int] != old(assignment)@[r2 as int] ==> judged(
                ctx,
                old(self).simple_active,
                score,
                accept,
                old(assignment)@,
                swapped(old(assignment)@, r1 as int, r2 as int),
                moved,
            ),
    {
        let k1 = assignment[r1];
        let k2 = assignment[r2];
        if k1 == k2 {
            return false;
        }
        let mut groups: Vec<usize> = Vec::new();
        groups.push(r1);
        groups.push(r2);
        let mut keys: Vec<u8> = Vec::new();
        keys.push(k2);
        keys.push(k1);
        proof {
            placed_two(assignment@, r1, r2, k2, k1);
            assert(groups@ =~= seq![r1, r2]);
            assert(keys@ =~= seq![k2, k1]);
            assert(assignment@[r1 as int] < EQUIV_TABLE_SIZE);
            assert(assignment@[r2 as int] < EQUIV_TABLE_SIZE);
        }
        self.try_moves(ctx, assignment, &groups, &keys, score, accept)
    }
}

/// An assignment with the keys of three groups passed on: the first gets that of the second, the
/// second that of the third, and the third that of the first.
pub open spec fn rotated(a: Seq<u8>, g1: int, g2: int, g3: int) -> Seq<u8> {
    a.update(g1, a[g2]).update(g2, a[g3]).update(g3, a[g1])
}

/// Whether the keys of three groups can be passed on, and make a difference.
pub open spec fn rotatable(ctx: &OptContext, a: Seq<u8>, g1: int, g2: int, g3: int) -> bool {
    &&& !(a[g1] == a[g2] && a[g2] == a[g3])
    &&& ctx.choices(g1).contains(a[g2])
    &&& ctx.choices(g2).contains(a[g3])
    &&& ctx.choices(g3).contains(a[g1])
}

/// A move of three groups.
proof fn placed_three(a: Seq<u8>, r1: usize, r2: usize, r3: usize, k1: u8, k2: u8, k3: u8)
    ensures
        placed(a, seq![r1, r2, r3], seq![k1, k2, k3], 3) == a.update(r1 as int, k1).update(
            r2 as int,
            k2,
        ).update(r3 as int, k3),
{
    reveal_with_fuel(placed, 4);
}

/// Whether a key is on a list.
pub fn lists_key(list: &Vec<u8>, k: u8) -> (r: bool)
    ensures
        r == list@.contains(k),
{
    let mut i: usize = 0;
    while i < list.len()
        invariant
            i <= list@.len(),
            forall|j: int| 0 <= j < i ==> #[trigger] list@[j] != k,
        decreases list@.len() - i,
    {
        if list[i] == k {
            assert(list@[i as int] == k);
            return true;
        }
        i = i + 1;
    }
    false
}

impl Evaluator {
    /// Passes the keys of three groups on, where that is permitted and makes a difference, and keeps
    /// it so if `accept` says so of the scores before and after. Otherwise everything is put back.
    pub fn try_rotation<S, F: Fn(&Evaluator, &Vec<u8>) -> S, G: Fn(&S, &S) -> bool>(
        &mut self,
        ctx: &OptContext,
        assignment: &mut Vec<u8>,
        g1: usize,
        g2: usize,
        g3: usize,
        score: &F,
        accept: &G,
    ) -> (moved: bool)
        requires
            ctx.wf_full(),
            ctx.wf_simple(),
            old(self).in_step(ctx, old(assignment)@),
            old(self).searches(),
            g1 < ctx.num_groups(),
            g2 < ctx.num_groups(),
            g3 < ctx.num_groups(),
            g1 != g2 && g2 != g3 && g1 != g3,
            can_judge(score, accept),
        ensures
            final(self).in_step(ctx, final(assignment)@),
            final(self).searches(),
            final(self).simple_active == old(self).simple_active,
            final(self).rebuilds() == old(self).rebuilds(),
            moved ==> final(assignment)@ == rotated(old(assignment)@, g1 as int, g2 as int, g3 as int),
            !moved ==> final(assignment)@ == old(assignment)@ && final(self).same_state(old(self)),
            !rotatable(ctx, old(assignment)@, g1 as int, g2 as int, g3 as int) ==> !moved,
            rotatable(ctx, old(assignment)@, g1 as int, g2 as int, g3 as int) ==> judged(
                ctx,
                old(self).simple_active,
                score,
                accept,
                old(assignment)@,
                rotated(old(assignment)@, g1 as int, g2 as int, g3 as int),
                moved,
            ),
    {
        let k1 = assignment[g1];
        let k2 = assignment[g2];
        let k3 = assignment[g3];
        if k1 == k2 && k2 == k3 {
            return false;
        }
        if !lists_key(&ctx.groups[g1].allowed_keys, k2) || !lists_key(&ctx.groups[g2].allowed_keys, k3)
            || !lists_key(&ctx.groups[g3].allowed_keys, k1) {
            return false;
        }
        let mut groups: Vec<usize> = Vec::new();
        groups.push(g1);
        groups.push(g2);
        groups.push(g3);
        let mut keys: Vec<u8> = Vec::new();
        keys.push(k2);
        keys.push(k3);
        keys.push(k1);
        proof {
            placed_three(assignment@, g1, g2, g3, k2, k3, k1);
            assert(groups@ =~= seq![g1, g2, g3]);
            assert(keys@ =~= seq![k2, k3, k1]);
            assert(assignment@[g1 as int] < EQUIV_TABLE_SIZE);
            assert(assignment@[g2 as int] < EQUIV_TABLE_SIZE);
            assert(assignment@[g3 as int] < EQUIV_TABLE_SIZE);
        }
        self.try_moves(ctx, assignment, &groups, &keys, score, accept)
    }

    /// Puts a group on another key, for good.
    pub fn apply_move(&mut self, ctx: &OptContext, assignment: &mut Vec<u8>, r: usize, new_key: u8)
        requires
            ctx.wf_full(),
            ctx.wf_simple(),
            old(self).in_step(ctx, old(assignment)@),
            old(self).searches(),
            r < ctx.num_groups(),
            new_key < EQUIV_TABLE_SIZE,
        ensures
            final(assignment)@ == old(assignment)@.update(r as int, new_key),
            final(self).in_step(ctx, final(assignment)@),
            final(self).searches(),
            final(self).simple_active == old(self).simple_active,
            final(self).rebuilds() == old(self).rebuilds(),
    {
        let mut groups: Vec<usize> = Vec::new();
        groups.push(r);
        let mut keys: Vec<u8> = Vec::new();
        keys.push(new_key);
        proof {
            placed_one(assignment@, r, new_key);
            assert(groups@ =~= seq![r]);
            assert(keys@ =~= seq![new_key]);
        }
        self.apply_moves(ctx, assignment, &groups, &keys);
    }

    /// Swaps the keys of two groups, for good.
    pub fn apply_swap(&mut self, ctx: &OptContext, assignment: &mut Vec<u8>, r1: usize, r2: usize)
        requires
            ctx.wf_full(),
            ctx.wf_simple(),
            old(self).in_step(ctx, old(assignment)@),
            old(self).searches(),
            r1 < ctx.num_groups(),
            r2 < ctx.num_groups(),
        ensures
            final(assignment)@ == swapped(old(assignment)@, r1 as int, r2 as int),
            final(self).in_step(ctx, final(assignment)@),
            final(self).searches(),
            final(self).simple_active == old(self).simple_active,
            final(self).rebuilds() == old(self).rebuilds(),
    {
        let k1 = assignment[r1];
        let k2 = assignment[r2];
        let mut groups: Vec<usize> = Vec::new();
        groups.push(r1);
        groups.push(r2);
        let mut keys: Vec<u8> = Vec::new();
        keys.push(k2);
        keys.push(k1);
        proof {
            placed_two(assignment@, r1, r2, k2, k1);
            assert(groups@ =~= seq![r1, r2]);
            assert(keys@ =~= seq![k2, k1]);
            assert(assignment@[r1 as int] < EQUIV_TABLE_SIZE);
            assert(assignment@[r2 as int] < EQUIV_TABLE_SIZE);
        }
        self.apply_moves(ctx, assignment, &groups, &keys);
    }

    /// The score that `score` gives the state with a group on another key. Everything is put back.
    pub fn probe_move<S, F: Fn(&Evaluator, &Vec<u8>) -> S>(
        &mut self,
        ctx: &OptContext,
        assignment: &mut Vec<u8>,
        r: usize,
        new_key: u8,
        score: &F,
    ) -> (s: S)
        requires
            ctx.wf_full(),
            ctx.wf_simple(),
            old(self).in_step(ctx, old(assignment)@),
            old(self).searches(),
            r < ctx.num_groups(),
            new_key < EQUIV_TABLE_SIZE,
            forall|e: &Evaluator, a: &Vec<u8>| call_requires(score, (e, a)),
        ensures
            final(assignment)@ == old(assignment)@,
            final(self).in_step(ctx, final(assignment)@),
            final(self).searches(),
            final(self).same_state(old(self)),
            final(self).rebuilds() == old(self).rebuilds(),
            scored(ctx, old(self).simple_active, score, old(assignment)@.update(r as int, new_key), s),
    {
        let mut groups: Vec<usize> = Vec::new();
        groups.push(r);
        let mut keys: Vec<u8> = Vec::new();
        keys.push(new_key);
        proof {
            placed_one(assignment@, r, new_key);
            assert(groups@ =~= seq![r]);
            assert(keys@ =~= seq![new_key]);
        }
        self.probe_moves(ctx, assignment, &groups, &keys, score)
    }

    /// The score that `score` gives the state with the keys of two groups swapped. Everything is put
    /// back.
    pub fn probe_swap<S, F: Fn(&Evaluator, &Vec<u8>) -> S>(
        &mut self,
        ctx: &OptContext,
        assignment: &mut Vec<u8>,
        r1: usize,
        r2: usize,
        score: &F,
    ) -> (s: S)
        requires
            ctx.wf_full(),
            ctx.wf_simple(),
            old(self).in_step(ctx, old(assignment)@),
            old(self).searches(),
            r1 < ctx.num_groups(),
            r2 < ctx.num_groups(),
            r1 != r2,
            forall|e: &Evaluator, a: &Vec<u8>| call_requires(score, (e, a)),
        ensures
            final(assignment)@ == old(assignment)@,
            final(self).in_step(ctx, final(assignment)@),
            final(self).searches(),
            final(self).same_state(old(self)),
            final(self).rebuilds() == old(self).rebuilds(),
            scored(ctx, old(self).simple_active, score, swapped(old(assignment)@, r1 as int, r2 as int), s),
    {
        let k1 = assignment[r1];
        let k2 = assignment[r2];
        let mut groups: Vec<usize> = Vec::new();
        groups.push(r1);
        groups.push(r2);
        let mut keys: Vec<u8> = Vec::new();
        keys.push(k2);
        keys.push(k1);
        proof {
            placed_two(assignment@, r1, r2, k2, k1);
            assert(groups@ =~= seq![r1, r2]);
            assert(keys@ =~= seq![k2, k1]);
            assert(assignment@[r1 as int] < EQUIV_TABLE_SIZE);
            assert(assignment@[r2 as int] < EQUIV_TABLE_SIZE);
        }
        self.probe_moves(ctx, assignment, &groups, &keys, score)
    }
}

} // verus!
