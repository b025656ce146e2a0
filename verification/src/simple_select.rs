//! Selecting who gets a simple code: bucket by bucket, the best-ranked candidates up to the number
//! of slots, from the lowest level to the highest.

use rustc_hash::FxHashMap;
use vstd::prelude::*;

use crate::bucket_store::{BucketStore, FullBucket};
use crate::context::OptContext;
use crate::fx::fx_get;
use crate::lists::copy_of;
use crate::order::{sort_keys, sorted_strictly, SortKey};
use crate::selection::{owner_touched, SelView, Selection};
use crate::simple_level::{distinct_chars, members_at, LevelView};
use crate::totals::simple_keys_ok;
use crate::types::SimpleAssignMode;

verus! {

/// What a selection is made by: the assignment, who is shown first in the full code buckets, and
/// which codes are the full code of a protected character.
pub struct Terms {
    pub assignment: Seq<u8>,
    pub first: Seq<bool>,
    pub blocked: Set<u32>,
}

impl Terms {
    /// How many candidates may have a code: none where it is blocked.
    pub open spec fn quota(self, ctx: &OptContext, li: int, code: u32) -> int {
        if self.blocked.contains(code) {
            0
        } else {
            ctx.slots(li, code)
        }
    }

    /// What candidates are ranked by: their weight, then their frequency, both falling, then their
    /// index.
    pub open spec fn rank_key(self, ctx: &OptContext, li: int, ci: int) -> SortKey {
        SortKey {
            major: -self.weight(ctx, li, ci) as i128,
            minor: -ctx.freq(ci) as i128,
            id: ci as usize,
        }
    }

    /// The weight of a candidate: its frequency, or its frequency times the strokes that the simple
    /// code saves, counting one for choosing a character that is not shown first.
    pub open spec fn weight(self, ctx: &OptContext, li: int, ci: int) -> int {
        match ctx.simple_assign_mode {
            SimpleAssignMode::Frequency => ctx.freq(ci),
            SimpleAssignMode::Efficiency => ctx.freq(ci) * (ctx.saving(ci, li) + if self.first[ci] {
                0int
            } else {
                1
            }),
        }
    }

    /// The keys of the simple code of the candidate that comes `rank`-th in a bucket.
    pub open spec fn keys_at(self, ctx: &OptContext, li: int, ci: int, code: u32, rank: int) -> Seq<
        u8,
    > {
        let core = match ctx.simple_keys(self.assignment, ci, li) {
            Some(keys) => keys,
            None => Seq::empty(),
        };
        match ctx.commit_key(li, code, rank) {
            Some(k) => core.push(k),
            None => core,
        }
    }

    /// Whether a bucket is settled: its members are in the order of their rank, those within the
    /// quota have their simple code, and nobody else.
    pub open spec fn settled(self, ctx: &OptContext, li: int, level: LevelView, code: u32) -> bool {
        let m = level.members[code];
        &&& forall|i: int, j: int|
            #![trigger m[i], m[j]]
            0 <= i < j < m.len() ==> self.rank_key(ctx, li, m[i] as int).before(
                self.rank_key(ctx, li, m[j] as int),
            )
        &&& forall|i: int|
            #![trigger m[i]]
            0 <= i < m.len() ==> {
                &&& level.selected[m[i] as int] == (i < self.quota(ctx, li, code))
                &&& i < self.quota(ctx, li, code) ==> level.keys[m[i] as int] == self.keys_at(
                    ctx,
                    li,
                    m[i] as int,
                    code,
                    i,
                )
            }
    }
}

/// What a selection depends on beside the context: the assignment, who is shown first in the full
/// code buckets, and which codes protected full codes take.
pub struct Env<'a> {
    pub ctx: &'a OptContext,
    pub assignment: &'a [u8],
    /// Whether each character is shown first in the bucket of its full code.
    pub first: &'a Vec<bool>,
    pub full_buckets: &'a BucketStore<FullBucket>,
    /// How many protected characters have each full code, where only some are protected.
    pub protect: &'a FxHashMap<u32, u32>,
}

impl<'a> Env<'a> {
    /// The parts fit together.
    pub open spec fn wf(&self) -> bool {
        &&& self.ctx.wf_full()
        &&& self.ctx.wf_levels()
        &&& self.ctx.assigns(self.assignment@)
        &&& self.first@.len() == self.ctx.n()
        &&& self.full_buckets.wf()
        &&& self.full_buckets.spec_capacity() == self.ctx.code_space
    }

    /// Whether a code is the full code of a protected character.
    pub open spec fn blocked(&self, code: u32) -> bool {
        if self.ctx.simple_protect_top_n == 0 {
            self.full_buckets@.contains_key(code)
        } else {
            self.protect@.contains_key(code) && self.protect@[code] > 0
        }
    }

    /// What a selection is made by.
    pub open spec fn terms(&self) -> Terms {
        Terms {
            assignment: self.assignment@,
            first: self.first@,
            blocked: Set::new(|code: u32| self.blocked(code)),
        }
    }

    /// See [`Terms::quota`].
    pub open spec fn quota(&self, li: int, code: u32) -> int {
        self.terms().quota(self.ctx, li, code)
    }

    /// See [`Terms::rank_key`].
    pub open spec fn rank_key(&self, li: int, ci: int) -> SortKey {
        self.terms().rank_key(self.ctx, li, ci)
    }

    /// See [`Terms::weight`].
    pub open spec fn weight(&self, li: int, ci: int) -> int {
        self.terms().weight(self.ctx, li, ci)
    }

    /// See [`Terms::keys_at`].
    pub open spec fn keys_at(&self, li: int, ci: int, code: u32, rank: int) -> Seq<u8> {
        self.terms().keys_at(self.ctx, li, ci, code, rank)
    }

    /// Weights fit in the type of sort keys.
    proof fn weight_bound(&self, li: int, ci: int)
        requires
            self.wf(),
            0 <= li < self.ctx.n_levels(),
            0 <= ci < self.ctx.n(),
        ensures
            -0x1_0000_0000_0000_0000_00 <= self.weight(li, ci) <= 0x1_0000_0000_0000_0000_00,
            -8 <= self.ctx.saving(ci, li) <= 8,
    {
        let info = self.ctx.char_infos@[ci];
        let steps = self.ctx.instructions(ci, li);
        let f = self.ctx.freq(ci);
        let s = self.ctx.saving(ci, li) + if self.first@[ci] {
            0int
        } else {
            1
        };
        assert(-9 <= s <= 9);
        assert(-0x1_0000_0000_0000_0000_00 <= f * s <= 0x1_0000_0000_0000_0000_00) by (nonlinear_arith)
            requires
                -9 <= s <= 9,
                0 <= f <= 0x1_0000_0000_0000_0000,
        ;
    }

    /// What a candidate is ranked by.
    pub fn bucket_sort_key(&self, li: usize, ci: usize) -> (k: SortKey)
        requires
            self.wf(),
            li < self.ctx.n_levels(),
            ci < self.ctx.n(),
        ensures
            k == self.rank_key(li as int, ci as int),
            k.id == ci,
    {
        proof {
            self.weight_bound(li as int, ci as int);
        }
        let freq: i128 = self.ctx.char_infos[ci].frequency as i128;
        let weight: i128 = match self.ctx.simple_assign_mode {
            SimpleAssignMode::Frequency => freq,
            SimpleAssignMode::Efficiency => {
                let sel_len: i128 = if self.first[ci] {
                    0
                } else {
                    1
                };
                let row = &self.ctx.simple_base_saving[ci];
                assert(self.ctx.simple_base_saving@[ci as int]@[li as int] == self.ctx.saving(
                    ci as int,
                    li as int,
                ));
                freq * (row[li] as i128 + sel_len)
            },
        };
        SortKey { major: -weight, minor: -freq, id: ci }
    }

    /// Whether a code is the full code of a protected character.
    pub fn is_code_blocked(&self, code: u32) -> (r: bool)
        requires
            self.wf(),
            code < self.ctx.code_space,
        ensures
            r == self.blocked(code),
    {
        if self.ctx.simple_protect_top_n == 0 {
            self.full_buckets.get(code).is_some()
        } else {
            match fx_get(self.protect, code) {
                Some(count) => *count > 0,
                None => false,
            }
        }
    }

    /// How many candidates may have a code.
    pub fn quota_of(&self, li: usize, code: u32) -> (q: usize)
        requires
            self.wf(),
            code < self.ctx.code_space,
            li < self.ctx.n_levels(),
        ensures
            q == self.quota(li as int, code),
    {
        if self.is_code_blocked(code) {
            0
        } else {
            self.ctx.simple_annealing_slots(li, code)
        }
    }

    /// The keys of the simple code of the candidate that comes `rank`-th in a bucket, the commit
    /// key included.
    pub fn fill_keys_with_commit(&self, li: usize, ci: usize, code: u32, rank: usize) -> (keys: Vec<
        u8,
    >)
        requires
            self.wf(),
            li < self.ctx.n_levels(),
            ci < self.ctx.n(),
        ensures
            keys@ == self.keys_at(li as int, ci as int, code, rank as int),
            simple_keys_ok(keys@),
    {
        let mut keys: Vec<u8> = Vec::new();
        let _found = self.ctx.get_simple_keys_into(ci, li, self.assignment, &mut keys);
        proof {
            assert(keys@ =~= match self.ctx.simple_keys(self.assignment@, ci as int, li as int) {
                Some(keys) => keys,
                None => Seq::empty(),
            });
            if self.ctx.simple_parts(ci as int, li as int) is Some {
                self.ctx.simple_code_bound(self.assignment@, ci as int, li as int);
                self.ctx.simple_parts_ok(ci as int, li as int);
            }
        }
        match self.ctx.commit_key_for_rank(li, code, rank) {
            Some(k) => {
                proof {
                    self.ctx.commit_key_is_key(li as int, code, rank as int);
                }
                keys.push(k);
            },
            None => {},
        }
        keys
    }
}

/// Whether a bucket is settled by the terms of `env`.
pub open spec fn settled(env: &Env, li: int, level: LevelView, code: u32) -> bool {
    env.terms().settled(env.ctx, li, level, code)
}

/// Whether codes and buckets of a level agree, and only candidates that contend are selected.
pub open spec fn linked(ctx: &OptContext, li: int, level: LevelView) -> bool {
    &&& forall|ci: int|
        #![trigger level.codes[ci]]
        0 <= ci < ctx.n() && level.codes[ci] is Some ==> {
            let c = level.codes[ci]->0;
            &&& c < ctx.simple_level_capacity@[li]
            &&& c < ctx.code_space
            &&& level.members.contains_key(c)
            &&& level.members[c].contains(ci as u32)
        }
    &&& forall|c: u32, j: int|
        #![trigger level.members[c][j]]
        level.members.contains_key(c) && 0 <= j < level.members[c].len() ==> level.members[c][j]
            < ctx.n() && level.codes[level.members[c][j] as int] == Some(c)
    &&& forall|ci: int|
        0 <= ci < ctx.n() && #[trigger] level.selected[ci] ==> level.codes[ci] is Some
}

/// Whether all levels are linked.
pub open spec fn all_linked(ctx: &OptContext, levels: Seq<LevelView>) -> bool {
    forall|li: int| 0 <= li < ctx.n_levels() ==> linked(ctx, li, #[trigger] levels[li])
}

/// A member of a bucket contends with that bucket's code and no other.
proof fn member_code(ctx: &OptContext, li: int, level: LevelView, c: u32, ci: int)
    requires
        linked(ctx, li, level),
        0 <= ci <= u32::MAX,
        members_at(level.members, c).contains(ci as u32),
    ensures
        level.members.contains_key(c),
        0 <= ci < ctx.n(),
        level.codes[ci] == Some(c),
{
    let m = members_at(level.members, c);
    let j = m.index_of(ci as u32);
    assert(level.members[c][j] == ci as u32);
}

/// The buckets of a character were put down if that of its code was.
proof fn owner_from_code(ctx: &OptContext, sel: &Selection, li: int, ci: int)
    requires
        linked(ctx, li, sel@.levels[li]),
        0 <= ci < ctx.n() <= u32::MAX,
        sel@.levels[li].codes[ci] matches Some(c) ==> sel.touched(li, c),
    ensures
        owner_touched(sel, li, ci),
{
    assert forall|c: u32| members_at(sel@.levels[li].members, c).contains(ci as u32) implies
        #[trigger] sel.touched(li, c) by {
        member_code(ctx, li, sel@.levels[li], c, ci);
    }
}

/// The members of a bucket in the order of their rank.
pub fn ranked_members(env: &Env, li: usize, members: &Vec<u32>) -> (r: Vec<u32>)
    requires
        env.wf(),
        li < env.ctx.n_levels(),
        distinct_chars(env.ctx, members@),
    ensures
        r@.len() == members@.len(),
        distinct_chars(env.ctx, r@),
        forall|x: u32| #[trigger] r@.contains(x) <==> members@.contains(x),
        forall|i: int, j: int|
            #![trigger r@[i], r@[j]]
            0 <= i < j < r@.len() ==> env.rank_key(li as int, r@[i] as int).before(
                env.rank_key(li as int, r@[j] as int),
            ),
{
    let mut keys: Vec<SortKey> = Vec::new();
    let mut i: usize = 0;
    while i < members.len()
        invariant
            i <= members@.len(),
            env.wf(),
            li < env.ctx.n_levels(),
            distinct_chars(env.ctx, members@),
            keys@.len() == i,
            forall|j: int|
                0 <= j < i ==> #[trigger] keys@[j] == env.rank_key(li as int, members@[j] as int)
                    && keys@[j].id == members@[j],
        decreases members@.len() - i,
    {
        assert(members@[i as int] < env.ctx.n());
        let k = env.bucket_sort_key(li, members[i] as usize);
        keys.push(k);
        i = i + 1;
    }
    let ghost before = keys@;
    let keys = sort_keys(keys);
    proof {
        assert forall|a: int, b: int|
            #![trigger before[a], before[b]]
            0 <= a < b < before.len() implies before[a].id != before[b].id by {
            assert(members@[a] != members@[b]);
        }
        sorted_strictly(before, keys@);
        assert forall|j: int| 0 <= j < keys@.len() implies (#[trigger] keys@[j]) == env.rank_key(
            li as int,
            keys@[j].id as int,
        ) && members@.contains(keys@[j].id as u32) && keys@[j].id < env.ctx.n() by {
            assert(keys@.contains(keys@[j]));
            let a = before.index_of(keys@[j]);
            assert(before[a] == keys@[j]);
            assert(members@[a] < env.ctx.n());
        }
    }
    let mut r: Vec<u32> = Vec::new();
    let mut k: usize = 0;
    while k < keys.len()
        invariant
            k <= keys@.len(),
            env.ctx.n() <= u32::MAX,
            forall|j: int| 0 <= j < keys@.len() ==> (#[trigger] keys@[j]).id < env.ctx.n(),
            r@.len() == k,
            forall|j: int| 0 <= j < k ==> #[trigger] r@[j] == keys@[j].id,
        decreases keys@.len() - k,
    {
        assert(keys@[k as int].id < env.ctx.n());
        r.push(keys[k].id as u32);
        k = k + 1;
    }
    proof {
        assert forall|a: int, b: int| 0 <= a < r@.len() && 0 <= b < r@.len() && a != b implies r@[a]
            != r@[b] by {
            if a < b {
                assert(keys@[a].id != keys@[b].id);
            } else {
                assert(keys@[b].id != keys@[a].id);
            }
        }
        assert forall|j: int| 0 <= j < r@.len() implies (#[trigger] r@[j]) < env.ctx.n() by {
            assert(keys@[j].id < env.ctx.n());
        }
        assert forall|x: u32| #[trigger] r@.contains(x) <==> members@.contains(x) by {
            if r@.contains(x) {
                let j = r@.index_of(x);
                assert(keys@[j].id == x);
            }
            if members@.contains(x) {
                let a = members@.index_of(x);
                assert(before.contains(before[a]));
                assert(keys@.contains(before[a]));
                let j = keys@.index_of(before[a]);
                assert(keys@[j] == before[a]);
                assert(r@[j] == x);
            }
        }
        assert forall|a: int, b: int|
            #![trigger r@[a], r@[b]]
            0 <= a < b < r@.len() implies env.rank_key(li as int, r@[a] as int).before(
            env.rank_key(li as int, r@[b] as int),
        ) by {
            assert(keys@[a].before(keys@[b]));
        }
    }
    r
}

/// What settling one bucket does to a selection.
pub open spec fn settles(
    env: &Env,
    li: int,
    code: u32,
    before: SelView,
    after: SelView,
) -> bool {
    let (lv0, lv1) = (before.levels[li], after.levels[li]);
    let m1 = lv1.members[code];
    &&& after.levels == before.levels.update(li, lv1)
    &&& lv1.codes == lv0.codes
    &&& lv0.members.contains_key(code)
    &&& lv1.members == lv0.members.insert(code, m1)
    &&& m1.len() == lv0.members[code].len()
    &&& forall|x: u32| #[trigger] m1.contains(x) <==> lv0.members[code].contains(x)
    &&& settled(env, li, lv1, code)
    &&& lv1.selected.len() == lv0.selected.len()
    &&& lv1.keys.len() == lv0.keys.len()
    &&& after.assigned.len() == before.assigned.len()
    &&& forall|ci: int|
        #![trigger lv1.selected[ci]]
        0 <= ci < env.ctx.n() && lv0.codes[ci] != Some(code) ==> {
            &&& lv1.selected[ci] == lv0.selected[ci]
            &&& lv1.keys[ci] == lv0.keys[ci]
        }
    &&& forall|ci: int|
        #![trigger after.assigned[ci]]
        0 <= ci < env.ctx.n() ==> after.assigned[ci] == if lv1.selected[ci] != lv0.selected[ci] {
            lv1.selected[ci]
        } else {
            before.assigned[ci]
        }
}

/// Whether `list`, from place `from` on, names the characters whose selection at a level changed
/// to `now`, each once.
pub open spec fn notes_changes(
    n: nat,
    list: Seq<usize>,
    from: int,
    was: Seq<bool>,
    is: Seq<bool>,
    now: bool,
) -> bool {
    &&& 0 <= from <= list.len()
    &&& forall|i: int|
        #![trigger list[i]]
        from <= i < list.len() ==> list[i] < n && was[list[i] as int] != now && is[list[i] as int] == now
    &&& forall|i: int, j: int|
        #![trigger list[i], list[j]]
        from <= i < j < list.len() ==> list[i] != list[j]
    &&& forall|ci: int|
        #![trigger is[ci]]
        0 <= ci < n && was[ci] != now && is[ci] == now ==> exists|i: int|
            from <= i < list.len() && #[trigger] list[i] == ci
}

/// Settles a bucket that was put down before: ranks its members, gives those within the quota their
/// simple codes and takes them off the others. Notes who got one and who lost one, and says how many
/// members there are.
#[verifier::spinoff_prover]
pub fn reselect_bucket(
    sel: &mut Selection,
    env: &Env,
    li: usize,
    code: u32,
    newly_sel: &mut Vec<usize>,
    newly_desel: &mut Vec<usize>,
) -> (visited: usize)
    requires
        env.wf(),
        old(sel).sane(env.ctx),
        old(sel).logged(env.ctx),
        li < env.ctx.n_levels(),
        linked(env.ctx, li as int, old(sel)@.levels[li as int]),
        old(sel)@.levels[li as int].members.contains_key(code),
        old(sel).touched(li as int, code),
    ensures
        final(sel).sane(env.ctx),
        final(sel).logged(env.ctx),
        final(sel).base == old(sel).base,
        final(sel).cur_gen == old(sel).cur_gen,
        final(sel).buckets_undo == old(sel).buckets_undo,
        linked(env.ctx, li as int, final(sel)@.levels[li as int]),
        settles(env, li as int, code, old(sel)@, final(sel)@),
        visited == old(sel)@.levels[li as int].members[code].len(),
        final(newly_sel)@.len() - old(newly_sel)@.len() + final(newly_desel)@.len() - old(newly_desel)@.len()
            <= visited,
        old(newly_sel)@.is_prefix_of(final(newly_sel)@),
        old(newly_desel)@.is_prefix_of(final(newly_desel)@),
        notes_changes(
            env.ctx.n(),
            final(newly_sel)@,
            old(newly_sel)@.len() as int,
            old(sel)@.levels[li as int].selected,
            final(sel)@.levels[li as int].selected,
            true,
        ),
        notes_changes(
            env.ctx.n(),
            final(newly_desel)@,
            old(newly_desel)@.len() as int,
            old(sel)@.levels[li as int].selected,
            final(sel)@.levels[li as int].selected,
            false,
        ),
{
    let ctx = env.ctx;
    let ghost v0 = sel@;
    let ghost lv0 = v0.levels[li as int];
    let ghost m0 = lv0.members[code];
    assert(sel.levels@[li as int].sane(ctx, ctx.simple_level_capacity@[li as int]));
    proof {
        sel.sane_sized(ctx);
        let b = sel.levels@[li as int].buckets@[code];
        assert(m0.len() > 0);
        assert(lv0.codes[m0[0] as int] == Some(code));
    }
    let members = match sel.levels[li].buckets.get(code) {
        Some(b) => ranked_members(env, li, &b.members),
        None => Vec::new(),
    };
    let ghost m1 = members@;
    let len = members.len();
    let quota = env.quota_of(li, code);
    proof {
        assert(members_at(lv0.members, code) == m0);
    }
    let order = copy_of(&members);
    sel.reorder_members(ctx, li, code, members);
    let ghost lv_mid = sel@.levels[li as int];
    let mut idx: usize = 0;
    while idx < len
        invariant
            idx <= len == m1.len() == order@.len(),
            order@ == m1,
            ctx == env.ctx,
            env.wf(),
            li < ctx.n_levels(),
            sel.sane(ctx),
            sel.logged(ctx),
            sel.base == old(sel).base,
            sel.cur_gen == old(sel).cur_gen,
            sel.buckets_undo == old(sel).buckets_undo,
            old(sel).touched(li as int, code),
            quota == env.quota(li as int, code),
            v0 == old(sel)@,
            lv0 == v0.levels[li as int],
            lv0.selected.len() == ctx.n(),
            lv0.codes.len() == ctx.n(),
            lv0.keys.len() == ctx.n(),
            v0.assigned.len() == ctx.n(),
            v0.levels.len() == ctx.n_levels(),
            sel@.levels == v0.levels.update(li as int, sel@.levels[li as int]),
            sel@.levels[li as int].codes == lv0.codes,
            sel@.levels[li as int].members == lv0.members.insert(code, m1),
            sel@.levels[li as int].selected.len() == ctx.n(),
            sel@.levels[li as int].keys.len() == ctx.n(),
            sel@.assigned.len() == ctx.n(),
            linked(ctx, li as int, lv0),
            distinct_chars(ctx, m1),
            forall|x: u32| #[trigger] m1.contains(x) <==> m0.contains(x),
            m0 == lv0.members[code],
            lv0.members.contains_key(code),
            forall|i: int|
                #![trigger m1[i]]
                0 <= i < idx ==> {
                    &&& sel@.levels[li as int].selected[m1[i] as int] == (i < quota)
                    &&& i < quota ==> sel@.levels[li as int].keys[m1[i] as int] == env.keys_at(
                        li as int,
                        m1[i] as int,
                        code,
                        i,
                    )
                },
            forall|i: int|
                #![trigger m1[i]]
                idx <= i < len ==> sel@.levels[li as int].selected[m1[i] as int]
                    == lv0.selected[m1[i] as int],
            forall|ci: int|
                #![trigger sel@.levels[li as int].selected[ci]]
                0 <= ci < ctx.n() && !m1.contains(ci as u32) ==> sel@.levels[li as int].selected[ci]
                    == lv0.selected[ci] && sel@.levels[li as int].keys[ci] == lv0.keys[ci],
            forall|ci: int|
                #![trigger sel@.assigned[ci]]
                0 <= ci < ctx.n() ==> sel@.assigned[ci] == if sel@.levels[li as int].selected[ci]
                    != lv0.selected[ci] {
                    sel@.levels[li as int].selected[ci]
                } else {
                    v0.assigned[ci]
                },
            newly_sel@.len() - old(newly_sel)@.len() + newly_desel@.len() - old(newly_desel)@.len() <= idx,
            old(newly_sel)@.is_prefix_of(newly_sel@),
            old(newly_desel)@.is_prefix_of(newly_desel@),
            notes_changes(
                ctx.n(),
                newly_sel@,
                old(newly_sel)@.len() as int,
                lv0.selected,
                sel@.levels[li as int].selected,
                true,
            ),
            notes_changes(
                ctx.n(),
                newly_desel@,
                old(newly_desel)@.len() as int,
                lv0.selected,
                sel@.levels[li as int].selected,
                false,
            ),
        decreases len - idx,
    {
        let ci = order[idx] as usize;
        let ghost lv = sel@.levels[li as int];
        let ghost before = sel@;
        let ghost news = newly_sel@;
        let ghost news_d = newly_desel@;
        proof {
            assert(m1[idx as int] < ctx.n());
            assert(m1.contains(m1[idx as int]));
            assert(m0.contains(ci as u32));
            let j = m0.index_of(ci as u32);
            assert(lv0.members[code][j] == ci as u32);
            assert(lv0.codes[ci as int] == Some(code));
            relinked(ctx, li as int, lv0, lv, code, m1);
            owner_from_code(ctx, sel, li as int, ci as int);
            assert(lv.selected[ci as int] == lv0.selected[ci as int]);
        }
        assert(sel.levels@[li as int].sane(ctx, ctx.simple_level_capacity@[li as int]));
        let was_sel = sel.levels[li].selected[ci];
        let now_sel = idx < quota;
        if now_sel && !was_sel {
            let keys = env.fill_keys_with_commit(li, ci, code, idx);
            sel.select_char(ctx, li, ci, keys);
            newly_sel.push(ci);
        } else if !now_sel && was_sel {
            sel.deselect_char(ctx, li, ci);
            newly_desel.push(ci);
        } else if now_sel && was_sel {
            let keys = env.fill_keys_with_commit(li, ci, code, idx);
            sel.refresh_char(ctx, li, ci, keys);
        }
        proof {
            let lv1 = sel@.levels[li as int];
            assert(sel@.levels =~= v0.levels.update(li as int, lv1));
            changes_noted(
                ctx.n(),
                news,
                newly_sel@,
                old(newly_sel)@.len() as int,
                lv0.selected,
                lv.selected,
                lv1.selected,
                true,
                ci as int,
            );
            changes_noted(
                ctx.n(),
                news_d,
                newly_desel@,
                old(newly_desel)@.len() as int,
                lv0.selected,
                lv.selected,
                lv1.selected,
                false,
                ci as int,
            );
        }
        idx = idx + 1;
    }
    proof {
        let lv1 = sel@.levels[li as int];
        relinked(ctx, li as int, lv0, lv1, code, m1);
        assert forall|ci: int| #![trigger lv1.selected[ci]] 0 <= ci < ctx.n() && lv0.codes[ci] != Some(code) implies {
            &&& lv1.selected[ci] == lv0.selected[ci]
            &&& lv1.keys[ci] == lv0.keys[ci]
        } by {
            assert((ci as u32) as int == ci);
            if m1.contains(ci as u32) {
                assert(m0.contains(ci as u32));
                let j = m0.index_of(ci as u32);
                assert(lv0.members[code][j] == ci as u32);
                assert(lv0.codes[lv0.members[code][j] as int] == Some(code));
            } else {
                let x = sel@.levels[li as int].selected[ci];
            }
        }
        assert forall|ci: int| 0 <= ci < ctx.n() && #[trigger] lv1.selected[ci] implies lv1.codes[ci] is Some by {
            if m1.contains(ci as u32) {
                let j = m0.index_of(ci as u32);
                assert(lv0.members[code][j] == ci as u32);
            }
        }
        assert(lv1.members[code] == m1);
        assert(settled(env, li as int, lv1, code));
        assert(settles(env, li as int, code, v0, sel@));
    }
    len
}

/// Reordering a bucket keeps codes and buckets in agreement.
proof fn relinked(
    ctx: &OptContext,
    li: int,
    lv0: LevelView,
    lv1: LevelView,
    code: u32,
    m1: Seq<u32>,
)
    requires
        linked(ctx, li, lv0),
        lv0.members.contains_key(code),
        ctx.n() <= u32::MAX,
        lv1.codes == lv0.codes,
        lv1.members == lv0.members.insert(code, m1),
        forall|x: u32| #[trigger] m1.contains(x) <==> lv0.members[code].contains(x),
        forall|ci: int|
            #![trigger lv1.selected[ci]]
            0 <= ci < ctx.n() && !m1.contains(ci as u32) ==> lv1.selected[ci] == lv0.selected[ci],
    ensures
        linked(ctx, li, lv1),
{
    assert forall|ci: int|
        #![trigger lv1.codes[ci]]
        0 <= ci < ctx.n() && lv1.codes[ci] is Some implies {
        let c = lv1.codes[ci]->0;
        &&& c < ctx.simple_level_capacity@[li]
        &&& c < ctx.code_space
        &&& lv1.members.contains_key(c)
        &&& lv1.members[c].contains(ci as u32)
    } by {
        assert(lv0.codes[ci] is Some);
    }
    assert forall|c: u32, j: int|
        #![trigger lv1.members[c][j]]
        lv1.members.contains_key(c) && 0 <= j < lv1.members[c].len() implies lv1.members[c][j]
        < ctx.n() && lv1.codes[lv1.members[c][j] as int] == Some(c) by {
        if c == code {
            assert(m1.contains(m1[j]));
            let k = lv0.members[code].index_of(m1[j]);
            assert(lv0.members[code][k] == m1[j]);
        } else {
            assert(lv0.members[c][j] == lv1.members[c][j]);
        }
    }
    assert forall|ci: int| 0 <= ci < ctx.n() && #[trigger] lv1.selected[ci] implies lv1.codes[ci] is Some by {
        if m1.contains(ci as u32) {
            let k = lv0.members[code].index_of(ci as u32);
            assert(lv0.members[code][k] == ci as u32);
        } else {
            assert(lv0.selected[ci]);
        }
    }
}

/// The notes stay right when one character's selection has changed and it was noted, or it has not
/// changed.
proof fn changes_noted(
    n: nat,
    list: Seq<usize>,
    list2: Seq<usize>,
    from: int,
    was: Seq<bool>,
    mid: Seq<bool>,
    is: Seq<bool>,
    now: bool,
    ci: int,
)
    requires
        notes_changes(n, list, from, was, mid, now),
        was.len() == n,
        mid.len() == n,
        is.len() == n,
        0 <= ci < n <= usize::MAX,
        mid[ci] == was[ci],
        forall|cj: int| 0 <= cj < n && cj != ci ==> #[trigger] is[cj] == mid[cj],
        list2 == if was[ci] != now && is[ci] == now {
            list.push(ci as usize)
        } else {
            list
        },
    ensures
        notes_changes(n, list2, from, was, is, now),
{
    assert forall|i: int|
        #![trigger list2[i]]
        from <= i < list2.len() implies list2[i] < n && was[list2[i] as int] != now && is[list2[i] as int]
        == now by {
        if i < list.len() {
            assert(list2[i] == list[i]);
            assert(mid[list[i] as int] == now);
            assert(list[i] != ci);
            assert(is[list[i] as int] == mid[list[i] as int]);
        }
    }
    assert forall|i: int, j: int|
        #![trigger list2[i], list2[j]]
        from <= i < j < list2.len() implies list2[i] != list2[j] by {
        assert(list2[i] == list[i]);
        if j < list.len() {
            assert(list2[j] == list[j]);
        } else {
            assert(mid[list[i] as int] == now);
        }
    }
    assert forall|cj: int|
        #![trigger is[cj]]
        0 <= cj < n && was[cj] != now && is[cj] == now implies exists|i: int|
        from <= i < list2.len() && #[trigger] list2[i] == cj by {
        if cj == ci {
            assert(list2[list.len() as int] == ci);
        } else {
            assert(mid[cj] == now);
            let i = choose|i: int| from <= i < list.len() && #[trigger] list[i] == cj;
            assert(list2[i] == cj);
        }
    }
}

/// Whether a level has changed in nothing but buckets, and in the entries of one character.
pub open spec fn moved_one(
    n: nat,
    before: LevelView,
    after: LevelView,
    ci: int,
    code: Option<u32>,
    selected: bool,
) -> bool {
    &&& after.codes == before.codes.update(ci, code)
    &&& after.selected == before.selected.update(ci, selected)
    &&& after.keys == before.keys
}

/// Moves a candidate to the bucket of another code at a level.
pub fn relocate(sel: &mut Selection, ctx: &OptContext, li: usize, ci: usize, new_code: u32)
    requires
        ctx.wf_full(),
        ctx.wf_levels(),
        old(sel).sane(ctx),
        old(sel).logged(ctx),
        li < ctx.n_levels(),
        ci < ctx.n(),
        linked(ctx, li as int, old(sel)@.levels[li as int]),
        old(sel)@.levels[li as int].codes[ci as int] is Some,
        old(sel)@.levels[li as int].codes[ci as int] != Some(new_code),
        new_code < ctx.simple_level_capacity@[li as int],
        new_code < ctx.code_space,
    ensures
        final(sel).sane(ctx),
        final(sel).logged(ctx),
        final(sel).base == old(sel).base,
        final(sel)@ == old(sel)@.with_level(li as int, final(sel)@.levels[li as int]),
        linked(ctx, li as int, final(sel)@.levels[li as int]),
        moved_one(
            ctx.n(),
            old(sel)@.levels[li as int],
            final(sel)@.levels[li as int],
            ci as int,
            Some(new_code),
            old(sel)@.levels[li as int].selected[ci as int],
        ),
        forall|l: int, c: u32|
            0 <= l < ctx.n_levels() ==> (#[trigger] final(sel).touched(l, c) <==> old(sel).touched(l, c)
                || (l == li && (c == new_code || Some(c) == old(sel)@.levels[li as int].codes[ci as int]))),
{
    let ghost v0 = sel@;
    let ghost lv0 = v0.levels[li as int];
    assert(sel.levels@[li as int].sane(ctx, ctx.simple_level_capacity@[li as int]));
    match sel.levels[li].current_simple_code[ci] {
        None => {},
        Some(old_code) => {
            proof {
                assert(lv0.codes[ci as int] == Some(old_code));
                assert(members_at(lv0.members, old_code).contains(ci as u32));
            }
            sel.bucket_remove_member(ctx, li, old_code, ci);
            let ghost lv1 = sel@.levels[li as int];
            proof {
                if members_at(lv1.members, new_code).contains(ci as u32) {
                    member_code(ctx, li as int, lv0, new_code, ci as int);
                }
            }
            sel.bucket_insert_member(ctx, li, new_code, ci);
            let ghost lv2 = sel@.levels[li as int];
            sel.set_code(ctx, li, ci, Some(new_code));
            proof {
                let lv3 = sel@.levels[li as int];
                assert(sel@ =~= v0.with_level(li as int, lv3));
                assert(lv3.selected =~= lv0.selected.update(ci as int, lv0.selected[ci as int]));
                assert forall|c: u32, x: u32|
                    #![trigger members_at(lv3.members, c).contains(x)]
                    members_at(lv3.members, c).contains(x) <==> if x == ci {
                        Some(new_code) == Some(c)
                    } else {
                        members_at(lv0.members, c).contains(x)
                    } by {
                    assert(members_at(lv0.members, old_code).contains(x) || !members_at(
                        lv0.members,
                        old_code,
                    ).contains(x));
                    if c == new_code {
                        pushed_contains(members_at(lv1.members, new_code), ci as u32, x);
                    } else if x == ci && c != old_code && members_at(lv0.members, c).contains(x) {
                        member_code(ctx, li as int, lv0, c, ci as int);
                    }
                }
                sel.sane_sized(ctx);
                relocated_linked(ctx, li as int, lv0, lv3, ci as int, Some(old_code), Some(new_code));
            }
        },
    }
}

/// Codes and buckets agree after one character has left the bucket of `from` and entered that of
/// `to`.
proof fn relocated_linked(
    ctx: &OptContext,
    li: int,
    lv0: LevelView,
    lv1: LevelView,
    ci: int,
    from: Option<u32>,
    to: Option<u32>,
)
    requires
        linked(ctx, li, lv0),
        0 <= ci < ctx.n() <= u32::MAX,
        lv0.codes.len() == ctx.n(),
        lv0.selected.len() == ctx.n(),
        lv0.codes[ci] == from,
        lv1.codes == lv0.codes.update(ci, to),
        lv1.selected.len() == ctx.n(),
        forall|cj: int|
            0 <= cj < ctx.n() && cj != ci ==> #[trigger] lv1.selected[cj] == lv0.selected[cj],
        lv1.selected[ci] ==> to is Some,
        to matches Some(c) ==> c < ctx.simple_level_capacity@[li] && c < ctx.code_space,
        from != to,
        forall|c: u32|
            #![trigger lv1.members.contains_key(c)]
            lv1.members.contains_key(c) ==> lv1.members[c].len() > 0,
        forall|c: u32, x: u32|
            #![trigger members_at(lv1.members, c).contains(x)]
            members_at(lv1.members, c).contains(x) <==> if x == ci {
                to == Some(c)
            } else {
                members_at(lv0.members, c).contains(x)
            },
    ensures
        linked(ctx, li, lv1),
{
    assert forall|cj: int|
        #![trigger lv1.codes[cj]]
        0 <= cj < ctx.n() && lv1.codes[cj] is Some implies {
        let c = lv1.codes[cj]->0;
        &&& c < ctx.simple_level_capacity@[li]
        &&& c < ctx.code_space
        &&& lv1.members.contains_key(c)
        &&& lv1.members[c].contains(cj as u32)
    } by {
        let c = lv1.codes[cj]->0;
        if cj != ci {
            assert(lv0.codes[cj] == Some(c));
            assert(members_at(lv0.members, c).contains(cj as u32));
        }
        assert(members_at(lv1.members, c).contains(cj as u32));
        let k = members_at(lv1.members, c).index_of(cj as u32);
        assert(members_at(lv1.members, c)[k] == cj as u32);
    }
    assert forall|c: u32, j: int|
        #![trigger lv1.members[c][j]]
        lv1.members.contains_key(c) && 0 <= j < lv1.members[c].len() implies lv1.members[c][j]
        < ctx.n() && lv1.codes[lv1.members[c][j] as int] == Some(c) by {
        let x = lv1.members[c][j];
        assert(members_at(lv1.members, c).contains(x));
        if x != ci {
            member_code(ctx, li, lv0, c, x as int);
        }
    }
    assert forall|cj: int| 0 <= cj < ctx.n() && #[trigger] lv1.selected[cj] implies lv1.codes[cj] is Some by {
        if cj != ci {
            assert(lv0.selected[cj]);
        }
    }
}

/// Lets a candidate contend at a level.
pub fn enrol(sel: &mut Selection, ctx: &OptContext, li: usize, ci: usize, code: u32)
    requires
        ctx.wf_full(),
        ctx.wf_levels(),
        old(sel).sane(ctx),
        old(sel).logged(ctx),
        li < ctx.n_levels(),
        ci < ctx.n(),
        linked(ctx, li as int, old(sel)@.levels[li as int]),
        old(sel)@.levels[li as int].codes[ci as int] is None,
        code < ctx.simple_level_capacity@[li as int],
        code < ctx.code_space,
    ensures
        final(sel).sane(ctx),
        final(sel).logged(ctx),
        final(sel).base == old(sel).base,
        final(sel)@ == old(sel)@.with_level(li as int, final(sel)@.levels[li as int]),
        linked(ctx, li as int, final(sel)@.levels[li as int]),
        moved_one(
            ctx.n(),
            old(sel)@.levels[li as int],
            final(sel)@.levels[li as int],
            ci as int,
            Some(code),
            false,
        ),
        forall|l: int, c: u32|
            0 <= l < ctx.n_levels() ==> (#[trigger] final(sel).touched(l, c) <==> old(sel).touched(l, c)
                || (l == li && c == code)),
{
    let ghost v0 = sel@;
    let ghost lv0 = v0.levels[li as int];
    assert(sel.levels@[li as int].sane(ctx, ctx.simple_level_capacity@[li as int]));
    proof {
        if members_at(lv0.members, code).contains(ci as u32) {
            member_code(ctx, li as int, lv0, code, ci as int);
        }
    }
    sel.bucket_insert_member(ctx, li, code, ci);
    let ghost lv1 = sel@.levels[li as int];
    sel.set_code(ctx, li, ci, Some(code));
    proof {
        let lv2 = sel@.levels[li as int];
        assert(sel@ =~= v0.with_level(li as int, lv2));
        assert(!lv0.selected[ci as int]);
        assert(lv2.selected =~= lv0.selected.update(ci as int, false));
        let m = members_at(lv0.members, code);
        assert forall|c: u32, x: u32|
            #![trigger members_at(lv2.members, c).contains(x)]
            members_at(lv2.members, c).contains(x) <==> if x == ci {
                Some(code) == Some(c)
            } else {
                members_at(lv0.members, c).contains(x)
            } by {
            if c == code {
                pushed_contains(m, ci as u32, x);
            } else if x == ci && members_at(lv0.members, c).contains(x) {
                member_code(ctx, li as int, lv0, c, ci as int);
            }
        }
        sel.sane_sized(ctx);
        relocated_linked(ctx, li as int, lv0, lv2, ci as int, None, Some(code));
    }
}

/// What a sequence contains after an element was appended.
proof fn pushed_contains(m: Seq<u32>, y: u32, x: u32)
    ensures
        m.push(y).contains(x) <==> m.contains(x) || x == y,
{
    if m.contains(x) {
        let k = m.index_of(x);
        assert(m.push(y)[k] == x);
    }
    if x == y {
        assert(m.push(y)[m.len() as int] == y);
    }
}

/// Takes a candidate out of the contest at a level, with its simple code there if it has one, and
/// leaves its mark alone.
pub fn expel(sel: &mut Selection, ctx: &OptContext, li: usize, ci: usize)
    requires
        ctx.wf_full(),
        ctx.wf_levels(),
        old(sel).sane(ctx),
        old(sel).logged(ctx),
        li < ctx.n_levels(),
        ci < ctx.n(),
        linked(ctx, li as int, old(sel)@.levels[li as int]),
    ensures
        final(sel).sane(ctx),
        final(sel).logged(ctx),
        final(sel).base == old(sel).base,
        final(sel)@ == old(sel)@.with_level(li as int, final(sel)@.levels[li as int]),
        linked(ctx, li as int, final(sel)@.levels[li as int]),
        moved_one(
            ctx.n(),
            old(sel)@.levels[li as int],
            final(sel)@.levels[li as int],
            ci as int,
            None,
            false,
        ),
        forall|l: int, c: u32|
            0 <= l < ctx.n_levels() ==> (#[trigger] final(sel).touched(l, c) <==> old(sel).touched(l, c)
                || (l == li && Some(c) == old(sel)@.levels[li as int].codes[ci as int])),
{
    let ghost v0 = sel@;
    let ghost lv0 = v0.levels[li as int];
    assert(sel.levels@[li as int].sane(ctx, ctx.simple_level_capacity@[li as int]));
    match sel.levels[li].current_simple_code[ci] {
        None => {
            proof {
                assert(lv0.codes[ci as int] is None);
                assert(!lv0.selected[ci as int]);
                assert(lv0.codes =~= lv0.codes.update(ci as int, None));
                assert(lv0.selected =~= lv0.selected.update(ci as int, false));
                assert(sel@ =~= v0.with_level(li as int, lv0));
            }
        },
        Some(code) => {
            assert(lv0.codes[ci as int] == Some(code));
            sel.touch_bucket(ctx, li, code);
            let was_sel = sel.levels[li].selected[ci];
            if was_sel {
                proof {
                    owner_from_code(ctx, sel, li as int, ci as int);
                }
                sel.deselect_contrib_only(ctx, li, ci);
            }
            let ghost lv1 = sel@.levels[li as int];
            assert(lv1.selected =~= lv0.selected.update(ci as int, false));
            assert(lv1.members == lv0.members);
            sel.bucket_remove_member(ctx, li, code, ci);
            let ghost lv2 = sel@.levels[li as int];
            sel.set_code(ctx, li, ci, None);
            proof {
                let lv3 = sel@.levels[li as int];
                assert(sel@ =~= v0.with_level(li as int, lv3));
                assert forall|c: u32, x: u32|
                    #![trigger members_at(lv3.members, c).contains(x)]
                    members_at(lv3.members, c).contains(x) <==> if x == ci {
                        None::<u32> == Some(c)
                    } else {
                        members_at(lv0.members, c).contains(x)
                    } by {
                    let was = members_at(lv1.members, code).contains(x);
                    assert(members_at(lv2.members, code).contains(x) <==> was && x != ci);
                    assert(lv3.members == lv2.members);
                    if c != code {
                        assert(members_at(lv2.members, c) == members_at(lv1.members, c));
                    }
                    if x == ci && c != code && members_at(lv0.members, c).contains(x) {
                        member_code(ctx, li as int, lv0, c, ci as int);
                    }
                }
                sel.sane_sized(ctx);
                relocated_linked(ctx, li as int, lv0, lv3, ci as int, Some(code), None);
            }
        },
    }
}

} // verus!
