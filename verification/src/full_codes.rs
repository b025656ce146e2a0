//! The buckets of full codes, kept up to date while single characters change their codes.

use vstd::prelude::*;

use crate::bucket_store::{Bucket, BucketStore, FullBucket};
use crate::collisions::{
    enumerates, excess, excess_by_code, hidden_by_code, hidden_freq, max_of, max_of_bounds, max_of_le_sum,
    max_of_unique, max_over_members, nobody, ones, recode_one, recode_totals, sum_over_members,
    total_excess, total_hidden, totals_bound, weights,
};
use crate::context::OptContext;
use crate::sums::{sum, sum_at_least, sum_constant, sum_le, sum_nonnegative, sum_update};

verus! {

/// Whether a character is shown first in its bucket: it is the most frequent, and the earliest of
/// the most frequent.
pub open spec fn is_best(ctx: &OptContext, codes: Seq<u32>, ci: int) -> bool {
    forall|cj: int|
        0 <= cj < ctx.n() && cj != ci && #[trigger] codes[cj] == codes[ci] ==> better(ctx, ci, cj)
}

/// Whether a character is shown before another.
pub open spec fn better(ctx: &OptContext, a: int, b: int) -> bool {
    ctx.freq(a) > ctx.freq(b) || (ctx.freq(a) == ctx.freq(b) && a < b)
}

/// The full code of every character, the buckets that the codes make, and the collisions in them.
pub struct FullCodes {
    /// The code of each character.
    pub current_codes: Vec<u32>,
    /// The characters of each code.
    pub full_buckets: BucketStore<FullBucket>,
    /// Where each character stands in its bucket.
    pub char_bucket_pos: Vec<usize>,
    /// Whether each character is shown first in its bucket.
    pub is_first_candidate: Vec<bool>,
    /// The candidates for simple codes whose mark in `is_first_candidate` was written since the
    /// list was last emptied.
    pub simple_is_first_dirty: Vec<usize>,
    /// How many characters share a code with a better one.
    pub total_collisions: usize,
    /// The frequency of those characters.
    pub collision_frequency: u64,
}

/// Whether `pos` gives every character's place in the bucket of its code, and the buckets hold
/// nobody else.
pub open spec fn all_placed(
    n: nat,
    space: int,
    codes: Seq<u32>,
    pos: Seq<usize>,
    view: Map<u32, FullBucket>,
) -> bool {
    &&& codes.len() == n
    &&& pos.len() == n
    &&& forall|ci: int|
        #![trigger codes[ci]]
        0 <= ci < n ==> codes[ci] < space && view.contains_key(codes[ci])
    &&& forall|ci: int|
        #![trigger pos[ci]]
        0 <= ci < n ==> {
            &&& pos[ci] < view[codes[ci]].members@.len()
            &&& view[codes[ci]].members@[pos[ci] as int] == ci
        }
    &&& forall|c: u32, j: int|
        #![trigger view[c].members@[j]]
        view.contains_key(c) && 0 <= j < view[c].members@.len() ==> {
            &&& view[c].members@[j] < n
            &&& codes[view[c].members@[j] as int] == c
            &&& pos[view[c].members@[j] as int] == j
        }
    &&& forall|c: u32| #[trigger] view.contains_key(c) ==> view[c].members@.len() > 0
}

/// Everybody is at their place after one character has moved to another bucket.
proof fn placed_after_move(
    ctx: &OptContext,
    codes: Seq<u32>,
    pos: Seq<usize>,
    view: Map<u32, FullBucket>,
    ci: int,
    new_code: u32,
    pos2: Seq<usize>,
    view2: Map<u32, FullBucket>,
)
    requires
        ctx.wf_full(),
        all_placed(ctx.n(), ctx.code_space as int, codes, pos, view),
        0 <= ci < ctx.n(),
        codes[ci] != new_code,
        new_code < ctx.code_space,
        ({
            let old_code = codes[ci];
            let m = view[old_code].members@;
            let rest = m.update(pos[ci] as int, m.last()).drop_last();
            let target = if view.contains_key(new_code) {
                view[new_code].members@
            } else {
                Seq::<u32>::empty()
            };
            &&& pos2 == pos.update(m.last() as int, pos[ci]).update(ci, target.len() as usize)
            &&& target.len() <= usize::MAX
            &&& forall|c: u32| #[trigger]
                view2.contains_key(c) <==> (c == new_code || (c == old_code && rest.len() > 0) || (c
                    != old_code && view.contains_key(c)))
            &&& rest.len() > 0 ==> view2[old_code].members@ == rest
            &&& view2[new_code].members@ == target.push(ci as u32)
            &&& forall|c: u32|
                #![trigger view2[c]]
                c != old_code && c != new_code && view.contains_key(c) ==> view2[c] == view[c]
        }),
    ensures
        all_placed(ctx.n(), ctx.code_space as int, codes.update(ci, new_code), pos2, view2),
{
    let codes2 = codes.update(ci, new_code);
    let old_code = codes[ci];
    let p = pos[ci] as int;
    let m = view[old_code].members@;
    let last = m.last() as int;
    let rest = m.update(p, m.last()).drop_last();
    assert(m[p] == ci);
    assert(m[m.len() - 1] == last && codes[last] == old_code && pos[last] == m.len() - 1);
    assert forall|cj: int| #![trigger codes2[cj]] 0 <= cj < ctx.n() implies codes2[cj]
        < ctx.code_space && view2.contains_key(codes2[cj]) by {
        assert(codes[cj] < ctx.code_space);
        if cj != ci && codes[cj] == old_code {
            let q = pos[cj];
            assert(m[q as int] == cj);
        }
    }
    assert forall|cj: int| #![trigger pos2[cj]] 0 <= cj < ctx.n() implies {
        &&& pos2[cj] < view2[codes2[cj]].members@.len()
        &&& view2[codes2[cj]].members@[pos2[cj] as int] == cj
    } by {
        let q = pos[cj] as int;
        assert(view.contains_key(codes[cj]));
        if cj == ci {
            assert(view2.contains_key(new_code));
        } else {
            assert(codes2[cj] == codes[cj]);
            if codes[cj] == old_code {
                assert(m[q] == cj);
                if cj == last {
                    assert(rest[p] == cj);
                } else {
                    assert(q != m.len() - 1);
                    assert(q != p);
                    assert(rest[q] == cj);
                }
                assert(view2.contains_key(old_code));
            } else if codes[cj] == new_code {
                assert(view[new_code].members@[q] == cj);
                assert(view2.contains_key(new_code));
            } else {
                assert(view2.contains_key(codes[cj]));
                assert(view2[codes[cj]] == view[codes[cj]]);
            }
        }
    }
    assert forall|c: u32, j: int|
        #![trigger view2[c].members@[j]]
        view2.contains_key(c) && 0 <= j < view2[c].members@.len() implies {
        &&& view2[c].members@[j] < ctx.n()
        &&& codes2[view2[c].members@[j] as int] == c
        &&& pos2[view2[c].members@[j] as int] == j
    } by {
        if c == new_code {
            if view.contains_key(new_code) && j < view[new_code].members@.len() {
                let x = view[new_code].members@[j];
                assert(codes[x as int] == new_code);
            }
        } else if c == old_code {
            if j == p {
                assert(rest[j] == last);
                assert(last != ci);
            } else {
                assert(rest[j] == m[j]);
                assert(codes[m[j] as int] == old_code && pos[m[j] as int] == j);
            }
        } else {
            let x = view[c].members@[j];
            assert(codes[x as int] == c);
        }
    }
    assert forall|c: u32| #[trigger] view2.contains_key(c) implies view2[c].members@.len() > 0 by {
        if c != old_code && c != new_code {
            assert(view.contains_key(c) && view2[c] == view[c]);
        }
    }
}

impl FullCodes {
    /// Where characters stand: every character at its place in the bucket of its code, and nobody
    /// else anywhere.
    pub open spec fn placed(&self, ctx: &OptContext) -> bool {
        all_placed(
            ctx.n(),
            ctx.code_space as int,
            self.current_codes@,
            self.char_bucket_pos@,
            self.full_buckets@,
        )
    }

    /// The sums and maxima of the buckets.
    pub open spec fn weighed(&self, ctx: &OptContext) -> bool {
        forall|c: u32| #[trigger]
            self.full_buckets@.contains_key(c) ==> {
                let b = self.full_buckets@[c];
                let w = weights(ctx, self.current_codes@, nobody(ctx.n()), c);
                b.freq_sum == sum(w) && b.max_freq == max_of(w)
            }
    }

    /// The marks of the characters that are shown first.
    pub open spec fn firsts_right(&self, ctx: &OptContext) -> bool {
        let codes = self.current_codes@;
        let view = self.full_buckets@;
        &&& forall|ci: int|
            0 <= ci < ctx.n() ==> #[trigger] self.is_first_candidate@[ci] == is_best(ctx, codes, ci)
        &&& forall|c: u32| #[trigger]
            view.contains_key(c) ==> {
                let first = view[c].first;
                first < ctx.n() && codes[first as int] == c && is_best(ctx, codes, first as int)
            }
    }

    /// The state agrees with the recorded codes. Where `track` is set, so do the marks of the
    /// characters that are shown first.
    pub open spec fn inv(&self, ctx: &OptContext, track: bool) -> bool {
        &&& self.full_buckets.wf()
        &&& self.full_buckets.pristine()
        &&& self.full_buckets.spec_capacity() == ctx.code_space
        &&& self.placed(ctx)
        &&& self.weighed(ctx)
        &&& self.total_collisions == total_excess(ctx, self.current_codes@, nobody(ctx.n()))
        &&& self.collision_frequency == total_hidden(ctx, self.current_codes@, nobody(ctx.n()))
        &&& self.is_first_candidate@.len() == ctx.n()
        &&& track ==> self.firsts_right(ctx)
        &&& self.dirty_ok(ctx)
    }

    /// The list of written marks holds candidates.
    pub open spec fn dirty_ok(&self, ctx: &OptContext) -> bool {
        forall|i: int|
            0 <= i < self.simple_is_first_dirty@.len() ==> (#[trigger] self.simple_is_first_dirty@[i])
                < ctx.n() && ctx.simple_is_candidate@[self.simple_is_first_dirty@[i] as int]
    }

    /// The members of a bucket are the characters with its code.
    pub proof fn bucket_enumerates(&self, ctx: &OptContext, c: u32)
        requires
            self.placed(ctx),
            self.full_buckets@.contains_key(c),
        ensures
            enumerates(self.full_buckets@[c].members@, self.current_codes@, c),
    {
        let codes = self.current_codes@;
        let m = self.full_buckets@[c].members@;
        assert forall|i: int, j: int| 0 <= i < m.len() && 0 <= j < m.len() && i != j implies m[i]
            != m[j] by {
            assert(self.char_bucket_pos@[m[i] as int] == i);
            assert(self.char_bucket_pos@[m[j] as int] == j);
        }
        assert forall|ci: int| 0 <= ci < codes.len() && #[trigger] codes[ci] == c implies m.contains(
            ci as u32,
        ) by {
            let p = self.char_bucket_pos@[ci] as int;
            assert(m[p] == ci);
        }
    }

    /// A code without a bucket is nobody's code.
    pub proof fn absent_is_unused(&self, ctx: &OptContext, c: u32)
        requires
            self.placed(ctx),
            !self.full_buckets@.contains_key(c),
        ensures
            forall|ci: int| 0 <= ci < ctx.n() ==> #[trigger] self.current_codes@[ci] != c,
    {
        assert forall|ci: int| 0 <= ci < ctx.n() implies #[trigger] self.current_codes@[ci] != c by {
            let p = self.char_bucket_pos@[ci];
        }
    }
}

/// The numbers of a bucket, from the list of its members.
pub proof fn bucket_numbers(ctx: &OptContext, codes: Seq<u32>, c: u32, members: Seq<u32>)
    requires
        ctx.wf_full(),
        codes.len() == ctx.n(),
        enumerates(members, codes, c),
    ensures
        sum(ones(ctx, codes, nobody(ctx.n()), c)) == members.len(),
        max_of(weights(ctx, codes, nobody(ctx.n()), c)) == max_of(
            Seq::new(members.len(), |j: int| ctx.freq(members[j] as int)),
        ),
        sum(weights(ctx, codes, nobody(ctx.n()), c)) == sum(
            Seq::new(members.len(), |j: int| ctx.freq(members[j] as int)),
        ),
        0 <= max_of(weights(ctx, codes, nobody(ctx.n()), c)) <= sum(
            weights(ctx, codes, nobody(ctx.n()), c),
        ) <= ctx.total_frequency,
{
    let one = ones(ctx, codes, nobody(ctx.n()), c);
    let w = weights(ctx, codes, nobody(ctx.n()), c);
    assert forall|i: int| 0 <= i < one.len() && #[trigger] one[i] != 0 implies members.contains(
        i as u32,
    ) by {
        assert(codes[i] == c);
    }
    assert forall|i: int| 0 <= i < w.len() && #[trigger] w[i] != 0 implies members.contains(i as u32) by {
        assert(codes[i] == c);
    }
    sum_over_members(members, one);
    sum_over_members(members, w);
    max_over_members(members, w);
    assert(Seq::new(members.len(), |j: int| one[members[j] as int]) =~= Seq::new(
        members.len(),
        |i: int| 1int,
    ));
    assert(Seq::new(members.len(), |j: int| w[members[j] as int]) =~= Seq::new(
        members.len(),
        |j: int| ctx.freq(members[j] as int),
    ));
    sum_constant(members.len(), 1);
    max_of_bounds(w);
    max_of_le_sum(w);
    sum_le(w, ctx.freqs());
}

/// The largest frequency among the members and the member that is shown first.
pub(crate) fn rescan_bucket_first(ctx: &OptContext, members: &Vec<u32>) -> (r: (u64, u32))
    requires
        ctx.wf_full(),
        members@.len() > 0,
        forall|j: int| 0 <= j < members@.len() ==> (#[trigger] members@[j]) < ctx.n(),
    ensures
        r.0 == max_of(Seq::new(members@.len(), |j: int| ctx.freq(members@[j] as int))),
        members@.contains(r.1),
        forall|j: int|
            0 <= j < members@.len() && #[trigger] members@[j] != r.1 ==> better(
                ctx,
                r.1 as int,
                members@[j] as int,
            ),
{
    let mut max_f: u64 = 0;
    let mut first: u32 = u32::MAX;
    let mut i: usize = 0;
    let ghost f_seq = Seq::new(members@.len(), |j: int| ctx.freq(members@[j] as int));
    while i < members.len()
        invariant
            i <= members@.len(),
            ctx.wf_full(),
            forall|j: int| 0 <= j < members@.len() ==> (#[trigger] members@[j]) < ctx.n(),
            i == 0 ==> first == u32::MAX && max_f == 0,
            i > 0 ==> exists|j: int| 0 <= j < i && #[trigger] members@[j] == first,
            i > 0 ==> first < ctx.n() && max_f == ctx.freq(first as int),
            forall|j: int|
                0 <= j < i && #[trigger] members@[j] != first ==> better(
                    ctx,
                    first as int,
                    members@[j] as int,
                ),
        decreases members@.len() - i,
    {
        let ci = members[i];
        assert(members@[i as int] < ctx.n());
        let f = ctx.char_infos[ci as usize].frequency;
        if f > max_f || (f == max_f && ci < first) {
            max_f = f;
            first = ci;
        }
        i = i + 1;
    }
    proof {
        let j = choose|j: int| 0 <= j < members@.len() && #[trigger] members@[j] == first;
        assert(f_seq[j] == max_f);
        assert forall|k: int| 0 <= k < f_seq.len() implies #[trigger] f_seq[k] <= max_f by {
            if members@[k] != first {
                assert(better(ctx, first as int, members@[k] as int));
            }
        }
        max_of_unique(f_seq, max_f as int);
    }
    (max_f, first)
}

/// The largest frequency among the members.
pub(crate) fn rescan_bucket_max(ctx: &OptContext, members: &Vec<u32>) -> (max_f: u64)
    requires
        forall|j: int| 0 <= j < members@.len() ==> (#[trigger] members@[j]) < ctx.n(),
    ensures
        max_f == max_of(Seq::new(members@.len(), |j: int| ctx.freq(members@[j] as int))),
{
    let mut max_f: u64 = 0;
    let mut i: usize = 0;
    let ghost f_seq = Seq::new(members@.len(), |j: int| ctx.freq(members@[j] as int));
    assert(f_seq.take(0) =~= Seq::<int>::empty());
    while i < members.len()
        invariant
            i <= members@.len(),
            forall|j: int| 0 <= j < members@.len() ==> (#[trigger] members@[j]) < ctx.n(),
            f_seq == Seq::new(members@.len(), |j: int| ctx.freq(members@[j] as int)),
            max_f == max_of(f_seq.take(i as int)),
        decreases members@.len() - i,
    {
        assert(members@[i as int] < ctx.n());
        assert(f_seq.take(i + 1).drop_last() =~= f_seq.take(i as int));
        let f = ctx.char_infos[members[i] as usize].frequency;
        if f > max_f {
            max_f = f;
        }
        i = i + 1;
    }
    assert(f_seq.take(f_seq.len() as int) =~= f_seq);
    max_f
}

/// Whether `x` is a member that is shown before all others.
pub open spec fn leads(ctx: &OptContext, members: Seq<u32>, x: u32) -> bool {
    &&& members.contains(x)
    &&& forall|j: int|
        0 <= j < members.len() && #[trigger] members[j] != x ==> better(
            ctx,
            x as int,
            members[j] as int,
        )
}

/// The member that leads its bucket is shown first, and the other way round.
proof fn leads_is_best(ctx: &OptContext, codes: Seq<u32>, c: u32, members: Seq<u32>, x: u32)
    requires
        codes.len() == ctx.n(),
        ctx.n() <= u32::MAX,
        x < ctx.n(),
        codes[x as int] == c,
        enumerates(members, codes, c),
    ensures
        leads(ctx, members, x) == is_best(ctx, codes, x as int),
{
    assert(members.contains(x as int as u32));
    if leads(ctx, members, x) {
        assert forall|cj: int|
            0 <= cj < ctx.n() && cj != x && #[trigger] codes[cj] == codes[x as int] implies better(
            ctx,
            x as int,
            cj,
        ) by {
            let j = members.index_of(cj as u32);
            assert(members[j] == cj as u32);
        }
    }
    if is_best(ctx, codes, x as int) {
        assert forall|j: int| 0 <= j < members.len() && #[trigger] members[j] != x implies better(
            ctx,
            x as int,
            members[j] as int,
        ) by {
            assert(codes[members[j] as int] == c);
        }
    }
}

/// Of the characters with one code, the leader is the one that is shown first.
proof fn only_leader_is_best(
    ctx: &OptContext,
    codes: Seq<u32>,
    c: u32,
    members: Seq<u32>,
    first: u32,
    cj: int,
)
    requires
        codes.len() == ctx.n(),
        ctx.n() <= u32::MAX,
        enumerates(members, codes, c),
        leads(ctx, members, first),
        0 <= cj < ctx.n(),
        codes[cj] == c,
    ensures
        first < ctx.n(),
        codes[first as int] == c,
        is_best(ctx, codes, cj) == (cj == first),
        is_best(ctx, codes, first as int),
{
    let k = members.index_of(first);
    assert(members[k] == first);
    leads_is_best(ctx, codes, c, members, first);
    if is_best(ctx, codes, cj) && cj != first {
        assert(codes[first as int] == codes[cj]);
        assert(better(ctx, cj, first as int));
        assert(better(ctx, first as int, cj));
    }
}

/// The marks after one character has moved to another bucket.
proof fn firsts_after_move(
    ctx: &OptContext,
    codes: Seq<u32>,
    ci: int,
    new_code: u32,
    view: Map<u32, FullBucket>,
    first: Seq<bool>,
    view2: Map<u32, FullBucket>,
    first2: Seq<bool>,
)
    requires
        ctx.wf_full(),
        codes.len() == ctx.n(),
        first.len() == ctx.n(),
        first2.len() == ctx.n(),
        0 <= ci < ctx.n(),
        codes[ci] != new_code,
        forall|cj: int| 0 <= cj < ctx.n() ==> #[trigger] first[cj] == is_best(ctx, codes, cj),
        forall|c: u32| #[trigger]
            view.contains_key(c) ==> {
                let x = view[c].first;
                x < ctx.n() && codes[x as int] == c && is_best(ctx, codes, x as int)
            },
        forall|c: u32| #[trigger]
            view2.contains_key(c) ==> c == new_code || c == codes[ci] || (view.contains_key(c)
                && view2[c] == view[c]),
        view2.contains_key(new_code),
        forall|cj: int|
            0 <= cj < ctx.n() && cj != ci && #[trigger] codes[cj] == codes[ci] ==> view2.contains_key(
                codes[ci],
            ),
        forall|c: u32|
            (c == new_code || c == codes[ci]) && #[trigger] view2.contains_key(c) ==> {
                &&& enumerates(view2[c].members@, codes.update(ci, new_code), c)
                &&& leads(ctx, view2[c].members@, view2[c].first)
            },
        forall|cj: int|
            0 <= cj < ctx.n() ==> #[trigger] first2[cj] == if cj == ci || codes[cj] == new_code {
                cj == view2[new_code].first
            } else if codes[cj] == codes[ci] {
                cj == view2[codes[ci]].first
            } else {
                first[cj]
            },
    ensures
        forall|cj: int|
            0 <= cj < ctx.n() ==> #[trigger] first2[cj] == is_best(
                ctx,
                codes.update(ci, new_code),
                cj,
            ),
        forall|c: u32| #[trigger]
            view2.contains_key(c) ==> {
                let x = view2[c].first;
                x < ctx.n() && codes.update(ci, new_code)[x as int] == c && is_best(
                    ctx,
                    codes.update(ci, new_code),
                    x as int,
                )
            },
{
    let codes2 = codes.update(ci, new_code);
    let old_code = codes[ci];
    assert forall|cj: int| 0 <= cj < ctx.n() implies #[trigger] first2[cj] == is_best(
        ctx,
        codes2,
        cj,
    ) by {
        if cj == ci || codes[cj] == new_code {
            assert(codes2[cj] == new_code);
            only_leader_is_best(
                ctx,
                codes2,
                new_code,
                view2[new_code].members@,
                view2[new_code].first,
                cj,
            );
        } else if codes[cj] == old_code {
            only_leader_is_best(
                ctx,
                codes2,
                old_code,
                view2[old_code].members@,
                view2[old_code].first,
                cj,
            );
        } else {
            best_elsewhere(ctx, codes, ci, new_code, cj);
        }
    }
    assert forall|c: u32| #[trigger] view2.contains_key(c) implies {
        let x = view2[c].first;
        x < ctx.n() && codes2[x as int] == c && is_best(ctx, codes2, x as int)
    } by {
        let x = view2[c].first;
        if c == new_code || c == old_code {
            let m = view2[c].members@;
            let k = m.index_of(x);
            assert(m[k] == x);
            only_leader_is_best(ctx, codes2, c, m, x, x as int);
        } else {
            best_elsewhere(ctx, codes, ci, new_code, x as int);
        }
    }
}

/// Buckets that a character neither leaves nor enters keep their first character.
proof fn best_elsewhere(ctx: &OptContext, codes: Seq<u32>, ci: int, new_code: u32, cj: int)
    requires
        codes.len() == ctx.n(),
        0 <= ci < ctx.n(),
        0 <= cj < ctx.n(),
        cj != ci,
        codes[cj] != codes[ci],
        codes[cj] != new_code,
    ensures
        is_best(ctx, codes.update(ci, new_code), cj) == is_best(ctx, codes, cj),
{
    let codes2 = codes.update(ci, new_code);
    if is_best(ctx, codes, cj) {
        assert forall|ck: int|
            0 <= ck < ctx.n() && ck != cj && #[trigger] codes2[ck] == codes2[cj] implies better(
            ctx,
            cj,
            ck,
        ) by {
            assert(codes[ck] == codes[cj]);
        }
    }
    if is_best(ctx, codes2, cj) {
        assert forall|ck: int|
            0 <= ck < ctx.n() && ck != cj && #[trigger] codes[ck] == codes[cj] implies better(
            ctx,
            cj,
            ck,
        ) by {
            assert(codes2[ck] == codes2[cj]);
        }
    }
}

/// Takes `ci` out of its bucket, from place `pos`. Returns the member that is shown first where the
/// bucket was searched for it.
fn take_member(
    ctx: &OptContext,
    b: &mut FullBucket,
    pos: usize,
    ci: u32,
    track: bool,
    Ghost(codes): Ghost<Seq<u32>>,
    Ghost(c): Ghost<u32>,
) -> (first_set: Option<u32>)
    requires
        ctx.wf_full(),
        codes.len() == ctx.n(),
        enumerates(old(b).members@, codes, c),
        old(b).freq_sum == sum(weights(ctx, codes, nobody(ctx.n()), c)),
        old(b).max_freq == max_of(weights(ctx, codes, nobody(ctx.n()), c)),
        pos < old(b).members@.len(),
        old(b).members@[pos as int] == ci,
        track ==> leads(ctx, old(b).members@, old(b).first),
    ensures
        final(b).members@ == old(b).members@.update(pos as int, old(b).members@.last()).drop_last(),
        final(b).freq_sum == sum(weights(ctx, codes, nobody(ctx.n()), c).update(ci as int, 0)),
        final(b).max_freq == max_of(weights(ctx, codes, nobody(ctx.n()), c).update(ci as int, 0)),
        track && final(b).members@.len() > 0 ==> leads(ctx, final(b).members@, final(b).first),
        match first_set {
            Some(x) => track && final(b).members@.len() > 0 && final(b).first == x,
            None => track && final(b).members@.len() > 0 ==> ci != old(b).first,
        },
        track && final(b).members@.len() > 0 && old(b).first != ci ==> final(b).first == old(b).first,
{
    let ghost w = weights(ctx, codes, nobody(ctx.n()), c);
    let ghost before = b.members@;
    let ghost after = before.update(pos as int, before.last()).drop_last();
    proof {
        bucket_numbers(ctx, codes, c, before);
        assert(codes[ci as int] == c);
        assert(w[ci as int] == ctx.freq(ci as int));
        sum_update(w, ci as int, 0);
        sum_at_least(w, ci as int);
        max_of_bounds(w);
        assert forall|j: int| 0 <= j < after.len() implies #[trigger] after[j] != ci && before.contains(
            after[j],
        ) by {
            if j == pos {
                assert(after[j] == before[before.len() - 1]);
            } else {
                assert(after[j] == before[j]);
            }
        }
        assert forall|k: int| 0 <= k < before.len() && #[trigger] before[k] != ci implies after.contains(
            before[k],
        ) by {
            if k == before.len() - 1 {
                assert(after[pos as int] == before[k]);
            } else {
                assert(after[k] == before[k]);
            }
        }
        let rest = w.update(ci as int, 0);
        assert forall|i: int| 0 <= i < rest.len() && #[trigger] rest[i] != 0 implies after.contains(
            i as u32,
        ) by {
            assert(w[i] != 0);
            assert(codes[i] == c);
            let k = before.index_of(i as u32);
            assert(before[k] == i as u32);
        }
        assert forall|j: int| 0 <= j < after.len() implies (#[trigger] after[j]) < rest.len() by {
            let k = before.index_of(after[j]);
            assert(before[k] == after[j]);
        }
        max_over_members(after, rest);
        assert(Seq::new(after.len(), |j: int| rest[after[j] as int]) =~= Seq::new(
            after.len(),
            |j: int| ctx.freq(after[j] as int),
        )) by {
            assert forall|j: int| 0 <= j < after.len() implies rest[after[j] as int] == ctx.freq(
                after[j] as int,
            ) by {
                let k = before.index_of(after[j]);
                assert(before[k] == after[j]);
                assert(codes[after[j] as int] == c);
            }
        }
    }
    let freq = ctx.char_infos[ci as usize].frequency;
    b.members.swap_remove(pos);
    b.freq_sum = b.freq_sum - freq;
    let mut first_set: Option<u32> = None;
    if freq >= b.max_freq {
        if b.members.len() == 0 {
            b.max_freq = 0;
            if track {
                b.first = u32::MAX;
            }
        } else if track {
            let (max_f, first) = rescan_bucket_first(ctx, &b.members);
            b.max_freq = max_f;
            proof {
                let x = b.first;
                let kx = before.index_of(x);
                assert(before[kx] == x);
                leader_stays(ctx, codes, c, before, x, after, first, ci);
            }
            b.first = first;
            first_set = Some(first);
        } else {
            b.max_freq = rescan_bucket_max(ctx, &b.members);
        }
    } else {
        proof {
            let rest = w.update(ci as int, 0);
            let i = choose|i: int| 0 <= i < w.len() && #[trigger] w[i] == max_of(w);
            assert(rest[i] == w[i]);
            assert forall|k: int| 0 <= k < rest.len() implies #[trigger] rest[k] <= max_of(w) by {
                assert(w[k] <= max_of(w));
            }
            max_of_unique(rest, max_of(w));
            if track {
                let x = old(b).first;
                assert(codes[i] == c);
                let k = before.index_of(i as u32);
                assert(before[k] == i as u32);
                if x == ci {
                    assert(better(ctx, ci as int, before[k] as int));
                }
                assert(x != ci);
                let kx = before.index_of(x);
                assert(before[kx] == x);
                assert(after.contains(x));
                assert forall|j: int| 0 <= j < after.len() && #[trigger] after[j] != x implies better(
                    ctx,
                    x as int,
                    after[j] as int,
                ) by {
                    let kk = before.index_of(after[j]);
                    assert(before[kk] == after[j]);
                }
            }
        }
    }
    first_set
}

/// Puts `ci` into the bucket of a code that it did not have. Returns whether it is shown first now,
/// where that is kept.
fn put_member(
    ctx: &OptContext,
    b: &mut FullBucket,
    ci: u32,
    track: bool,
    Ghost(codes): Ghost<Seq<u32>>,
    Ghost(c): Ghost<u32>,
) -> (becomes_first: bool)
    requires
        ctx.wf_full(),
        codes.len() == ctx.n(),
        ci < ctx.n(),
        codes[ci as int] != c,
        enumerates(old(b).members@, codes, c),
        old(b).members@.len() > 0 ==> old(b).freq_sum == sum(
            weights(ctx, codes, nobody(ctx.n()), c),
        ) && old(b).max_freq == max_of(weights(ctx, codes, nobody(ctx.n()), c)),
        old(b).members@.len() == 0 ==> old(b).freq_sum == 0 && old(b).max_freq == 0 && old(b).first
            == u32::MAX,
        track && old(b).members@.len() > 0 ==> leads(ctx, old(b).members@, old(b).first),
    ensures
        final(b).members@ == old(b).members@.push(ci),
        final(b).freq_sum == sum(
            weights(ctx, codes, nobody(ctx.n()), c).update(ci as int, ctx.freq(ci as int)),
        ),
        final(b).max_freq == max_of(
            weights(ctx, codes, nobody(ctx.n()), c).update(ci as int, ctx.freq(ci as int)),
        ),
        track ==> leads(ctx, final(b).members@, final(b).first),
        track ==> final(b).first == if becomes_first { ci } else { old(b).first },
        track && becomes_first ==> old(b).members@.len() == 0 || old(b).first != ci,
        track && !becomes_first ==> old(b).members@.len() > 0,
        !track ==> final(b).first == old(b).first,
{
    let ghost w = weights(ctx, codes, nobody(ctx.n()), c);
    let ghost w2 = w.update(ci as int, ctx.freq(ci as int));
    let ghost before = b.members@;
    let ghost after = before.push(ci);
    proof {
        bucket_numbers(ctx, codes, c, before);
        assert(w[ci as int] == 0);
        sum_update(w, ci as int, ctx.freq(ci as int));
        sum_le(w2, ctx.freqs());
        max_of_bounds(w);
        if before.len() == 0 {
            assert(Seq::new(before.len(), |j: int| ctx.freq(before[j] as int)) =~= Seq::<int>::empty());
        }
        let m = if ctx.freq(ci as int) > max_of(w) {
            ctx.freq(ci as int)
        } else {
            max_of(w)
        };
        assert forall|k: int| 0 <= k < w2.len() implies #[trigger] w2[k] <= m by {
            assert(w[k] <= max_of(w));
        }
        if m != 0 {
            if m == ctx.freq(ci as int) {
                assert(w2[ci as int] == m);
            } else {
                let i = choose|i: int| 0 <= i < w.len() && #[trigger] w[i] == max_of(w);
                assert(w2[i] == m);
            }
        }
        max_of_unique(w2, m);
        if before.len() > 0 && track {
            let x = b.first;
            let kx = before.index_of(x);
            assert(before[kx] == x);
            assert(x != ci);
            assert(w[x as int] == ctx.freq(x as int));
            if max_of(w) > ctx.freq(x as int) {
                let i = choose|i: int| 0 <= i < w.len() && #[trigger] w[i] == max_of(w);
                assert(codes[i] == c);
                let k = before.index_of(i as u32);
                assert(before[k] == i as u32);
                assert(better(ctx, x as int, before[k] as int));
            }
            assert(max_of(w) == ctx.freq(x as int));
        }
    }
    let freq = ctx.char_infos[ci as usize].frequency;
    b.members.push(ci);
    b.freq_sum = b.freq_sum + freq;
    let mut becomes_first: bool = false;
    if track {
        if b.first == u32::MAX || freq > b.max_freq || (freq == b.max_freq && ci < b.first) {
            becomes_first = true;
            b.first = ci;
        }
        proof {
            let x = old(b).first;
            assert forall|j: int| 0 <= j < after.len() && #[trigger] after[j] != b.first implies better(
                ctx,
                b.first as int,
                after[j] as int,
            ) by {
                if j < before.len() {
                    assert(after[j] == before[j]);
                    if before[j] != x {
                        assert(better(ctx, x as int, before[j] as int));
                    }
                } else {
                    assert(after[j] == ci);
                }
            }
            if becomes_first {
                assert(after[before.len() as int] == ci);
            } else {
                let kx = before.index_of(x);
                assert(after[kx] == x);
            }
        }
    }
    if freq > b.max_freq {
        b.max_freq = freq;
    }
    becomes_first
}

/// What moving `ci` from its bucket to that of `new_code` does to the marks.
pub struct FirstChange {
    /// The first member of the bucket that was left, where it was searched for.
    pub first_set: Option<u32>,
    /// Whether `ci` is shown first in the bucket that it entered.
    pub becomes_first: bool,
    /// The member that was shown first there before; `u32::MAX` where the bucket was empty.
    pub prev_first: u32,
}

/// Whether a change fits the buckets before and after.
spec fn change_fits(
    change: FirstChange,
    ci: int,
    old_code: u32,
    new_code: u32,
    view: Map<u32, FullBucket>,
    view2: Map<u32, FullBucket>,
) -> bool {
    &&& match change.first_set {
        Some(x) => view2.contains_key(old_code) && view2[old_code].first == x,
        None => view2.contains_key(old_code) ==> ci != view[old_code].first,
    }
    &&& view2.contains_key(old_code) && view[old_code].first != ci ==> view2[old_code].first
        == view[old_code].first
    &&& view2.contains_key(new_code)
    &&& view2[new_code].first == if change.becomes_first {
        ci as u32
    } else {
        view[new_code].first
    }
    &&& !change.becomes_first ==> view.contains_key(new_code)
    &&& change.prev_first == if view.contains_key(new_code) {
        view[new_code].first
    } else {
        u32::MAX
    }
}

impl FullCodes {
    /// Notes that the mark of `ci` was written, if `ci` is a candidate for simple codes.
    fn note_first_written(&mut self, ctx: &OptContext, ci: u32)
        requires
            ci < ctx.n(),
            ctx.simple_is_candidate@.len() == ctx.n(),
            old(self).dirty_ok(ctx),
        ensures
            final(self).dirty_ok(ctx),
            final(self).current_codes == old(self).current_codes,
            final(self).full_buckets == old(self).full_buckets,
            final(self).char_bucket_pos == old(self).char_bucket_pos,
            final(self).is_first_candidate == old(self).is_first_candidate,
            final(self).total_collisions == old(self).total_collisions,
            final(self).collision_frequency == old(self).collision_frequency,
            final(self).simple_is_first_dirty@ == if ctx.simple_is_candidate@[ci as int] {
                old(self).simple_is_first_dirty@.push(ci as usize)
            } else {
                old(self).simple_is_first_dirty@
            },
    {
        if ctx.simple_is_candidate[ci as usize] {
            self.simple_is_first_dirty.push(ci as usize);
        }
    }

    /// Moves a character to the bucket of another code, and keeps everything but the marks.
    fn rebucket(&mut self, ctx: &OptContext, ci: usize, new_code: u32, track: bool) -> (change:
        FirstChange)
        requires
            ctx.wf_full(),
            ci < ctx.n(),
            new_code < ctx.code_space,
            old(self).current_codes@[ci as int] != new_code,
            old(self).inv(ctx, track),
        ensures
            final(self).inv(ctx, false),
            final(self).current_codes@ == old(self).current_codes@.update(ci as int, new_code),
            final(self).is_first_candidate == old(self).is_first_candidate,
            final(self).simple_is_first_dirty == old(self).simple_is_first_dirty,
            track ==> change_fits(
                change,
                ci as int,
                old(self).current_codes@[ci as int],
                new_code,
                old(self).full_buckets@,
                final(self).full_buckets@,
            ),
            track ==> forall|c: u32| #[trigger]
                final(self).full_buckets@.contains_key(c) ==> if c == new_code || c == old(
                    self,
                ).current_codes@[ci as int] {
                    leads(ctx, final(self).full_buckets@[c].members@, final(self).full_buckets@[c].first)
                } else {
                    old(self).full_buckets@.contains_key(c) && final(self).full_buckets@[c] == old(
                        self,
                    ).full_buckets@[c]
                },
    {
        let old_code = self.current_codes[ci];
        let ghost codes = self.current_codes@;
        let ghost codes2 = codes.update(ci as int, new_code);
        let ghost nb = nobody(ctx.n());
        let ghost v0 = self.full_buckets@;
        let ghost pos0 = self.char_bucket_pos@;
        let pos = self.char_bucket_pos[ci];
        proof {
            self.bucket_enumerates(ctx, old_code);
            bucket_numbers(ctx, codes, old_code, v0[old_code].members@);
            recode_one(ctx, codes, nb, ci as int, new_code, old_code);
            recode_one(ctx, codes, nb, ci as int, new_code, new_code);
            recode_totals(ctx, codes, nb, ci as int, new_code);
            totals_bound(ctx, codes, nb);
            if track {
                let x = v0[old_code].first;
                leads_is_best(ctx, codes, old_code, v0[old_code].members@, x);
            }
            if v0.contains_key(new_code) {
                self.bucket_enumerates(ctx, new_code);
                bucket_numbers(ctx, codes, new_code, v0[new_code].members@);
                if track {
                    let x = v0[new_code].first;
                    leads_is_best(ctx, codes, new_code, v0[new_code].members@, x);
                }
            } else {
                self.absent_is_unused(ctx, new_code);
            }
        }
        // Out of the old bucket.
        let ob = self.full_buckets.get_mut_or_insert(old_code);
        let old_cc: usize = ob.members.len() - 1;
        let old_cf: u64 = ob.freq_sum - ob.max_freq;
        let moved = ob.members[ob.members.len() - 1];
        let first_set = take_member(
            ctx,
            ob,
            pos,
            ci as u32,
            track,
            Ghost(codes),
            Ghost(old_code),
        );
        let left = ob.members.len();
        let left_cc: usize = if left >= 1 { left - 1 } else { 0 };
        let ghost w_left = weights(ctx, codes, nb, old_code).update(ci as int, 0);
        proof {
            max_of_le_sum(w_left);
        }
        let left_cf: u64 = ob.freq_sum - ob.max_freq;
        let ghost ob2 = *ob;
        if left == 0 {
            self.full_buckets.remove(old_code);
        }
        self.char_bucket_pos.set(moved as usize, pos);
        let ghost v1 = self.full_buckets@;
        assert(v1 == if left == 0 { v0.remove(old_code) } else { v0.insert(old_code, ob2) });
        // Into the new one.
        let nbk = self.full_buckets.get_mut_or_insert(new_code);
        let new_pos = nbk.members.len();
        let prev_first = nbk.first;
        let new_cc: usize = if new_pos >= 1 { new_pos - 1 } else { 0 };
        proof {
            if new_pos == 0 {
                assert(enumerates(nbk.members@, codes, new_code));
                bucket_numbers(ctx, codes, new_code, nbk.members@);
                assert(Seq::new(nbk.members@.len(), |j: int| ctx.freq(nbk.members@[j] as int))
                    =~= Seq::<int>::empty());
            }
        }
        let new_cf: u64 = nbk.freq_sum - nbk.max_freq;
        let becomes_first = put_member(
            ctx,
            nbk,
            ci as u32,
            track,
            Ghost(codes),
            Ghost(new_code),
        );
        let ghost w_new = weights(ctx, codes, nb, new_code).update(
            ci as int,
            ctx.freq(ci as int),
        );
        proof {
            max_of_le_sum(w_new);
        }
        let after_cc: usize = new_pos;
        let after_cf: u64 = nbk.freq_sum - nbk.max_freq;
        let ghost nb2 = *nbk;
        self.char_bucket_pos.set(ci, new_pos);
        self.current_codes.set(ci, new_code);
        let ghost v2 = self.full_buckets@;
        assert(v2 == v1.insert(new_code, nb2));
        proof {
            placed_after_move(ctx, codes, pos0, v0, ci as int, new_code, self.char_bucket_pos@, v2);
            let x = excess_by_code(ctx, codes, nb);
            let y = hidden_by_code(ctx, codes, nb);
            assert(x[old_code as int] == excess(ctx, codes, nb, old_code) == old_cc);
            assert(y[old_code as int] == hidden_freq(ctx, codes, nb, old_code) == old_cf);
            sum_update(ones(ctx, codes, nb, old_code), ci as int, 0);
            sum_update(ones(ctx, codes, nb, new_code), ci as int, 1);
            assert(excess(ctx, codes2, nb, old_code) == left_cc);
            assert(excess(ctx, codes, nb, new_code) == new_cc);
            assert(excess(ctx, codes2, nb, new_code) == after_cc);
            assert(x[new_code as int] == new_cc);
            assert(y[new_code as int] == new_cf);
            totals_bound(ctx, codes2, nb);
            sum_at_least(x, old_code as int);
            sum_update(x, old_code as int, 0);
            sum_at_least(x.update(old_code as int, 0), new_code as int);
            sum_at_least(y, old_code as int);
            sum_update(y, old_code as int, 0);
            sum_at_least(y.update(old_code as int, 0), new_code as int);
        }
        self.total_collisions = self.total_collisions - old_cc - new_cc + left_cc + after_cc;
        self.collision_frequency = self.collision_frequency - old_cf - new_cf + left_cf + after_cf;
        assert(self.weighed(ctx)) by {
            assert forall|c: u32| #[trigger] self.full_buckets@.contains_key(c) implies ({
                let b = self.full_buckets@[c];
                let w = weights(ctx, self.current_codes@, nobody(ctx.n()), c);
                b.freq_sum == sum(w) && b.max_freq == max_of(w)
            }) by {
                recode_one(ctx, codes, nb, ci as int, new_code, c);
                if c != old_code && c != new_code {
                    assert(v0.contains_key(c));
                }
            }
        }
        FirstChange { first_set, becomes_first, prev_first }
    }

    /// Gives a character the code that it has under `assignment`, and moves it to that bucket.
    /// Where `track` is set, the marks of the characters that are shown first follow, and the
    /// candidates whose marks were written are noted. Nothing changes where the code stays.
    pub fn update_char(&mut self, ctx: &OptContext, assignment: &[u8], ci: usize, track: bool)
        requires
            ctx.wf_full(),
            ctx.assigns(assignment@),
            ci < ctx.n(),
            track ==> ctx.simple_is_candidate@.len() == ctx.n(),
            old(self).inv(ctx, track),
        ensures
            final(self).inv(ctx, track),
            final(self).current_codes@ == old(self).current_codes@.update(
                ci as int,
                ctx.full_code(assignment@, ci as int),
            ),
            old(self).current_codes@[ci as int] == ctx.full_code(assignment@, ci as int) ==> *final(self)
                == *old(self),
            !track ==> final(self).is_first_candidate == old(self).is_first_candidate
                && final(self).simple_is_first_dirty == old(self).simple_is_first_dirty,
            track ==> written_noted(
                ctx,
                old(self).is_first_candidate@,
                final(self).is_first_candidate@,
                old(self).simple_is_first_dirty@,
                final(self).simple_is_first_dirty@,
            ),
    {
        let old_code = self.current_codes[ci];
        let new_code = ctx.calc_code_only(ci, assignment);
        if old_code == new_code {
            assert(self.current_codes@ =~= old(self).current_codes@.update(ci as int, new_code));
            return;
        }
        let ghost codes = self.current_codes@;
        let ghost v0 = self.full_buckets@;
        let ghost first0 = self.is_first_candidate@;
        proof {
            if track {
                self.marks_name_firsts(ctx, old_code);
                self.marks_name_firsts(ctx, new_code);
            }
        }
        let change = self.rebucket(ctx, ci, new_code, track);
        if track {
            self.write_marks(ctx, ci, &change, Ghost(codes), Ghost(v0), new_code);
        }
    }

    /// In the bucket of a code, the mark is that of the member shown first.
    proof fn marks_name_firsts(&self, ctx: &OptContext, c: u32)
        requires
            ctx.wf_full(),
            self.inv(ctx, true),
        ensures
            forall|cj: int|
                0 <= cj < ctx.n() && #[trigger] self.current_codes@[cj] == c
                    ==> self.full_buckets@.contains_key(c) && self.is_first_candidate@[cj] == (cj
                    == self.full_buckets@[c].first),
    {
        let codes = self.current_codes@;
        assert forall|cj: int| 0 <= cj < ctx.n() && #[trigger] codes[cj] == c implies self.full_buckets@.contains_key(
        c) && self.is_first_candidate@[cj] == (cj == self.full_buckets@[c].first) by {
            let p = self.char_bucket_pos@[cj];
            let b = self.full_buckets@[c];
            self.bucket_enumerates(ctx, c);
            leads_is_best(ctx, codes, c, b.members@, b.first);
            assert(self.is_first_candidate@[cj] == is_best(ctx, codes, cj));
            only_leader_is_best(ctx, codes, c, b.members@, b.first, cj);
        }
    }

    /// Writes the marks after `ci` has moved to the bucket of `new_code`.
    #[verifier::rlimit(60)]
    fn write_marks(
        &mut self,
        ctx: &OptContext,
        ci: usize,
        change: &FirstChange,
        Ghost(codes): Ghost<Seq<u32>>,
        Ghost(v0): Ghost<Map<u32, FullBucket>>,
        new_code: u32,
    )
        requires
            ctx.wf_full(),
            ci < ctx.n(),
            ctx.simple_is_candidate@.len() == ctx.n(),
            old(self).inv(ctx, false),
            codes.len() == ctx.n(),
            codes[ci as int] != new_code,
            old(self).current_codes@ == codes.update(ci as int, new_code),
            change_fits(
                *change,
                ci as int,
                codes[ci as int],
                new_code,
                v0,
                old(self).full_buckets@,
            ),
            forall|c: u32| #[trigger]
                old(self).full_buckets@.contains_key(c) ==> if c == new_code || c == codes[ci as int] {
                    leads(ctx, old(self).full_buckets@[c].members@, old(self).full_buckets@[c].first)
                } else {
                    v0.contains_key(c) && old(self).full_buckets@[c] == v0[c]
                },
            forall|cj: int|
                0 <= cj < ctx.n() ==> #[trigger] old(self).is_first_candidate@[cj] == is_best(
                    ctx,
                    codes,
                    cj,
                ),
            forall|c: u32| #[trigger]
                v0.contains_key(c) ==> {
                    let x = v0[c].first;
                    x < ctx.n() && codes[x as int] == c && is_best(ctx, codes, x as int)
                },
            forall|cj: int|
                0 <= cj < ctx.n() && (#[trigger] codes[cj] == new_code || codes[cj]
                    == codes[ci as int]) ==> v0.contains_key(codes[cj])
                    && old(self).is_first_candidate@[cj] == (cj == v0[codes[cj]].first),
        ensures
            final(self).inv(ctx, true),
            final(self).current_codes == old(self).current_codes,
            written_noted(
                ctx,
                old(self).is_first_candidate@,
                final(self).is_first_candidate@,
                old(self).simple_is_first_dirty@,
                final(self).simple_is_first_dirty@,
            ),
    {
        let ghost old_code = codes[ci as int];
        let ghost v2 = self.full_buckets@;
        let ghost first0 = self.is_first_candidate@;
        proof {
            self.bucket_enumerates(ctx, new_code);
            let k = v2[new_code].members@.index_of(v2[new_code].first);
            assert(v2[new_code].members@[k] == v2[new_code].first);
            if v2.contains_key(old_code) {
                self.bucket_enumerates(ctx, old_code);
                let k = v2[old_code].members@.index_of(v2[old_code].first);
                assert(v2[old_code].members@[k] == v2[old_code].first);
            }
            assert forall|cj: int|
                0 <= cj < ctx.n() && cj != ci && #[trigger] codes[cj] == codes[ci as int] implies v2.contains_key(
            codes[ci as int]) by {
                assert(self.current_codes@[cj] == old_code);
                let p = self.char_bucket_pos@[cj];
            }
        }
        let ghost d0 = self.simple_is_first_dirty@;
        if let Some(first) = change.first_set {
            self.is_first_candidate.set(first as usize, true);
            self.note_first_written(ctx, first);
        }
        let ghost d1 = self.simple_is_first_dirty@;
        if change.becomes_first {
            if change.prev_first != u32::MAX {
                assert(v0.contains_key(new_code));
                self.is_first_candidate.set(change.prev_first as usize, false);
                self.note_first_written(ctx, change.prev_first);
            }
            self.is_first_candidate.set(ci, true);
        } else {
            self.is_first_candidate.set(ci, false);
        }
        let ghost d2 = self.simple_is_first_dirty@;
        self.note_first_written(ctx, ci as u32);
        let ghost d3 = self.simple_is_first_dirty@;
        proof {
            firsts_after_move(
                ctx,
                codes,
                ci as int,
                new_code,
                v0,
                first0,
                v2,
                self.is_first_candidate@,
            );
            assert(d0.is_prefix_of(d1) && d1.is_prefix_of(d2) && d2.is_prefix_of(d3));
            assert forall|cj: int|
                #![trigger self.is_first_candidate@[cj]]
                0 <= cj < ctx.n() && first0[cj] != self.is_first_candidate@[cj]
                    && ctx.simple_is_candidate@[cj] implies d3.contains(cj as usize) by {
                if cj == ci {
                    assert(d3.last() == cj);
                } else if change.becomes_first && cj == change.prev_first {
                    assert(d2.last() == cj);
                    assert(d3[d2.len() - 1] == cj);
                } else {
                    assert(change.first_set == Some(cj as u32));
                    assert(d1.last() == cj);
                    assert(d3[d1.len() - 1] == cj);
                }
            }
        }
    }
}

/// A member that led the bucket still leads it after another has left.
proof fn leader_stays(
    ctx: &OptContext,
    codes: Seq<u32>,
    c: u32,
    before: Seq<u32>,
    first: u32,
    after: Seq<u32>,
    first2: u32,
    gone: u32,
)
    requires
        codes.len() == ctx.n(),
        enumerates(before, codes, c),
        leads(ctx, before, first),
        leads(ctx, after, first2),
        forall|j: int| 0 <= j < after.len() ==> before.contains(#[trigger] after[j]),
        first != gone ==> after.contains(first),
    ensures
        first != gone ==> first2 == first,
{
    if first != gone && first2 != first {
        let k = after.index_of(first);
        let k2 = after.index_of(first2);
        assert(after[k] == first && after[k2] == first2);
        assert(better(ctx, first2 as int, first as int));
        let j = before.index_of(first2);
        assert(before[j] == first2);
        assert(better(ctx, first as int, first2 as int));
    }
}

/// Every candidate whose mark changed is noted, behind what was noted before.
pub open spec fn written_noted(
    ctx: &OptContext,
    first0: Seq<bool>,
    first1: Seq<bool>,
    dirty0: Seq<usize>,
    dirty1: Seq<usize>,
) -> bool {
    &&& dirty0.is_prefix_of(dirty1)
    &&& forall|ci: int|
        #![trigger first1[ci]]
        0 <= ci < ctx.n() && first0[ci] != first1[ci] && ctx.simple_is_candidate@[ci] ==> dirty1.contains(
            ci as usize,
        )
}

/// The frequencies of the members of a bucket.
spec fn member_freqs(ctx: &OptContext, members: Seq<u32>) -> Seq<int> {
    Seq::new(members.len(), |j: int| ctx.freq(members[j] as int))
}

/// Everybody is at their place after one more character has been put at the end of its bucket.
proof fn placed_after_push(
    k: nat,
    space: int,
    codes: Seq<u32>,
    pos: Seq<usize>,
    view: Map<u32, FullBucket>,
    code: u32,
    b: FullBucket,
)
    requires
        all_placed(k, space, codes, pos, view),
        k < u32::MAX,
        code < space,
        ({
            let target = if view.contains_key(code) {
                view[code].members@
            } else {
                Seq::<u32>::empty()
            };
            b.members@ == target.push(k as u32) && target.len() <= usize::MAX
        }),
    ensures
        all_placed(
            k + 1,
            space,
            codes.push(code),
            pos.push((b.members@.len() - 1) as usize),
            view.insert(code, b),
        ),
{
    let codes2 = codes.push(code);
    let pos2 = pos.push((b.members@.len() - 1) as usize);
    let view2 = view.insert(code, b);
    assert forall|ci: int| #![trigger codes2[ci]] 0 <= ci < k + 1 implies codes2[ci] < space
        && view2.contains_key(codes2[ci]) by {
        if ci < k {
            assert(codes[ci] < space);
        }
    }
    assert forall|ci: int| #![trigger pos2[ci]] 0 <= ci < k + 1 implies {
        &&& pos2[ci] < view2[codes2[ci]].members@.len()
        &&& view2[codes2[ci]].members@[pos2[ci] as int] == ci
    } by {
        if ci < k {
            let q = pos[ci];
            assert(view.contains_key(codes[ci]));
        }
    }
    assert forall|c: u32, j: int|
        #![trigger view2[c].members@[j]]
        view2.contains_key(c) && 0 <= j < view2[c].members@.len() implies {
        &&& view2[c].members@[j] < k + 1
        &&& codes2[view2[c].members@[j] as int] == c
        &&& pos2[view2[c].members@[j] as int] == j
    } by {
        if c != code || j < b.members@.len() - 1 {
            let x = view[c].members@[j];
            assert(x < k && codes[x as int] == c && pos[x as int] == j);
        }
    }
}

impl FullCodes {
    /// Computes all codes under `assignment`, their buckets, the collisions and the marks.
    pub fn build(ctx: &OptContext, assignment: &[u8]) -> (full: FullCodes)
        requires
            ctx.wf_full(),
            ctx.assigns(assignment@),
        ensures
            full.inv(ctx, true),
            full.current_codes@ == ctx.full_codes(assignment@),
            full.simple_is_first_dirty@.len() == 0,
    {
        let n = ctx.char_infos.len();
        let mut full_buckets: BucketStore<FullBucket> = BucketStore::new(ctx.code_space);
        let mut char_bucket_pos: Vec<usize> = Vec::new();
        let mut current_codes: Vec<u32> = Vec::new();
        let mut is_first_candidate: Vec<bool> = Vec::new();
        let mut ci: usize = 0;
        while ci < n
            invariant
                ci <= n == ctx.n(),
                ctx.wf_full(),
                ctx.assigns(assignment@),
                full_buckets.wf(),
                full_buckets.pristine(),
                full_buckets.spec_capacity() == ctx.code_space,
                all_placed(
                    ci as nat,
                    ctx.code_space as int,
                    current_codes@,
                    char_bucket_pos@,
                    full_buckets@,
                ),
                forall|i: int| 0 <= i < ci ==> #[trigger] current_codes@[i] == ctx.full_code(assignment@, i),
                forall|c: u32| #[trigger]
                    full_buckets@.contains_key(c) ==> {
                        let b = full_buckets@[c];
                        &&& b.freq_sum == sum(member_freqs(ctx, b.members@))
                        &&& b.max_freq == max_of(member_freqs(ctx, b.members@))
                        &&& b.freq_sum <= sum(ctx.freqs().take(ci as int))
                    },
                is_first_candidate@.len() == ci,
            decreases n - ci,
        {
            let code = ctx.calc_code_only(ci, assignment);
            let ghost v0 = full_buckets@;
            let ghost freqs = ctx.freqs();
            proof {
                crate::sums::sum_prefix(freqs, ci + 1);
                assert(freqs.take(ci + 1).drop_last() =~= freqs.take(ci as int));
                sum_nonnegative(freqs.take(ci as int));
            }
            let freq = ctx.char_infos[ci].frequency;
            let b = full_buckets.get_mut_or_insert(code);
            let ghost m0 = b.members@;
            proof {
                if !v0.contains_key(code) {
                    assert(member_freqs(ctx, m0) =~= Seq::<int>::empty());
                }
                assert(member_freqs(ctx, m0.push(ci as u32)).drop_last() =~= member_freqs(ctx, m0));
                assert(b.freq_sum == sum(member_freqs(ctx, m0)));
                assert(b.max_freq == max_of(member_freqs(ctx, m0)));
                assert(b.freq_sum <= sum(freqs.take(ci as int)));
            }
            let pos = b.members.len();
            b.members.push(ci as u32);
            b.freq_sum = b.freq_sum + freq;
            if freq > b.max_freq {
                b.max_freq = freq;
            }
            let ghost b2 = *b;
            char_bucket_pos.push(pos);
            proof {
                placed_after_push(
                    ci as nat,
                    ctx.code_space as int,
                    current_codes@,
                    char_bucket_pos@.drop_last(),
                    v0,
                    code,
                    b2,
                );
                assert(char_bucket_pos@.drop_last().push(pos) =~= char_bucket_pos@);
                assert(full_buckets@ == v0.insert(code, b2));
                assert(member_freqs(ctx, b2.members@).last() == freq);
                assert(b2.members@ == m0.push(ci as u32));
                assert(b2.freq_sum == sum(member_freqs(ctx, b2.members@)));
                assert(b2.max_freq == max_of(member_freqs(ctx, b2.members@)));
                assert(sum(freqs.take(ci + 1)) == sum(freqs.take(ci as int)) + freq);
                assert forall|c: u32| #[trigger] full_buckets@.contains_key(c) implies ({
                    let b = full_buckets@[c];
                    &&& b.freq_sum == sum(member_freqs(ctx, b.members@))
                    &&& b.max_freq == max_of(member_freqs(ctx, b.members@))
                    &&& b.freq_sum <= sum(freqs.take(ci + 1))
                }) by {
                    if c != code {
                        assert(v0.contains_key(c));
                    }
                }
            }
            current_codes.push(code);
            is_first_candidate.push(false);
            ci = ci + 1;
        }
        assert(current_codes@ =~= ctx.full_codes(assignment@));
        let mut full = FullCodes {
            current_codes,
            full_buckets,
            char_bucket_pos,
            is_first_candidate,
            simple_is_first_dirty: Vec::new(),
            total_collisions: 0,
            collision_frequency: 0,
        };
        assert(full.weighed(ctx)) by {
            assert forall|c: u32| #[trigger] full.full_buckets@.contains_key(c) implies ({
                let b = full.full_buckets@[c];
                let w = weights(ctx, full.current_codes@, nobody(ctx.n()), c);
                b.freq_sum == sum(w) && b.max_freq == max_of(w)
            }) by {
                full.bucket_enumerates(ctx, c);
                bucket_numbers(ctx, full.current_codes@, c, full.full_buckets@[c].members@);
            }
        }
        full.count_collisions(ctx);
        full.rebuild_first_candidates(ctx);
        full
    }

    /// Counts the collisions bucket by bucket.
    fn count_collisions(&mut self, ctx: &OptContext)
        requires
            ctx.wf_full(),
            old(self).full_buckets.wf(),
            old(self).full_buckets.pristine(),
            old(self).full_buckets.spec_capacity() == ctx.code_space,
            old(self).placed(ctx),
            old(self).weighed(ctx),
            old(self).is_first_candidate@.len() == ctx.n(),
            old(self).dirty_ok(ctx),
        ensures
            final(self).inv(ctx, false),
            final(self).current_codes == old(self).current_codes,
            final(self).simple_is_first_dirty == old(self).simple_is_first_dirty,
    {
        let codes = self.full_buckets.nonempty_codes();
        let ghost nb = nobody(ctx.n());
        let ghost cc = self.current_codes@;
        let ghost x = excess_by_code(ctx, cc, nb);
        let ghost y = hidden_by_code(ctx, cc, nb);
        let ghost xs = Seq::new(codes@.len(), |j: int| x[codes@[j] as int]);
        let ghost ys = Seq::new(codes@.len(), |j: int| y[codes@[j] as int]);
        proof {
            crate::codes::space_monotone(ctx.max_parts as nat, 6);
            crate::codes::space_values();
            totals_bound(ctx, cc, nb);
            assert forall|j: int| 0 <= j < codes@.len() implies (#[trigger] codes@[j]) < x.len() by {
                assert(codes@.to_set().contains(codes@[j]));
                let m = self.full_buckets@[codes@[j]].members@[0];
                assert(cc[m as int] == codes@[j]);
            }
            assert forall|c: int| 0 <= c < x.len() && (#[trigger] x[c] != 0 || y[c] != 0) implies codes@.contains(
            c as u32) by {
                if !self.full_buckets@.contains_key(c as u32) {
                    self.absent_is_unused(ctx, c as u32);
                    let one = ones(ctx, cc, nb, c as u32);
                    let w = weights(ctx, cc, nb, c as u32);
                    crate::sums::sum_zero(one);
                    crate::sums::sum_zero(w);
                    max_of_unique(w, 0);
                }
                assert(codes@.to_set().contains(c as u32));
            }
            sum_over_members(codes@, x);
            assert forall|c: int| 0 <= c < y.len() && #[trigger] y[c] != 0 implies codes@.contains(
                c as u32,
            ) by {
                let z = x[c];
            }
            sum_over_members(codes@, y);
            assert(xs.take(0) =~= Seq::<int>::empty());
            assert(ys.take(0) =~= Seq::<int>::empty());
        }
        let mut total: usize = 0;
        let mut freq: u64 = 0;
        let mut i: usize = 0;
        while i < codes.len()
            invariant
                i <= codes@.len(),
                ctx.wf_full(),
                self.full_buckets.wf(),
                self.placed(ctx),
                self.weighed(ctx),
                cc == self.current_codes@,
                nb == nobody(ctx.n()),
                codes@.to_set() == self.full_buckets@.dom(),
                x == excess_by_code(ctx, cc, nb),
                y == hidden_by_code(ctx, cc, nb),
                xs == Seq::new(codes@.len(), |j: int| x[codes@[j] as int]),
                ys == Seq::new(codes@.len(), |j: int| y[codes@[j] as int]),
                forall|j: int| 0 <= j < codes@.len() ==> (#[trigger] codes@[j]) < x.len(),
                forall|j: int| 0 <= j < xs.len() ==> #[trigger] xs[j] >= 0,
                forall|j: int| 0 <= j < ys.len() ==> #[trigger] ys[j] >= 0,
                sum(xs) <= ctx.n(),
                sum(ys) <= ctx.total_frequency,
                total == sum(xs.take(i as int)),
                freq == sum(ys.take(i as int)),
            decreases codes@.len() - i,
        {
            let code = codes[i];
            proof {
                assert(codes@.to_set().contains(code));
                self.full_buckets.contained_is_addressed(code);
                self.bucket_enumerates(ctx, code);
                bucket_numbers(ctx, cc, code, self.full_buckets@[code].members@);
                assert(xs.take(i + 1).drop_last() =~= xs.take(i as int));
                assert(ys.take(i + 1).drop_last() =~= ys.take(i as int));
                crate::sums::sum_prefix(xs, i + 1);
                crate::sums::sum_prefix(ys, i + 1);
            }
            match self.full_buckets.get(code) {
                Some(b) => {
                    total = total + (b.members.len() - 1);
                    freq = freq + (b.freq_sum - b.max_freq);
                },
                None => {},
            }
            i = i + 1;
        }
        assert(xs.take(xs.len() as int) =~= xs);
        assert(ys.take(ys.len() as int) =~= ys);
        self.total_collisions = total;
        self.collision_frequency = freq;
    }

    /// Finds the character shown first in every bucket, and marks it.
    pub fn rebuild_first_candidates(&mut self, ctx: &OptContext)
        requires
            ctx.wf_full(),
            old(self).inv(ctx, false),
        ensures
            final(self).inv(ctx, true),
            final(self).current_codes == old(self).current_codes,
            final(self).simple_is_first_dirty == old(self).simple_is_first_dirty,
            final(self).total_collisions == old(self).total_collisions,
            final(self).collision_frequency == old(self).collision_frequency,
    {
        let n = ctx.char_infos.len();
        let mut ci: usize = 0;
        while ci < n
            invariant
                ci <= n == ctx.n(),
                self.inv(ctx, false),
                self.current_codes == old(self).current_codes,
                self.simple_is_first_dirty == old(self).simple_is_first_dirty,
                self.total_collisions == old(self).total_collisions,
                self.collision_frequency == old(self).collision_frequency,
                forall|i: int| 0 <= i < ci ==> !#[trigger] self.is_first_candidate@[i],
            decreases n - ci,
        {
            self.is_first_candidate.set(ci, false);
            ci = ci + 1;
        }
        let codes = self.full_buckets.nonempty_codes();
        let ghost dom = self.full_buckets@.dom();
        let mut i: usize = 0;
        while i < codes.len()
            invariant
                i <= codes@.len(),
                ctx.wf_full(),
                self.inv(ctx, false),
                self.current_codes == old(self).current_codes,
                self.simple_is_first_dirty == old(self).simple_is_first_dirty,
                self.total_collisions == old(self).total_collisions,
                self.collision_frequency == old(self).collision_frequency,
                codes@.no_duplicates(),
                codes@.to_set() == self.full_buckets@.dom(),
                forall|j: int|
                    0 <= j < i ==> leads(
                        ctx,
                        self.full_buckets@[#[trigger] codes@[j]].members@,
                        self.full_buckets@[codes@[j]].first,
                    ),
                forall|cj: int|
                    #![trigger self.is_first_candidate@[cj]]
                    0 <= cj < ctx.n() ==> self.is_first_candidate@[cj] == (exists|j: int|
                        0 <= j < i && #[trigger] codes@[j] == self.current_codes@[cj]
                            && self.full_buckets@[codes@[j]].first == cj),
            decreases codes@.len() - i,
        {
            let code = codes[i];
            let ghost v0 = self.full_buckets@;
            let ghost marks = self.is_first_candidate@;
            proof {
                assert(codes@.to_set().contains(code));
                self.full_buckets.contained_is_addressed(code);
                self.bucket_enumerates(ctx, code);
            }
            let b = self.full_buckets.get_mut_or_insert(code);
            let (_, first) = rescan_bucket_first(ctx, &b.members);
            b.first = first;
            let ghost b2 = *b;
            proof {
                let k = b2.members@.index_of(first);
                assert(b2.members@[k] == first);
            }
            self.is_first_candidate.set(first as usize, true);
            proof {
                assert(self.full_buckets@ == v0.insert(code, b2));
                assert(self.full_buckets@.dom() =~= v0.dom());
                assert(b2.members@ == v0[code].members@);
                assert forall|j: int| 0 <= j < i + 1 implies leads(
                    ctx,
                    self.full_buckets@[#[trigger] codes@[j]].members@,
                    self.full_buckets@[codes@[j]].first,
                ) by {
                    if j < i {
                        assert(codes@[j] != code);
                    }
                }
                assert forall|cj: int| #![trigger self.is_first_candidate@[cj]] 0 <= cj < ctx.n() implies self.is_first_candidate@[cj]
                    == (exists|j: int|
                    0 <= j < i + 1 && #[trigger] codes@[j] == self.current_codes@[cj]
                        && self.full_buckets@[codes@[j]].first == cj) by {
                    if cj == first {
                        assert(codes@[i as int] == self.current_codes@[cj]);
                    } else {
                        if marks[cj] {
                            let j = choose|j: int|
                                0 <= j < i && #[trigger] codes@[j] == self.current_codes@[cj]
                                    && v0[codes@[j]].first == cj;
                            assert(codes@[j] != code);
                        }
                        if exists|j: int|
                            0 <= j < i + 1 && #[trigger] codes@[j] == self.current_codes@[cj]
                                && self.full_buckets@[codes@[j]].first == cj {
                            let j = choose|j: int|
                                0 <= j < i + 1 && #[trigger] codes@[j] == self.current_codes@[cj]
                                    && self.full_buckets@[codes@[j]].first == cj;
                            assert(j != i);
                            assert(codes@[j] != code);
                            assert(v0[codes@[j]].first == cj);
                        }
                    }
                }
            }
            i = i + 1;
        }
        proof {
            let cc = self.current_codes@;
            assert forall|c: u32| #[trigger] self.full_buckets@.contains_key(c) implies {
                let first = self.full_buckets@[c].first;
                &&& first < ctx.n() && cc[first as int] == c && is_best(ctx, cc, first as int)
                &&& leads(ctx, self.full_buckets@[c].members@, first)
                &&& codes@.contains(c)
            } by {
                assert(codes@.to_set().contains(c));
                let j = codes@.index_of(c);
                assert(codes@[j] == c);
                self.bucket_enumerates(ctx, c);
                let m = self.full_buckets@[c].members@;
                let k = m.index_of(self.full_buckets@[c].first);
                assert(m[k] == self.full_buckets@[c].first);
                leads_is_best(ctx, cc, c, m, self.full_buckets@[c].first);
            }
            assert forall|cj: int| 0 <= cj < ctx.n() implies #[trigger] self.is_first_candidate@[cj]
                == is_best(ctx, cc, cj) by {
                let c = cc[cj];
                let p = self.char_bucket_pos@[cj];
                self.bucket_enumerates(ctx, c);
                let b = self.full_buckets@[c];
                only_leader_is_best(ctx, cc, c, b.members@, b.first, cj);
                let j = codes@.index_of(c);
                assert(codes@[j] == c);
            }
        }
    }
}

} // verus!
