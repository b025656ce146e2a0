//! Collisions that remain once the characters with a simple code are left out, kept up to date
//! bucket by bucket.

use rustc_hash::FxHashMap;
use vstd::prelude::*;

use crate::bucket_store::{BucketStore, FullBucket};
use crate::collisions::{
    bucket_collision_contrib_of, counts, enumerates, excess, excess_by_code, hidden_by_code, hidden_freq, ones,
    total_excess, total_hidden, totals_bound, weights,
};
use crate::codes::{space_monotone, space_values};
use crate::context::OptContext;
use crate::sums::{sum, sum_at_least, sum_le, sum_nonnegative, sum_plus, sum_update, sum_zero};
use crate::types::MAX_CODE_LEN;
use crate::undo::{fx_found, fx_put, unwound, unwound_step};

verus! {

/// What each bucket adds to the collisions; a code without an entry adds nothing.
pub type Shares = FxHashMap<u32, (usize, u64)>;

/// What the bucket of a code adds.
pub open spec fn share_at(m: Map<u32, (usize, u64)>, c: u32) -> (usize, u64) {
    if m.contains_key(c) {
        m[c]
    } else {
        (0, 0)
    }
}

/// Whether the entries are those of the given rows, by code.
pub open spec fn rows_match(m: Map<u32, (usize, u64)>, e: Seq<int>, h: Seq<int>) -> bool {
    forall|c: u32|
        #![trigger share_at(m, c)]
        c < e.len() ==> share_at(m, c).0 == e[c as int] && share_at(m, c).1 == h[c as int]
}

/// Whether the buckets are those of the codes: each lists the characters with its code, and every
/// code in use has a bucket.
pub open spec fn buckets_fit(ctx: &OptContext, buckets: &BucketStore<FullBucket>, codes: Seq<u32>) -> bool {
    &&& buckets.wf()
    &&& buckets.spec_capacity() == ctx.code_space
    &&& codes.len() == ctx.n()
    &&& forall|ci: int|
        0 <= ci < ctx.n() ==> (#[trigger] codes[ci]) < ctx.code_space && buckets@.contains_key(codes[ci])
    &&& forall|c: u32| #[trigger]
        buckets@.contains_key(c) ==> enumerates(buckets@[c].members@, codes, c)
            && buckets@[c].members@.len() > 0
}

/// What a bucket adds depends on who counts in it alone.
pub proof fn share_frame(
    ctx: &OptContext,
    codes: Seq<u32>,
    left_out: Seq<bool>,
    codes2: Seq<u32>,
    left_out2: Seq<bool>,
    c: u32,
)
    requires
        forall|ci: int|
            0 <= ci < ctx.n() ==> #[trigger] counts(codes, left_out, c, ci) == counts(
                codes2,
                left_out2,
                c,
                ci,
            ),
    ensures
        excess(ctx, codes, left_out, c) == excess(ctx, codes2, left_out2, c),
        hidden_freq(ctx, codes, left_out, c) == hidden_freq(ctx, codes2, left_out2, c),
{
    assert forall|ci: int| 0 <= ci < ctx.n() implies #[trigger] ones(ctx, codes, left_out, c)[ci] == ones(
        ctx,
        codes2,
        left_out2,
        c,
    )[ci] && weights(ctx, codes, left_out, c)[ci] == weights(ctx, codes2, left_out2, c)[ci] by {
        let x = counts(codes, left_out, c, ci);
    }
    assert(ones(ctx, codes, left_out, c) =~= ones(ctx, codes2, left_out2, c));
    assert(weights(ctx, codes, left_out, c) =~= weights(ctx, codes2, left_out2, c));
}

/// A code that nobody has adds nothing.
pub proof fn share_of_nobody(ctx: &OptContext, codes: Seq<u32>, left_out: Seq<bool>, c: u32)
    requires
        forall|ci: int| 0 <= ci < ctx.n() ==> #[trigger] codes[ci] != c,
    ensures
        excess(ctx, codes, left_out, c) == 0,
        hidden_freq(ctx, codes, left_out, c) == 0,
{
    let one = ones(ctx, codes, left_out, c);
    let weight = weights(ctx, codes, left_out, c);
    assert forall|ci: int| 0 <= ci < ctx.n() implies one[ci] == 0 && weight[ci] == 0 by {
        let x = codes[ci];
    }
    sum_zero(one);
    sum_zero(weight);
    crate::collisions::max_of_unique(weight, 0);
}

/// What the bucket of a code adds, those with a simple code left out.
fn share_of_code(
    ctx: &OptContext,
    buckets: &BucketStore<FullBucket>,
    assigned: &Vec<bool>,
    code: u32,
    Ghost(codes): Ghost<Seq<u32>>,
) -> (r: (usize, u64))
    requires
        ctx.wf_full(),
        buckets_fit(ctx, buckets, codes),
        assigned@.len() == ctx.n(),
        code < ctx.code_space,
    ensures
        r.0 == excess(ctx, codes, assigned@, code),
        r.1 == hidden_freq(ctx, codes, assigned@, code),
{
    match buckets.get(code) {
        Some(b) => bucket_collision_contrib_of(ctx, &b.members, assigned, Ghost(codes), Ghost(code)),
        None => {
            proof {
                assert forall|ci: int| 0 <= ci < ctx.n() implies #[trigger] codes[ci] != code by {
                    assert(buckets@.contains_key(codes[ci]));
                }
                share_of_nobody(ctx, codes, assigned@, code);
            }
            (0, 0)
        },
    }
}

/// Codes fit in a `u32`.
pub proof fn code_space_bound(ctx: &OptContext)
    requires
        ctx.wf_full(),
    ensures
        ctx.code_space <= u32::MAX,
{
    space_monotone(ctx.max_parts as nat, MAX_CODE_LEN as nat);
    space_values();
}

/// Sums of rows that are taken from two others, element by element, are at most the sum of both.
proof fn mixed_bound(e: Seq<int>, a: Seq<int>, b: Seq<int>)
    requires
        e.len() == a.len() == b.len(),
        forall|i: int| 0 <= i < e.len() ==> #[trigger] a[i] >= 0,
        forall|i: int| 0 <= i < e.len() ==> #[trigger] b[i] >= 0,
        forall|i: int| 0 <= i < e.len() ==> (#[trigger] e[i] == a[i] || e[i] == b[i]),
    ensures
        0 <= sum(e) <= sum(a) + sum(b),
        forall|i: int| 0 <= i < e.len() ==> 0 <= #[trigger] e[i] <= sum(e),
{
    sum_plus(a, b);
    assert forall|i: int| 0 <= i < e.len() implies e[i] <= Seq::new(a.len(), |i: int| a[i] + b[i])[i] by {
        let x = e[i];
    }
    sum_le(e, Seq::new(a.len(), |i: int| a[i] + b[i]));
    assert forall|j: int| 0 <= j < e.len() implies e[j] >= 0 by {
        let x = e[j];
    }
    sum_nonnegative(e);
    assert forall|i: int| 0 <= i < e.len() implies 0 <= #[trigger] e[i] <= sum(e) by {
        sum_at_least(e, i);
    }
}

/// Brings the collisions up to date at the codes listed. `count0` and `freq0` are their totals
/// before, and the new totals are returned.
#[verifier::rlimit(40)]
pub(crate) fn refresh_collisions(
    ctx: &OptContext,
    buckets: &BucketStore<FullBucket>,
    assigned: &Vec<bool>,
    shares: &mut Shares,
    log: &mut Vec<(u32, Option<(usize, u64)>)>,
    list: &Vec<u32>,
    count0: usize,
    freq0: u64,
    Ghost(codes): Ghost<Seq<u32>>,
    Ghost(old_e): Ghost<Seq<int>>,
    Ghost(old_h): Ghost<Seq<int>>,
) -> (r: (usize, u64))
    requires
        ctx.wf_full(),
        buckets_fit(ctx, buckets, codes),
        assigned@.len() == ctx.n(),
        forall|i: int| 0 <= i < list@.len() ==> (#[trigger] list@[i]) < ctx.code_space,
        old_e.len() == ctx.code_space,
        old_h.len() == ctx.code_space,
        rows_match(old(shares)@, old_e, old_h),
        count0 == sum(old_e),
        freq0 == sum(old_h),
        forall|c: u32|
            #![trigger old_e[c as int]]
            c < ctx.code_space && !list@.contains(c) ==> old_e[c as int] == excess(
                ctx,
                codes,
                assigned@,
                c,
            ) && old_h[c as int] == hidden_freq(ctx, codes, assigned@, c),
    ensures
        rows_match(
            final(shares)@,
            excess_by_code(ctx, codes, assigned@),
            hidden_by_code(ctx, codes, assigned@),
        ),
        r.0 == total_excess(ctx, codes, assigned@),
        r.1 == total_hidden(ctx, codes, assigned@),
        unwound(final(log)@, final(shares)@) == unwound(old(log)@, old(shares)@),
{
    let ghost new_e = excess_by_code(ctx, codes, assigned@);
    let ghost new_h = hidden_by_code(ctx, codes, assigned@);
    let ghost mut e = old_e;
    let ghost mut h = old_h;
    let mut count: u128 = count0 as u128;
    let mut freq: u128 = freq0 as u128;
    let mut k: usize = 0;
    proof {
        code_space_bound(ctx);
        totals_bound(ctx, codes, assigned@);
        assert forall|i: int| 0 <= i < old_e.len() implies #[trigger] old_e[i] >= 0 && old_h[i] >= 0 by {
            let x = share_at(shares@, i as u32);
        }
        assert forall|i: int| 0 <= i < new_e.len() implies #[trigger] new_e[i] >= 0 && new_h[i] >= 0 by {
            assert(excess(ctx, codes, assigned@, i as u32) >= 0);
            assert(hidden_freq(ctx, codes, assigned@, i as u32) >= 0);
        }
        assert(list@.take(0) =~= Seq::<u32>::empty());
    }
    while k < list.len()
        invariant
            k <= list@.len(),
            ctx.wf_full(),
            ctx.code_space <= u32::MAX,
            buckets_fit(ctx, buckets, codes),
            assigned@.len() == ctx.n(),
            forall|i: int| 0 <= i < list@.len() ==> (#[trigger] list@[i]) < ctx.code_space,
            new_e == excess_by_code(ctx, codes, assigned@),
            new_h == hidden_by_code(ctx, codes, assigned@),
            sum(new_e) <= ctx.n(),
            sum(new_h) <= ctx.total_frequency,
            old_e.len() == ctx.code_space,
            old_h.len() == ctx.code_space,
            e.len() == ctx.code_space,
            h.len() == ctx.code_space,
            sum(old_e) == count0,
            sum(old_h) == freq0,
            forall|i: int| 0 <= i < old_e.len() ==> #[trigger] old_e[i] >= 0 && old_h[i] >= 0,
            forall|i: int| 0 <= i < new_e.len() ==> #[trigger] new_e[i] >= 0 && new_h[i] >= 0,
            forall|i: int|
                #![trigger e[i]]
                #![trigger h[i]]
                0 <= i < ctx.code_space ==> if list@.take(k as int).contains(i as u32) {
                    e[i] == new_e[i] && h[i] == new_h[i]
                } else {
                    e[i] == old_e[i] && h[i] == old_h[i]
                },
            rows_match(shares@, e, h),
            count == sum(e),
            freq == sum(h),
            unwound(log@, shares@) == unwound(old(log)@, old(shares)@),
        decreases list@.len() - k,
    {
        let code = list[k];
        assert(list@[k as int] < ctx.code_space);
        let was = fx_found(shares, code);
        let (old_count, old_freq) = match was {
            Some(pair) => pair,
            None => (0, 0),
        };
        let (new_count, new_freq) = share_of_code(ctx, buckets, assigned, code, Ghost(codes));
        proof {
            let x = share_at(shares@, code);
            mixed_bound(e, old_e, new_e);
            assert forall|i: int| 0 <= i < h.len() implies #[trigger] old_h[i] >= 0 by {
                let x = old_e[i];
            }
            assert forall|i: int| 0 <= i < h.len() implies #[trigger] new_h[i] >= 0 by {
                let x = new_e[i];
            }
            assert forall|i: int| 0 <= i < h.len() implies (#[trigger] h[i] == old_h[i] || h[i] == new_h[i]) by {}
            mixed_bound(h, old_h, new_h);
            let y = e[code as int];
            let z = h[code as int];
            sum_update(e, code as int, new_count as int);
            sum_update(h, code as int, new_freq as int);
            assert(new_e[code as int] == new_count && new_h[code as int] == new_freq);
        }
        let ghost m0 = shares@;
        let ghost e0 = e;
        let ghost h0 = h;
        if new_count != old_count || new_freq != old_freq {
            count = count - old_count as u128 + new_count as u128;
            freq = freq - old_freq as u128 + new_freq as u128;
            let ghost log0 = log@;
            log.push((code, was));
            let next = if new_count == 0 && new_freq == 0 {
                None
            } else {
                Some((new_count, new_freq))
            };
            fx_put(shares, code, next);
            proof {
                unwound_step(log0, m0, code, next);
                e = e.update(code as int, new_count as int);
                h = h.update(code as int, new_freq as int);
            }
        }
        proof {
            assert(e =~= e0.update(code as int, new_count as int));
            assert(h =~= h0.update(code as int, new_freq as int));
            assert forall|c: u32|
                #![trigger share_at(shares@, c)]
                c < e.len() implies share_at(shares@, c).0 == e[c as int] && share_at(shares@, c).1
                == h[c as int] by {
                let x = share_at(m0, c);
            }
            let front = list@.take(k as int);
            let front2 = list@.take(k + 1);
            assert forall|i: int|
                #![trigger e[i]]
                #![trigger h[i]]
                0 <= i < ctx.code_space implies if front2.contains(i as u32) {
                e[i] == new_e[i] && h[i] == new_h[i]
            } else {
                e[i] == old_e[i] && h[i] == old_h[i]
            } by {
                let x = e0[i];
                if i == code {
                    assert(front2[k as int] == i as u32);
                    assert(front2.contains(i as u32));
                } else if front.contains(i as u32) {
                    let j = front.index_of(i as u32);
                    assert(front2[j] == i as u32);
                } else if front2.contains(i as u32) {
                    let j = front2.index_of(i as u32);
                    assert(list@[j] == i as u32);
                    assert(front[j] == i as u32);
                }
            }
        }
        k = k + 1;
    }
    proof {
        assert(list@.take(list@.len() as int) =~= list@);
        assert forall|i: int| 0 <= i < ctx.code_space implies e[i] == new_e[i] && h[i] == new_h[i] by {
            let x = e[i];
            let y = old_e[(i as u32) as int];
        }
        assert(e =~= new_e);
        assert(h =~= new_h);
    }
    (count as usize, freq as u64)
}

} // verus!
