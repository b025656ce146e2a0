//! Which codes are kept free of simple codes: the full codes of protected characters.

use rustc_hash::FxHashMap;
use vstd::prelude::*;

use crate::context::OptContext;
use crate::fx::{fx_get, fx_insert};
use crate::sums::{sum, sum_at_least, sum_constant, sum_le, sum_nonnegative, sum_prefix, sum_update, sum_zero};

verus! {

/// Whether a character's full code is protected: that of everybody where no number is set, else
/// that of the most frequent ones.
pub open spec fn guarded(ctx: &OptContext, ci: int) -> bool {
    ctx.simple_protect_top_n == 0 || ctx.simple_is_topn@[ci]
}

/// Whether a code is the full code of a protected character.
pub open spec fn protected(ctx: &OptContext, codes: Seq<u32>, c: u32) -> bool {
    exists|ci: int| 0 <= ci < ctx.n() && #[trigger] codes[ci] == c && guarded(ctx, ci)
}

/// One for every protected character with a code, where only some are protected.
pub open spec fn guard_ones(ctx: &OptContext, codes: Seq<u32>, c: u32) -> Seq<int> {
    Seq::new(ctx.n(), |ci: int| if ctx.simple_is_topn@[ci] && codes[ci] == c { 1int } else { 0 })
}

/// How many protected characters have a code.
pub open spec fn guards(ctx: &OptContext, codes: Seq<u32>, c: u32) -> int {
    sum(guard_ones(ctx, codes, c))
}

/// What a map of counts holds for a code.
pub open spec fn count_at(m: Map<u32, u32>, c: u32) -> int {
    if m.contains_key(c) {
        m[c] as int
    } else {
        0
    }
}

/// Whether a map says how many protected characters have each code, where only some are protected.
pub open spec fn protect_right(ctx: &OptContext, codes: Seq<u32>, m: Map<u32, u32>) -> bool {
    ctx.simple_protect_top_n > 0 ==> forall|c: u32| #[trigger] count_at(m, c) == guards(ctx, codes, c)
}

/// There are as many protected characters with a code as characters at most, and none exactly when
/// the code is not protected.
pub proof fn guards_count(ctx: &OptContext, codes: Seq<u32>, c: u32)
    requires
        ctx.simple_protect_top_n > 0,
    ensures
        0 <= guards(ctx, codes, c) <= ctx.n(),
        guards(ctx, codes, c) > 0 <==> protected(ctx, codes, c),
{
    let s = guard_ones(ctx, codes, c);
    sum_nonnegative(s);
    sum_constant(ctx.n(), 1);
    sum_le(s, Seq::new(ctx.n(), |i: int| 1int));
    if protected(ctx, codes, c) {
        let ci = choose|ci: int|
            0 <= ci < ctx.n() && #[trigger] codes[ci] == c && guarded(ctx, ci);
        sum_at_least(s, ci);
    } else {
        assert forall|ci: int| 0 <= ci < s.len() implies s[ci] == 0 by {
            if codes[ci] == c {
                assert(!guarded(ctx, ci));
            }
        }
        sum_zero(s);
    }
}

/// What changes when one character gets another code.
pub proof fn guards_recode(ctx: &OptContext, codes: Seq<u32>, ci: int, new_code: u32, c: u32)
    requires
        0 <= ci < ctx.n() == codes.len(),
        ctx.simple_protect_top_n > 0,
    ensures
        guards(ctx, codes.update(ci, new_code), c) == guards(ctx, codes, c) - (if guarded(ctx, ci)
            && codes[ci] == c {
            1int
        } else {
            0
        }) + (if guarded(ctx, ci) && new_code == c {
            1int
        } else {
            0
        }),
{
    let s = guard_ones(ctx, codes, c);
    let t = guard_ones(ctx, codes.update(ci, new_code), c);
    sum_update(s, ci, t[ci]);
    assert(t =~= s.update(ci, t[ci]));
}

/// How many protected characters have each code.
pub(crate) fn recompute_protect_count(ctx: &OptContext, codes: &Vec<u32>) -> (m: FxHashMap<u32, u32>)
    requires
        ctx.wf_full(),
        ctx.wf_levels(),
        codes@.len() == ctx.n(),
    ensures
        protect_right(ctx, codes@, m@),
{
    let mut m: FxHashMap<u32, u32> = FxHashMap::default();
    if ctx.simple_protect_top_n == 0 {
        return m;
    }
    let n = ctx.char_infos.len();
    let mut ci: usize = 0;
    proof {
        assert forall|c: u32| #[trigger] count_at(m@, c) == sum(guard_ones(ctx, codes@, c).take(0)) by {
            assert(guard_ones(ctx, codes@, c).take(0) =~= Seq::<int>::empty());
        }
    }
    while ci < n
        invariant
            ci <= n == ctx.n() == codes@.len(),
            ctx.wf_full(),
            ctx.simple_protect_top_n > 0,
            ctx.simple_is_topn@.len() == ctx.n(),
            forall|c: u32| #[trigger]
                count_at(m@, c) == sum(guard_ones(ctx, codes@, c).take(ci as int)),
        decreases n - ci,
    {
        let ghost m0 = m@;
        let code = codes[ci];
        proof {
            assert forall|c: u32|
                sum(#[trigger] guard_ones(ctx, codes@, c).take(ci + 1)) == sum(
                    guard_ones(ctx, codes@, c).take(ci as int),
                ) + guard_ones(ctx, codes@, c)[ci as int] by {
                let s = guard_ones(ctx, codes@, c);
                assert(s.take(ci + 1).drop_last() =~= s.take(ci as int));
            }
            let s = guard_ones(ctx, codes@, code);
            sum_prefix(s, ci as int);
            guards_count(ctx, codes@, code);
            let x = count_at(m0, code);
            sum_prefix(s, ci + 1);
            let y = s.take(ci + 1);
        }
        if ctx.simple_is_topn[ci] {
            let count: u32 = match fx_get(&m, code) {
                Some(count) => *count,
                None => 0,
            };
            fx_insert(&mut m, code, count + 1);
        }
        proof {
            assert forall|c: u32| #[trigger] count_at(m@, c) == sum(
                guard_ones(ctx, codes@, c).take(ci + 1),
            ) by {
                let x = count_at(m0, c);
                let y = guard_ones(ctx, codes@, c).take(ci + 1);
            }
        }
        ci = ci + 1;
    }
    proof {
        assert forall|c: u32| #[trigger] count_at(m@, c) == guards(ctx, codes@, c) by {
            let s = guard_ones(ctx, codes@, c);
            assert(s.take(n as int) =~= s);
        }
    }
    m
}

} // verus!
