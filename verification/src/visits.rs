//! How many candidates a move of the selection looks at: those in the buckets that it touches.

use vstd::prelude::*;

use crate::context::OptContext;
use crate::selection::Selection;
use crate::simple_level::LevelView;
use crate::simple_select::linked;
use crate::sums::{sum, sum_constant, sum_le, sum_nonnegative, sum_plus, sum_update, sum_zero};

verus! {

/// Who contends with one of the given codes: 1 for each who does.
pub open spec fn among(codes: Seq<Option<u32>>, list: Seq<u32>) -> Seq<int> {
    Seq::new(
        codes.len(),
        |ci: int|
            if codes[ci] matches Some(c) && list.contains(c) {
                1int
            } else {
                0
            },
    )
}

/// Who is in a bucket of a level that was put down: 1 for each who is.
pub open spec fn in_touched(ctx: &OptContext, sel: &Selection, li: int) -> Seq<int> {
    Seq::new(
        ctx.n(),
        |ci: int|
            if sel@.levels[li].codes[ci] matches Some(c) && sel.touched(li, c) {
                1int
            } else {
                0
            },
    )
}

/// How many candidates are in the buckets of a level that were put down.
pub open spec fn touched_at(ctx: &OptContext, sel: &Selection, li: int) -> int {
    sum(in_touched(ctx, sel, li))
}

/// How many candidates are in the buckets of the first levels that were put down.
pub open spec fn touched_below(ctx: &OptContext, sel: &Selection, li: int) -> int {
    sum(Seq::new(li as nat, |l: int| touched_at(ctx, sel, l)))
}

/// How many candidates are in the buckets that were put down, over all levels.
pub open spec fn touched_members(ctx: &OptContext, sel: &Selection) -> int {
    touched_below(ctx, sel, ctx.n_levels() as int)
}

/// The most candidates that bringing a selection up to date looks at: at each level those affected,
/// the seeds, and the members of all buckets put down.
pub open spec fn visit_limit(ctx: &OptContext, sel: &Selection, affected: nat, seeds: nat) -> int {
    ctx.n_levels() * (affected + seeds + touched_members(ctx, sel))
}

/// The limit is never below nothing.
pub proof fn visit_limit_nonnegative(ctx: &OptContext, sel: &Selection, affected: nat, seeds: nat)
    ensures
        visit_limit(ctx, sel, affected, seeds) >= 0,
{
    let rows = Seq::new(ctx.n_levels(), |l: int| touched_at(ctx, sel, l));
    assert forall|l: int| 0 <= l < rows.len() implies rows[l] >= 0 by {
        touched_at_nonnegative(ctx, sel, l);
    }
    sum_nonnegative(rows);
    assert(ctx.n_levels() * (affected + seeds + touched_members(ctx, sel)) >= 0) by (nonlinear_arith)
        requires
            touched_members(ctx, sel) >= 0,
    ;
}

/// No level has fewer than none in its buckets.
pub proof fn touched_at_nonnegative(ctx: &OptContext, sel: &Selection, li: int)
    ensures
        touched_at(ctx, sel, li) >= 0,
{
    sum_nonnegative(in_touched(ctx, sel, li));
}

/// The buckets of one level more hold those of that level more.
pub proof fn touched_below_step(ctx: &OptContext, sel: &Selection, li: int)
    requires
        0 <= li,
    ensures
        touched_below(ctx, sel, li + 1) == touched_below(ctx, sel, li) + touched_at(ctx, sel, li),
        touched_below(ctx, sel, li) >= 0,
        touched_at(ctx, sel, li) >= 0,
{
    let s = Seq::new(li as nat, |l: int| touched_at(ctx, sel, l));
    let t = Seq::new((li + 1) as nat, |l: int| touched_at(ctx, sel, l));
    assert(t.drop_last() =~= s);
    assert forall|l: int| 0 <= l < s.len() implies s[l] >= 0 by {
        touched_at_nonnegative(ctx, sel, l);
    }
    sum_nonnegative(s);
    touched_at_nonnegative(ctx, sel, li);
}

/// Levels that are the same, with the same buckets put down, have as many in them.
pub proof fn touched_below_same(ctx: &OptContext, a: &Selection, b: &Selection, li: int)
    requires
        0 <= li,
        forall|l: int| 0 <= l < li ==> (#[trigger] a@.levels[l]).codes == b@.levels[l].codes,
        forall|l: int, c: u32| 0 <= l < li ==> (#[trigger] a.touched(l, c) <==> b.touched(l, c)),
    ensures
        touched_below(ctx, a, li) == touched_below(ctx, b, li),
    decreases li,
{
    if li > 0 {
        let l = li - 1;
        touched_below_same(ctx, a, b, l);
        touched_below_step(ctx, a, l);
        touched_below_step(ctx, b, l);
        let x = a@.levels[l];
        assert forall|ci: int| 0 <= ci < ctx.n() implies in_touched(ctx, a, l)[ci] == in_touched(ctx, b, l)[ci] by {
            if let Some(c) = a@.levels[l].codes[ci] {
                assert(a.touched(l, c) <==> b.touched(l, c));
            }
        }
        assert(in_touched(ctx, a, l) =~= in_touched(ctx, b, l));
    } else {
        assert(Seq::new(0nat, |l: int| touched_at(ctx, a, l)) =~= Seq::new(0nat, |l: int| touched_at(ctx, b, l)));
    }
}

/// As many contend as there are candidates at most.
pub proof fn among_bound(codes: Seq<Option<u32>>, list: Seq<u32>)
    ensures
        0 <= sum(among(codes, list)) <= codes.len(),
{
    sum_nonnegative(among(codes, list));
    sum_le(among(codes, list), Seq::new(codes.len(), |i: int| 1int));
    sum_constant(codes.len(), 1);
}

/// Marks of the members of a list without repetitions add up to its length.
proof fn marks_add_up(n: nat, m: Seq<u32>)
    requires
        forall|i: int| 0 <= i < m.len() ==> (#[trigger] m[i]) < n,
        forall|i: int, j: int| #![trigger m[i], m[j]] 0 <= i < j < m.len() ==> m[i] != m[j],
    ensures
        sum(Seq::new(n, |ci: int| if m.contains(ci as u32) && ci <= u32::MAX { 1int } else { 0 })) == m.len(),
    decreases m.len(),
{
    let s = Seq::new(n, |ci: int| if m.contains(ci as u32) && ci <= u32::MAX { 1int } else { 0 });
    if m.len() == 0 {
        sum_zero(s);
    } else {
        let x = m.last();
        let front = m.drop_last();
        let t = Seq::new(n, |ci: int| if front.contains(ci as u32) && ci <= u32::MAX { 1int } else { 0 });
        assert forall|i: int, j: int| #![trigger front[i], front[j]] 0 <= i < j < front.len() implies front[i]
            != front[j] by {
            assert(m[i] == front[i] && m[j] == front[j]);
        }
        assert forall|i: int| 0 <= i < front.len() implies (#[trigger] front[i]) < n by {
            assert(m[i] == front[i]);
        }
        marks_add_up(n, front);
        assert(m[m.len() - 1] == x);
        assert(!front.contains(x)) by {
            if front.contains(x) {
                let i = front.index_of(x);
                assert(m[i] == x);
            }
        }
        assert(s =~= t.update(x as int, 1)) by {
            assert forall|ci: int| 0 <= ci < n implies s[ci] == t.update(x as int, 1)[ci] by {
                if m.contains(ci as u32) {
                    let i = m.index_of(ci as u32);
                    if i < front.len() {
                        assert(front[i] == ci as u32);
                    }
                }
                if front.contains(ci as u32) {
                    let i = front.index_of(ci as u32);
                    assert(m[i] == ci as u32);
                }
            }
        }
        sum_update(t, x as int, 1);
    }
}

/// One code more adds the members of its bucket, or nobody where it has none.
pub proof fn among_step(ctx: &OptContext, li: int, level: LevelView, list: Seq<u32>, c: u32)
    requires
        ctx.n() <= u32::MAX,
        level.codes.len() == ctx.n(),
        linked(ctx, li, level),
        !list.contains(c),
        level.members.contains_key(c) ==> forall|i: int, j: int|
            #![trigger level.members[c][i], level.members[c][j]]
            0 <= i < j < level.members[c].len() ==> level.members[c][i] != level.members[c][j],
    ensures
        sum(among(level.codes, list.push(c))) == sum(among(level.codes, list)) + if level.members.contains_key(c) {
            level.members[c].len() as int
        } else {
            0
        },
{
    let n = ctx.n();
    let m = if level.members.contains_key(c) {
        level.members[c]
    } else {
        Seq::<u32>::empty()
    };
    let s = among(level.codes, list);
    let t = Seq::new(n, |ci: int| if m.contains(ci as u32) && ci <= u32::MAX { 1int } else { 0 });
    assert forall|i: int| 0 <= i < m.len() implies (#[trigger] m[i]) < n by {
        let x = level.members[c][i];
    }
    assert forall|i: int, j: int| #![trigger m[i], m[j]] 0 <= i < j < m.len() implies m[i] != m[j] by {
        assert(level.members[c][i] != level.members[c][j]);
    }
    marks_add_up(n, m);
    sum_plus(s, t);
    let u = among(level.codes, list.push(c));
    assert(u =~= Seq::new(s.len(), |i: int| s[i] + t[i])) by {
        assert forall|ci: int| 0 <= ci < n implies u[ci] == s[ci] + t[ci] by {
            if let Some(d) = level.codes[ci] {
                assert(list.push(c).contains(d) <==> list.contains(d) || d == c) by {
                    if list.contains(d) {
                        let i = list.index_of(d);
                        assert(list.push(c)[i] == d);
                    }
                    if d == c {
                        assert(list.push(c)[list.len() as int] == d);
                    }
                    if list.push(c).contains(d) {
                        let i = list.push(c).index_of(d);
                        if i < list.len() {
                            assert(list[i] == d);
                        }
                    }
                }
            }
            if m.contains(ci as u32) {
                let j = m.index_of(ci as u32);
                assert(level.members[c][j] == ci as u32);
                assert(level.codes[ci] == Some(c));
            }
        }
    }
}

} // verus!
