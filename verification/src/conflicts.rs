//! Which groups stand in the way of each other: those whose characters share full codes.

use std::collections::HashMap;
use vstd::prelude::*;

use crate::codes::{mentions, part_group};
use crate::context::OptContext;
use crate::order::{sort_keys, SortKey};
use crate::sums::{sum, sum_constant, sum_le, sum_nonnegative, sum_update, sum_zero};
use crate::types::GROUP_MARKER;

verus! {

/// Whether a list holds the numbers below `n` whose code is `c`, ascending.
pub open spec fn lists_class(codes: Seq<u32>, n: int, c: u32, members: Seq<usize>) -> bool {
    &&& forall|i: int, j: int|
        0 <= i < j < members.len() ==> (#[trigger] members[i]) < (#[trigger] members[j])
    &&& forall|i: int|
        0 <= i < members.len() ==> (#[trigger] members[i]) < n && codes[members[i] as int] == c
    &&& forall|ci: int| 0 <= ci < n && #[trigger] codes[ci] == c ==> members.contains(ci as usize)
}

/// Whether a list names each code of the first `n` characters once, with the characters that have
/// it.
pub open spec fn lists_classes(codes: Seq<u32>, n: int, classes: Seq<(u32, Vec<usize>)>) -> bool {
    &&& forall|i: int, j: int|
        #![trigger classes[i], classes[j]]
        0 <= i < j < classes.len() ==> classes[i].0 != classes[j].0
    &&& forall|i: int|
        0 <= i < classes.len() ==> lists_class(codes, n, (#[trigger] classes[i]).0, classes[i].1@)
            && classes[i].1@.len() > 0
    &&& forall|ci: int|
        #![trigger codes[ci]]
        0 <= ci < n ==> exists|i: int| 0 <= i < classes.len() && (#[trigger] classes[i]).0 == codes[ci]
}

/// The codes that occur under an assignment, each with the characters that have it.
pub fn build_code_to_chars(ctx: &OptContext, assignment: &[u8]) -> (classes: Vec<(u32, Vec<usize>)>)
    requires
        ctx.wf_full(),
        ctx.assigns(assignment@),
    ensures
        lists_classes(ctx.full_codes(assignment@), ctx.n() as int, classes@),
{
    broadcast use vstd::std_specs::hash::group_hash_axioms;

    let ghost codes = ctx.full_codes(assignment@);
    let mut place: HashMap<u32, usize> = HashMap::new();
    let mut classes: Vec<(u32, Vec<usize>)> = Vec::new();
    let mut ci: usize = 0;
    while ci < ctx.char_infos.len()
        invariant
            ctx.wf_full(),
            ctx.assigns(assignment@),
            codes == ctx.full_codes(assignment@),
            ci <= ctx.n(),
            classes@.len() <= ci,
            lists_classes(codes, ci as int, classes@),
            forall|c: u32| #[trigger]
                place@.contains_key(c) ==> place@[c] < classes@.len() && classes@[place@[c] as int].0 == c,
            forall|i: int|
                0 <= i < classes@.len() ==> place@.contains_key((#[trigger] classes@[i]).0) && place@[classes@[i].0]
                    == i,
        decreases ctx.n() - ci,
    {
        broadcast use vstd::std_specs::hash::group_hash_axioms;

        let code = ctx.calc_code_only(ci, assignment);
        assert(code == codes[ci as int]);
        let ghost classes0 = classes@;
        let found = match place.get(&code) {
            Some(i) => Some(*i),
            None => None,
        };
        match found {
            Some(i) => {
                let ghost was = classes@[i as int].1@;
                assert(classes@[i as int].0 == code);
                classes[i].1.push(ci);
                proof {
                    assert(classes@[i as int].0 == code);
                    assert(classes@[i as int].1@ == was.push(ci));
                    class_extended(codes, ci as int, code, was);
                    assert forall|j: int| 0 <= j < classes@.len() && j != i implies #[trigger] classes@[j]
                        == classes0[j] by {}
                    assert forall|j: int| 0 <= j < classes@.len() implies lists_class(
                        codes,
                        ci + 1,
                        (#[trigger] classes@[j]).0,
                        classes@[j].1@,
                    ) && classes@[j].1@.len() > 0 by {
                        if j != i {
                            let x = classes0[j];
                            assert(classes@[j] == classes0[j]);
                            let y = classes0[i as int];
                            assert(classes0[j].0 != code);
                            class_kept(codes, ci as int, classes0[j].0, classes0[j].1@);
                        }
                    }
                    assert forall|j: int, l: int|
                        #![trigger classes@[j], classes@[l]]
                        0 <= j < l < classes@.len() implies classes@[j].0 != classes@[l].0 by {
                        let (x, y) = (classes0[j], classes0[l]);
                    }
                    assert forall|cj: int| #![trigger codes[cj]] 0 <= cj < ci + 1 implies exists|j: int|
                        0 <= j < classes@.len() && (#[trigger] classes@[j]).0 == codes[cj] by {
                        if cj == ci {
                            let x = classes@[i as int];
                        } else {
                            let j = choose|j: int|
                                0 <= j < classes0.len() && (#[trigger] classes0[j]).0 == codes[cj];
                            assert(classes@[j].0 == codes[cj]);
                        }
                    }
                    assert forall|j: int| 0 <= j < classes@.len() implies place@.contains_key(
                        (#[trigger] classes@[j]).0,
                    ) && place@[classes@[j].0] == j by {
                        let x = classes0[j];
                    }
                }
            },
            None => {
                let mut members: Vec<usize> = Vec::new();
                members.push(ci);
                let at = classes.len();
                proof {
                    assert forall|cj: int| 0 <= cj < ci implies #[trigger] codes[cj] != code by {
                        if codes[cj] == code {
                            let j = choose|j: int|
                                0 <= j < classes0.len() && (#[trigger] classes0[j]).0 == codes[cj];
                            assert(place@.contains_key(classes0[j].0));
                        }
                    }
                    assert(lists_class(codes, ci as int, code, Seq::<usize>::empty()));
                    class_extended(codes, ci as int, code, Seq::<usize>::empty());
                    assert(members@ =~= Seq::<usize>::empty().push(ci));
                }
                classes.push((code, members));
                place.insert(code, at);
                proof {
                    assert forall|j: int| 0 <= j < classes@.len() implies lists_class(
                        codes,
                        ci + 1,
                        (#[trigger] classes@[j]).0,
                        classes@[j].1@,
                    ) && classes@[j].1@.len() > 0 by {
                        if j < at {
                            let x = classes0[j];
                            assert(place@.contains_key(classes0[j].0));
                            assert(classes0[j].0 != code);
                            class_kept(codes, ci as int, classes0[j].0, classes0[j].1@);
                        }
                    }
                    assert forall|j: int, l: int|
                        #![trigger classes@[j], classes@[l]]
                        0 <= j < l < classes@.len() implies classes@[j].0 != classes@[l].0 by {
                        let x = classes0[j];
                        if l < at {
                            let y = classes0[l];
                        }
                    }
                    assert forall|cj: int| #![trigger codes[cj]] 0 <= cj < ci + 1 implies exists|j: int|
                        0 <= j < classes@.len() && (#[trigger] classes@[j]).0 == codes[cj] by {
                        if cj == ci {
                            assert(classes@[at as int].0 == codes[cj]);
                        } else {
                            let j = choose|j: int|
                                0 <= j < classes0.len() && (#[trigger] classes0[j]).0 == codes[cj];
                            assert(classes@[j].0 == codes[cj]);
                        }
                    }
                    assert forall|j: int| 0 <= j < classes@.len() implies place@.contains_key(
                        (#[trigger] classes@[j]).0,
                    ) && place@[classes@[j].0] == j by {
                        if j < at {
                            let x = classes0[j];
                        }
                    }
                }
            },
        }
        ci = ci + 1;
    }
    classes
}

/// A class with the next character, which belongs to it.
proof fn class_extended(codes: Seq<u32>, n: int, c: u32, members: Seq<usize>)
    requires
        0 <= n < codes.len(),
        n < usize::MAX,
        codes[n] == c,
        lists_class(codes, n, c, members),
    ensures
        lists_class(codes, n + 1, c, members.push(n as usize)),
{
    let after = members.push(n as usize);
    assert forall|ci: int| 0 <= ci < n + 1 && #[trigger] codes[ci] == c implies after.contains(
        ci as usize,
    ) by {
        if ci < n {
            let i = members.index_of(ci as usize);
            assert(after[i] == ci as usize);
        } else {
            assert(after[members.len() as int] == n as usize);
        }
    }
}

/// A class without the next character, which does not belong to it.
proof fn class_kept(codes: Seq<u32>, n: int, c: u32, members: Seq<usize>)
    requires
        0 <= n < codes.len(),
        codes[n] != c,
        lists_class(codes, n, c, members),
    ensures
        lists_class(codes, n + 1, c, members),
{
}

/// What a character adds to the weight of a code that it shares: its frequency, or one.
pub open spec fn clash_unit(ctx: &OptContext, by_freq: bool, ci: int) -> int {
    if by_freq {
        ctx.freq(ci)
    } else {
        1
    }
}

/// What each character adds to the weight of a code.
pub open spec fn clash_units(ctx: &OptContext, codes: Seq<u32>, by_freq: bool, c: u32) -> Seq<int> {
    Seq::new(
        ctx.n(),
        |ci: int|
            if codes[ci] == c {
                clash_unit(ctx, by_freq, ci)
            } else {
                0
            },
    )
}

/// The weight of a code: the characters that have it, or their frequency.
pub open spec fn clash_weight(ctx: &OptContext, codes: Seq<u32>, by_freq: bool, c: u32) -> int {
    sum(clash_units(ctx, codes, by_freq, c))
}

/// Whether two characters or more have a code.
pub open spec fn is_clash(codes: Seq<u32>, c: u32) -> bool {
    exists|i: int, j: int|
        #![trigger codes[i], codes[j]]
        0 <= i < j < codes.len() && codes[i] == c && codes[j] == c
}

/// Whether a group has a part in a character with a code.
pub open spec fn has_part_in(ctx: &OptContext, codes: Seq<u32>, c: u32, g: int) -> bool {
    exists|ci: int|
        #![trigger codes[ci]]
        0 <= ci < ctx.n() && codes[ci] == c && mentions(ctx.parts(ci), g)
}

/// Whether a code makes two groups, named in order, collide with a weight.
pub open spec fn collide(
    ctx: &OptContext,
    codes: Seq<u32>,
    by_freq: bool,
    c: u32,
    t: (usize, usize, u64),
) -> bool {
    &&& is_clash(codes, c)
    &&& t.0 < t.1
    &&& has_part_in(ctx, codes, c, t.0 as int)
    &&& has_part_in(ctx, codes, c, t.1 as int)
    &&& t.2 == clash_weight(ctx, codes, by_freq, c)
}

/// The codes of a list that make two groups collide with a weight.
pub open spec fn colliding(
    ctx: &OptContext,
    codes: Seq<u32>,
    by_freq: bool,
    among: Set<u32>,
    t: (usize, usize, u64),
) -> Set<u32> {
    among.filter(|c: u32| collide(ctx, codes, by_freq, c, t))
}

/// The order of collisions: the heaviest first, then by the groups.
pub open spec fn heavier(s: (usize, usize, u64), t: (usize, usize, u64)) -> bool {
    ||| s.2 > t.2
    ||| s.2 == t.2 && s.0 < t.0
    ||| s.2 == t.2 && s.0 == t.0 && s.1 <= t.1
}

/// Whether a list holds every pair of groups that collide, as often as there are codes that make
/// them collide with the weight given, in order.
pub open spec fn lists_collisions(
    ctx: &OptContext,
    codes: Seq<u32>,
    by_freq: bool,
    list: Seq<(usize, usize, u64)>,
) -> bool {
    &&& forall|i: int, j: int|
        #![trigger list[i], list[j]]
        0 <= i < j < list.len() ==> heavier(list[i], list[j])
    &&& forall|t: (usize, usize, u64)| #[trigger]
        list.to_multiset().count(t) == colliding(ctx, codes, by_freq, codes.to_set(), t).len()
}

/// Adds a group to an ascending list, unless it is there.
fn note_group(list: &mut Vec<usize>, g: usize)
    requires
        forall|i: int, j: int|
            0 <= i < j < old(list)@.len() ==> (#[trigger] old(list)@[i]) < (#[trigger] old(list)@[j]),
    ensures
        forall|i: int, j: int|
            0 <= i < j < final(list)@.len() ==> (#[trigger] final(list)@[i]) < (#[trigger] final(list)@[j]),
        forall|x: usize| #[trigger] final(list)@.contains(x) <==> old(list)@.contains(x) || x == g,
{
    let ghost was = list@;
    let mut i: usize = 0;
    while i < list.len() && list[i] < g
        invariant
            i <= list@.len(),
            list@ == was,
            forall|j: int| 0 <= j < i ==> (#[trigger] list@[j]) < g,
        decreases list@.len() - i,
    {
        i = i + 1;
    }
    if i < list.len() && list[i] == g {
        assert(was[i as int] == g);
        return;
    }
    list.insert(i, g);
    proof {
        assert forall|x: usize| #[trigger] list@.contains(x) <==> was.contains(x) || x == g by {
            if was.contains(x) {
                let j = was.index_of(x);
                if j < i {
                    assert(list@[j] == x);
                } else {
                    assert(list@[j + 1] == x);
                }
            }
            if x == g {
                assert(list@[i as int] == x);
            }
            if list@.contains(x) {
                let j = list@.index_of(x);
                if j < i {
                    assert(was[j] == x);
                } else if j > i {
                    assert(was[j - 1] == x);
                }
            }
        }
    }
}

/// The groups with a part in the characters of a class, ascending.
fn groups_in_class(ctx: &OptContext, codes: Ghost<Seq<u32>>, c: u32, members: &Vec<usize>) -> (list: Vec<usize>)
    requires
        ctx.wf_full(),
        codes@.len() == ctx.n(),
        lists_class(codes@, ctx.n() as int, c, members@),
    ensures
        forall|i: int, j: int|
            0 <= i < j < list@.len() ==> (#[trigger] list@[i]) < (#[trigger] list@[j]),
        forall|x: usize| #[trigger]
            list@.contains(x) <==> has_part_in(ctx, codes@, c, x as int),
{
    let mut list: Vec<usize> = Vec::new();
    let mut i: usize = 0;
    while i < members.len()
        invariant
            ctx.wf_full(),
            codes@.len() == ctx.n(),
            lists_class(codes@, ctx.n() as int, c, members@),
            i <= members@.len(),
            forall|j: int, l: int|
                0 <= j < l < list@.len() ==> (#[trigger] list@[j]) < (#[trigger] list@[l]),
            forall|x: usize| #[trigger]
                list@.contains(x) <==> exists|m: int|
                    #![trigger members@[m]]
                    0 <= m < i && mentions(ctx.parts(members@[m] as int), x as int),
        decreases members@.len() - i,
    {
        let ci = members[i];
        assert(members@[i as int] < ctx.n());
        let parts = &ctx.char_infos[ci].parts;
        let ghost list0 = list@;
        let mut k: usize = 0;
        while k < parts.len()
            invariant
                k <= parts@.len(),
                forall|j: int, l: int|
                    0 <= j < l < list@.len() ==> (#[trigger] list@[j]) < (#[trigger] list@[l]),
                forall|x: usize| #[trigger]
                    list@.contains(x) <==> list0.contains(x) || exists|m: int|
                        0 <= m < k && #[trigger] parts@[m] == GROUP_MARKER + x,
            decreases parts@.len() - k,
        {
            let p = parts[k];
            let ghost list1 = list@;
            if p >= GROUP_MARKER {
                let g = (p - GROUP_MARKER) as usize;
                note_group(&mut list, g);
            }
            proof {
                assert forall|x: usize| #[trigger] list@.contains(x) <==> list0.contains(x) || exists|m: int|
                    0 <= m < k + 1 && #[trigger] parts@[m] == GROUP_MARKER + x by {
                    assert(list1.contains(x) <==> list0.contains(x) || exists|m: int|
                        0 <= m < k && #[trigger] parts@[m] == GROUP_MARKER + x);
                    if p == GROUP_MARKER + x {
                        assert(parts@[k as int] == GROUP_MARKER + x);
                    }
                }
            }
            k = k + 1;
        }
        proof {
            assert forall|x: usize| #[trigger] list@.contains(x) <==> exists|m: int|
                #![trigger members@[m]]
                0 <= m < i + 1 && mentions(ctx.parts(members@[m] as int), x as int) by {
                assert(mentions(ctx.parts(ci as int), x as int) <==> exists|m: int|
                    0 <= m < parts@.len() && #[trigger] parts@[m] == GROUP_MARKER + x) by {
                    if mentions(ctx.parts(ci as int), x as int) {
                        let m = choose|m: int|
                            0 <= m < parts@.len() && part_group(#[trigger] parts@[m]) == Some(x as int);
                        assert(parts@[m] == GROUP_MARKER + x);
                    }
                    if exists|m: int| 0 <= m < parts@.len() && #[trigger] parts@[m] == GROUP_MARKER + x {
                        let m = choose|m: int| 0 <= m < parts@.len() && #[trigger] parts@[m] == GROUP_MARKER + x;
                        assert(part_group(parts@[m]) == Some(x as int));
                    }
                }
                let old_part = list0.contains(x);
                if mentions(ctx.parts(ci as int), x as int) {
                    assert(members@[i as int] == ci);
                }
            }
        }
        i = i + 1;
    }
    proof {
        assert forall|x: usize| #[trigger] list@.contains(x) <==> has_part_in(ctx, codes@, c, x as int) by {
            if list@.contains(x) {
                let m = choose|m: int|
                    #![trigger members@[m]]
                    0 <= m < members@.len() && mentions(ctx.parts(members@[m] as int), x as int);
                assert(codes@[members@[m] as int] == c);
            }
            if has_part_in(ctx, codes@, c, x as int) {
                let ci = choose|ci: int|
                    #![trigger codes@[ci]]
                    0 <= ci < ctx.n() && codes@[ci] == c && mentions(ctx.parts(ci), x as int);
                let m = members@.index_of(ci as usize);
                assert(members@[m] == ci as usize);
            }
        }
    }
    list
}

/// What the first `i` members of a class add to its weight, by character.
spec fn units(ctx: &OptContext, by_freq: bool, members: Seq<usize>, i: int) -> Seq<int> {
    Seq::new(
        ctx.n(),
        |ci: int|
            if members.take(i).contains(ci as usize) {
                clash_unit(ctx, by_freq, ci)
            } else {
                0
            },
    )
}

/// One more member adds its own.
proof fn units_step(ctx: &OptContext, codes: Seq<u32>, by_freq: bool, c: u32, members: Seq<usize>, i: int)
    requires
        ctx.n() <= u32::MAX,
        lists_class(codes, ctx.n() as int, c, members),
        0 <= i < members.len(),
    ensures
        sum(units(ctx, by_freq, members, i + 1)) == sum(units(ctx, by_freq, members, i)) + clash_unit(
            ctx,
            by_freq,
            members[i] as int,
        ),
{
    let m = members[i] as int;
    let was = units(ctx, by_freq, members, i);
    let now = units(ctx, by_freq, members, i + 1);
    let front = members.take(i);
    let front2 = members.take(i + 1);
    assert forall|ci: int| 0 <= ci < ctx.n() implies (#[trigger] front2.contains(ci as usize) <==> front.contains(
        ci as usize,
    ) || ci == m) by {
        if front2.contains(ci as usize) {
            let j = front2.index_of(ci as usize);
            if j < i {
                assert(front[j] == ci as usize);
            }
        }
        if front.contains(ci as usize) {
            let j = front.index_of(ci as usize);
            assert(front2[j] == ci as usize);
        }
        if ci == m {
            assert(front2[i] == ci as usize);
        }
    }
    assert(!front.contains(m as usize)) by {
        if front.contains(m as usize) {
            let j = front.index_of(m as usize);
            assert(members[j] < members[i]);
        }
    }
    assert forall|ci: int| 0 <= ci < ctx.n() implies now[ci] == was.update(m, clash_unit(ctx, by_freq, m))[ci] by {
        let x = front2.contains(ci as usize);
    }
    assert(now =~= was.update(m, clash_unit(ctx, by_freq, m)));
    sum_update(was, m, clash_unit(ctx, by_freq, m));
}

/// No member adds more than all of them.
proof fn units_bound(ctx: &OptContext, codes: Seq<u32>, by_freq: bool, c: u32, members: Seq<usize>, i: int)
    requires
        ctx.wf_full(),
        codes.len() == ctx.n(),
        lists_class(codes, ctx.n() as int, c, members),
        0 <= i <= members.len(),
    ensures
        0 <= sum(units(ctx, by_freq, members, i)) <= clash_weight(ctx, codes, by_freq, c) <= u64::MAX,
        i == members.len() ==> sum(units(ctx, by_freq, members, i)) == clash_weight(ctx, codes, by_freq, c),
{
    let part = units(ctx, by_freq, members, i);
    let whole = clash_units(ctx, codes, by_freq, c);
    assert forall|ci: int| 0 <= ci < ctx.n() implies 0 <= #[trigger] part[ci] <= whole[ci] by {
        if members.take(i).contains(ci as usize) {
            let j = members.take(i).index_of(ci as usize);
            assert(members[j] == ci as usize);
        }
    }
    sum_nonnegative(part);
    sum_le(part, whole);
    weight_fits(ctx, codes, by_freq, c);
    if i == members.len() {
        assert(members.take(i) =~= members);
        assert forall|ci: int| 0 <= ci < ctx.n() implies part[ci] == whole[ci] by {
            if codes[ci] == c {
                assert(members.contains(ci as usize));
            }
        }
        assert(part =~= whole);
    }
}

/// A weight is no more than a `u64` holds.
pub proof fn weight_fits(ctx: &OptContext, codes: Seq<u32>, by_freq: bool, c: u32)
    requires
        ctx.wf_full(),
        codes.len() == ctx.n(),
    ensures
        0 <= clash_weight(ctx, codes, by_freq, c) <= u64::MAX,
{
    let whole = clash_units(ctx, codes, by_freq, c);
    sum_nonnegative(whole);
    if by_freq {
        sum_le(whole, ctx.freqs());
    } else {
        let all = Seq::new(ctx.n(), |ci: int| 1int);
        sum_le(whole, all);
        sum_constant(ctx.n(), 1);
    }
}

/// The weight of a class.
fn class_weight(ctx: &OptContext, codes: Ghost<Seq<u32>>, by_freq: bool, c: u32, members: &Vec<usize>) -> (w: u64)
    requires
        ctx.wf_full(),
        codes@.len() == ctx.n(),
        lists_class(codes@, ctx.n() as int, c, members@),
    ensures
        w == clash_weight(ctx, codes@, by_freq, c),
{
    let mut w: u64 = 0;
    let mut i: usize = 0;
    proof {
        assert forall|ci: int| 0 <= ci < ctx.n() implies #[trigger] units(ctx, by_freq, members@, 0)[ci] == 0 by {
            assert(members@.take(0).len() == 0);
        }
        sum_zero(units(ctx, by_freq, members@, 0));
    }
    while i < members.len()
        invariant
            ctx.wf_full(),
            codes@.len() == ctx.n(),
            lists_class(codes@, ctx.n() as int, c, members@),
            i <= members@.len(),
            w == sum(units(ctx, by_freq, members@, i as int)),
        decreases members@.len() - i,
    {
        proof {
            units_step(ctx, codes@, by_freq, c, members@, i as int);
            units_bound(ctx, codes@, by_freq, c, members@, i + 1);
        }
        assert(members@[i as int] < ctx.n());
        if by_freq {
            w = w + ctx.char_infos[members[i]].frequency;
        } else {
            w = w + 1;
        }
        i = i + 1;
    }
    proof {
        units_bound(ctx, codes@, by_freq, c, members@, i as int);
    }
    w
}

/// A collision as a key to sort by.
spec fn as_key(t: (usize, usize, u64)) -> SortKey {
    SortKey { major: -(t.2 as int) as i128, minor: t.0 as i128, id: t.1 }
}

/// Whether a key to sort by stands for a collision.
spec fn is_pair(k: SortKey) -> bool {
    exists|t: (usize, usize, u64)| k == #[trigger] as_key(t)
}

/// The pairs of a list of groups, as keys to sort by.
fn pairs_of(list: &Vec<usize>, w: u64) -> (r: Vec<SortKey>)
    requires
        forall|i: int, j: int|
            0 <= i < j < list@.len() ==> (#[trigger] list@[i]) < (#[trigger] list@[j]),
    ensures
        r@.no_duplicates(),
        forall|t: (usize, usize, u64)|
            #![trigger as_key(t)]
            r@.contains(as_key(t)) <==> t.2 == w && t.0 < t.1 && list@.contains(t.0) && list@.contains(t.1),
        forall|i: int| 0 <= i < r@.len() ==> is_pair(#[trigger] r@[i]),
{
    let mut r: Vec<SortKey> = Vec::new();
    let mut i: usize = 0;
    while i < list.len()
        invariant
            forall|a: int, b: int|
                0 <= a < b < list@.len() ==> (#[trigger] list@[a]) < (#[trigger] list@[b]),
            i <= list@.len(),
            in_pair_order(r@),
            forall|a: int| 0 <= a < r@.len() ==> reached(list@, w, i as int, i + 1, #[trigger] r@[a]),
            holds_pairs(list@, w, i as int, i + 1, r@),
        decreases list@.len() - i,
    {
        let mut j: usize = i + 1;
        while j < list.len()
            invariant
                forall|a: int, b: int|
                    0 <= a < b < list@.len() ==> (#[trigger] list@[a]) < (#[trigger] list@[b]),
                i < j <= list@.len(),
                in_pair_order(r@),
                forall|a: int| 0 <= a < r@.len() ==> reached(list@, w, i as int, j as int, #[trigger] r@[a]),
                holds_pairs(list@, w, i as int, j as int, r@),
            decreases list@.len() - j,
        {
            let ghost was = r@;
            let k = SortKey { major: -(w as i128), minor: list[i] as i128, id: list[j] };
            proof {
                pair_step(list@, w, i as int, j as int, was, k);
            }
            r.push(k);
            j = j + 1;
        }
        proof {
            row_done(list@, w, i as int, r@);
        }
        i = i + 1;
    }
    proof {
        assert(r@.no_duplicates()) by {
            assert forall|a: int, b: int| 0 <= a < r@.len() && 0 <= b < r@.len() && a != b implies r@[a] != r@[b] by {
                if a < b {
                    assert(pair_before(r@[a], r@[b]));
                } else {
                    assert(pair_before(r@[b], r@[a]));
                }
            }
        }
        assert forall|t: (usize, usize, u64)|
            #![trigger as_key(t)]
            r@.contains(as_key(t)) <==> t.2 == w && t.0 < t.1 && list@.contains(t.0) && list@.contains(t.1) by {
            if r@.contains(as_key(t)) {
                let a = r@.index_of(as_key(t));
                assert(r@[a] == as_key(t));
                assert(reached(list@, w, i as int, i + 1, r@[a]));
                let (x, y) = reached_by(list@, w, i as int, i + 1, r@[a]);
                assert(t == (list@[x], list@[y], w));
            }
            if t.2 == w && t.0 < t.1 && list@.contains(t.0) && list@.contains(t.1) {
                let x = list@.index_of(t.0);
                let y = list@.index_of(t.1);
                assert(list@[x] == t.0 && list@[y] == t.1);
                if x > y {
                    assert(list@[y] < list@[x]);
                }
                assert(r@.contains(as_key((list@[x], list@[y], w))));
            }
        }
        assert forall|a: int| 0 <= a < r@.len() implies is_pair(#[trigger] r@[a]) by {
            let (x, y) = reached_by(list@, w, i as int, i + 1, r@[a]);
            assert(r@[a] == as_key((list@[x], list@[y], w)));
        }
    }
    r
}

/// Whether a pair of a list of groups has been listed when the `j`-th of the pairs that begin with
/// the `i`-th group is next.
spec fn reached(list: Seq<usize>, w: u64, i: int, j: int, k: SortKey) -> bool {
    exists|x: int, y: int|
        #![trigger list[x], list[y]]
        0 <= x <= i && x < y < list.len() && (x < i || y < j) && k == as_key((list[x], list[y], w))
}

/// Whether every pair that comes earlier has been listed.
spec fn holds_pairs(list: Seq<usize>, w: u64, i: int, j: int, r: Seq<SortKey>) -> bool {
    forall|x: int, y: int|
        #![trigger list[x], list[y]]
        0 <= x <= i && x < y < list.len() && (x < i || y < j) ==> r.contains(
            as_key((list[x], list[y], w)),
        )
}

/// The places of a pair that has been listed.
proof fn reached_by(list: Seq<usize>, w: u64, i: int, j: int, k: SortKey) -> (at: (int, int))
    requires
        reached(list, w, i, j, k),
    ensures
        0 <= at.0 <= i,
        at.0 < at.1 < list.len(),
        at.0 < i || at.1 < j,
        k == as_key((list[at.0], list[at.1], w)),
{
    choose|x: int, y: int|
        #![trigger list[x], list[y]]
        0 <= x <= i && x < y < list.len() && (x < i || y < j) && k == as_key((list[x], list[y], w))
}

/// One more pair.
proof fn pair_step(list: Seq<usize>, w: u64, i: int, j: int, was: Seq<SortKey>, k: SortKey)
    requires
        forall|a: int, b: int| 0 <= a < b < list.len() ==> (#[trigger] list[a]) < (#[trigger] list[b]),
        0 <= i < j < list.len(),
        in_pair_order(was),
        forall|a: int| 0 <= a < was.len() ==> reached(list, w, i, j, #[trigger] was[a]),
        holds_pairs(list, w, i, j, was),
        k == as_key((list[i], list[j], w)),
    ensures
        in_pair_order(was.push(k)),
        forall|a: int|
            0 <= a < was.push(k).len() ==> reached(list, w, i, j + 1, #[trigger] was.push(k)[a]),
        holds_pairs(list, w, i, j + 1, was.push(k)),
{
    let r = was.push(k);
    assert forall|a: int| 0 <= a < was.len() implies pair_before(#[trigger] was[a], k) by {
        let (x, y) = reached_by(list, w, i, j, was[a]);
        if x < i {
            assert(list[x] < list[i]);
        } else {
            assert(list[y] < list[j]);
        }
    }
    assert forall|a: int| 0 <= a < r.len() implies reached(list, w, i, j + 1, #[trigger] r[a]) by {
        if a < was.len() {
            let z = was[a];
            let (x, y) = reached_by(list, w, i, j, z);
            let (p, q) = (list[x], list[y]);
        } else {
            let (p, q) = (list[i], list[j]);
        }
    }
    assert forall|x: int, y: int|
        #![trigger list[x], list[y]]
        0 <= x <= i && x < y < list.len() && (x < i || y < j + 1) implies r.contains(
        as_key((list[x], list[y], w))) by {
        let t = as_key((list[x], list[y], w));
        if x < i || y < j {
            assert(was.contains(t));
            let z = was.index_of(t);
            assert(r[z] == t);
        } else {
            assert(r[was.len() as int] == t);
        }
    }
}

/// All pairs that begin with a group have been listed.
proof fn row_done(list: Seq<usize>, w: u64, i: int, r: Seq<SortKey>)
    requires
        0 <= i < list.len(),
        forall|a: int|
            0 <= a < r.len() ==> reached(list, w, i, list.len() as int, #[trigger] r[a]),
        holds_pairs(list, w, i, list.len() as int, r),
    ensures
        forall|a: int| 0 <= a < r.len() ==> reached(list, w, i + 1, i + 2, #[trigger] r[a]),
        holds_pairs(list, w, i + 1, i + 2, r),
{
    assert forall|a: int| 0 <= a < r.len() implies reached(list, w, i + 1, i + 2, #[trigger] r[a]) by {
        let (x, y) = reached_by(list, w, i, list.len() as int, r[a]);
        let (p, q) = (list[x], list[y]);
    }
}

/// Whether a pair comes before another in the order in which they are listed.
spec fn pair_before(a: SortKey, b: SortKey) -> bool {
    a.minor < b.minor || (a.minor == b.minor && a.id < b.id)
}

/// Whether pairs are listed in order, each once.
spec fn in_pair_order(r: Seq<SortKey>) -> bool {
    forall|i: int, j: int| 0 <= i < j < r.len() ==> pair_before(#[trigger] r[i], #[trigger] r[j])
}

/// The codes of the first classes of a list.
spec fn class_codes(classes: Seq<(u32, Vec<usize>)>, i: int) -> Set<u32>
    decreases i,
{
    if i <= 0 {
        Set::empty()
    } else {
        class_codes(classes, i - 1).insert(classes[i - 1].0)
    }
}

/// The codes of the first classes.
proof fn class_codes_are(classes: Seq<(u32, Vec<usize>)>, i: int)
    requires
        0 <= i <= classes.len(),
    ensures
        class_codes(classes, i).finite(),
        forall|c: u32| #[trigger]
            class_codes(classes, i).contains(c) <==> exists|j: int|
                0 <= j < i && (#[trigger] classes[j]).0 == c,
    decreases i,
{
    if i > 0 {
        class_codes_are(classes, i - 1);
        assert forall|c: u32| #[trigger] class_codes(classes, i).contains(c) <==> exists|j: int|
            0 <= j < i && (#[trigger] classes[j]).0 == c by {
            let before = class_codes(classes, i - 1).contains(c);
            if classes[i - 1].0 == c {
                let x = classes[i - 1];
            }
        }
    }
}

/// A class counts for the pairs that collide in it, each once.
proof fn class_counted(
    ctx: &OptContext,
    codes: Seq<u32>,
    by_freq: bool,
    classes: Seq<(u32, Vec<usize>)>,
    i: int,
    was: Seq<SortKey>,
    more: Seq<SortKey>,
)
    requires
        codes.len() == ctx.n(),
        lists_classes(codes, ctx.n() as int, classes),
        0 <= i < classes.len(),
        forall|t: (usize, usize, u64)|
            #![trigger as_key(t)]
            was.to_multiset().count(as_key(t)) == colliding(
                ctx,
                codes,
                by_freq,
                class_codes(classes, i),
                t,
            ).len(),
        more.no_duplicates(),
        forall|t: (usize, usize, u64)|
            #![trigger as_key(t)]
            more.contains(as_key(t)) <==> collide(ctx, codes, by_freq, classes[i].0, t),
    ensures
        forall|t: (usize, usize, u64)|
            #![trigger as_key(t)]
            (was + more).to_multiset().count(as_key(t)) == colliding(
                ctx,
                codes,
                by_freq,
                class_codes(classes, i + 1),
                t,
            ).len(),
{
    broadcast use vstd::seq_lib::group_to_multiset_ensures;

    let c = classes[i].0;
    class_codes_are(classes, i);
    assert(!class_codes(classes, i).contains(c)) by {
        if class_codes(classes, i).contains(c) {
            let j = choose|j: int| 0 <= j < i && (#[trigger] classes[j]).0 == c;
            assert(classes[j].0 != classes[i].0);
        }
    }
    vstd::seq_lib::lemma_multiset_commutative(was, more);
    more.lemma_multiset_has_no_duplicates();
    assert forall|t: (usize, usize, u64)|
        #![trigger as_key(t)]
        (was + more).to_multiset().count(as_key(t)) == colliding(
            ctx,
            codes,
            by_freq,
            class_codes(classes, i + 1),
            t,
        ).len() by {
        let k = as_key(t);
        let p = |d: u32| collide(ctx, codes, by_freq, d, t);
        let before = colliding(ctx, codes, by_freq, class_codes(classes, i), t);
        let after = colliding(ctx, codes, by_freq, class_codes(classes, i + 1), t);
        assert(more.contains(k) <==> more.to_multiset().count(k) > 0);
        assert((was + more).to_multiset().count(k) == was.to_multiset().count(k) + more.to_multiset().count(k));
        class_codes(classes, i).lemma_len_filter(p);
        if collide(ctx, codes, by_freq, c, t) {
            assert(more.contains(k));
            assert(more.to_multiset().count(k) == 1);
            assert(after =~= before.insert(c));
        } else {
            assert(!more.contains(k));
            assert(after =~= before);
        }
    }
}

/// A code is shared if its class has two characters or more.
proof fn class_clashes(ctx: &OptContext, codes: Seq<u32>, c: u32, members: Seq<usize>)
    requires
        ctx.n() <= u32::MAX,
        codes.len() == ctx.n(),
        lists_class(codes, ctx.n() as int, c, members),
    ensures
        members.len() >= 2 <==> is_clash(codes, c),
{
    if members.len() >= 2 {
        assert(members[0] < members[1]);
        assert(codes[members[0] as int] == c && codes[members[1] as int] == c);
    }
    if is_clash(codes, c) {
        let (i, j) = choose|i: int, j: int|
            #![trigger codes[i], codes[j]]
            0 <= i < j < codes.len() && codes[i] == c && codes[j] == c;
        let a = members.index_of(i as usize);
        let b = members.index_of(j as usize);
        assert(members[a] == i as usize && members[b] == j as usize);
    }
}

/// Turns keys back into collisions.
fn from_keys(keys: &Vec<SortKey>) -> (r: Vec<(usize, usize, u64)>)
    requires
        forall|i: int| 0 <= i < keys@.len() ==> is_pair(#[trigger] keys@[i]),
    ensures
        r@.len() == keys@.len(),
        forall|i: int| 0 <= i < r@.len() ==> keys@[i] == as_key(#[trigger] r@[i]),
{
    let mut r: Vec<(usize, usize, u64)> = Vec::new();
    let mut i: usize = 0;
    while i < keys.len()
        invariant
            i <= keys@.len(),
            forall|j: int| 0 <= j < keys@.len() ==> is_pair(#[trigger] keys@[j]),
            r@.len() == i,
            forall|j: int| 0 <= j < i ==> keys@[j] == as_key(#[trigger] r@[j]),
        decreases keys@.len() - i,
    {
        let k = keys[i];
        let ghost t = choose|t: (usize, usize, u64)| k == #[trigger] as_key(t);
        assert(is_pair(keys@[i as int]));
        assert(k == as_key(t));
        r.push((k.minor as usize, k.id, (-k.major) as u64));
        assert(r@[i as int] == t);
        i = i + 1;
    }
    r
}

/// A collision occurs as often as its key.
proof fn counts_agree(keys: Seq<SortKey>, r: Seq<(usize, usize, u64)>, t: (usize, usize, u64))
    requires
        r.len() == keys.len(),
        forall|i: int| 0 <= i < r.len() ==> keys[i] == as_key(#[trigger] r[i]),
    ensures
        r.to_multiset().count(t) == keys.to_multiset().count(as_key(t)),
    decreases r.len(),
{
    broadcast use vstd::seq_lib::group_to_multiset_ensures;

    if r.len() == 0 {
        assert(r =~= Seq::<(usize, usize, u64)>::empty());
        assert(keys =~= Seq::<SortKey>::empty());
    } else {
        counts_agree(keys.drop_last(), r.drop_last(), t);
        assert(r.drop_last().push(r.last()) =~= r);
        assert(keys.drop_last().push(keys.last()) =~= keys);
        assert(keys.last() == as_key(r.last()));
        let u = r.last();
        assert(u == t <==> as_key(u) == as_key(t));
    }
}

/// The pairs of groups that collide, the heaviest first. A pair is listed once for each code that
/// makes it collide, with the characters that have the code for its weight, or their frequency.
pub fn find_collision_groups(ctx: &OptContext, assignment: &[u8], weight_by_freq: bool) -> (r: Vec<
    (usize, usize, u64),
>)
    requires
        ctx.wf_full(),
        ctx.assigns(assignment@),
    ensures
        lists_collisions(ctx, ctx.full_codes(assignment@), weight_by_freq, r@),
        forall|i: int| 0 <= i < r@.len() ==> (#[trigger] r@[i]).0 < r@[i].1 < ctx.num_groups(),
{
    broadcast use vstd::seq_lib::group_to_multiset_ensures;

    let ghost codes = ctx.full_codes(assignment@);
    let classes = build_code_to_chars(ctx, assignment);
    let mut keys: Vec<SortKey> = Vec::new();
    let mut i: usize = 0;
    proof {
        assert forall|t: (usize, usize, u64)|
            #![trigger as_key(t)]
            keys@.to_multiset().count(as_key(t)) == colliding(
                ctx,
                codes,
                weight_by_freq,
                class_codes(classes@, 0),
                t,
            ).len() by {
            assert(colliding(ctx, codes, weight_by_freq, class_codes(classes@, 0), t) =~= Set::empty());
        }
    }
    while i < classes.len()
        invariant
            ctx.wf_full(),
            ctx.assigns(assignment@),
            codes == ctx.full_codes(assignment@),
            lists_classes(codes, ctx.n() as int, classes@),
            i <= classes@.len(),
            forall|j: int| 0 <= j < keys@.len() ==> is_pair(#[trigger] keys@[j]),
            forall|t: (usize, usize, u64)|
                #![trigger as_key(t)]
                keys@.to_multiset().count(as_key(t)) == colliding(
                    ctx,
                    codes,
                    weight_by_freq,
                    class_codes(classes@, i as int),
                    t,
                ).len(),
        decreases classes@.len() - i,
    {
        let ghost was = keys@;
        let ghost c = classes@[i as int].0;
        let ghost mut more: Seq<SortKey> = Seq::empty();
        let members = &classes[i].1;
        proof {
            class_clashes(ctx, codes, c, members@);
        }
        if members.len() >= 2 {
            let code = classes[i].0;
            let w = class_weight(ctx, Ghost(codes), weight_by_freq, code, members);
            let groups = groups_in_class(ctx, Ghost(codes), code, members);
            let mut pairs = pairs_of(&groups, w);
            proof {
                more = pairs@;
            }
            keys.append(&mut pairs);
            assert(keys@ =~= was + more);
        }
        proof {
            assert(keys@ =~= was + more);
            class_counted(ctx, codes, weight_by_freq, classes@, i as int, was, more);
        }
        i = i + 1;
    }
    let ghost unsorted = keys@;
    let sorted_list = sort_keys(keys);
    proof {
        assert forall|j: int| 0 <= j < sorted_list@.len() implies is_pair(#[trigger] sorted_list@[j]) by {
            let k = sorted_list@[j];
            assert(sorted_list@.contains(k));
            assert(sorted_list@.to_multiset().count(k) > 0);
            assert(unsorted.contains(k));
            let l = unsorted.index_of(k);
            assert(unsorted[l] == k);
        }
    }
    let r = from_keys(&sorted_list);
    proof {
        class_codes_are(classes@, classes@.len() as int);
        assert(class_codes(classes@, classes@.len() as int) =~= codes.to_set()) by {
            assert forall|c: u32| #[trigger] class_codes(classes@, classes@.len() as int).contains(c)
                <==> codes.to_set().contains(c) by {
                if class_codes(classes@, classes@.len() as int).contains(c) {
                    let j = choose|j: int| 0 <= j < classes@.len() && (#[trigger] classes@[j]).0 == c;
                    let m = classes@[j].1@[0];
                    assert(codes[m as int] == c);
                }
                if codes.to_set().contains(c) {
                    let ci = codes.index_of(c);
                    assert(codes[ci] == c);
                    let j = choose|j: int|
                        0 <= j < classes@.len() && (#[trigger] classes@[j]).0 == codes[ci];
                    let x = classes@[j];
                }
            }
        }
        assert forall|t: (usize, usize, u64)| #[trigger] r@.to_multiset().count(t) == colliding(
            ctx,
            codes,
            weight_by_freq,
            codes.to_set(),
            t,
        ).len() by {
            counts_agree(sorted_list@, r@, t);
            let k = as_key(t);
        }
        assert forall|a: int, b: int|
            #![trigger r@[a], r@[b]]
            0 <= a < b < r@.len() implies heavier(r@[a], r@[b]) by {
            assert(!sorted_list@[b].before(sorted_list@[a]));
            assert(sorted_list@[a] == as_key(r@[a]));
            assert(sorted_list@[b] == as_key(r@[b]));
        }
        assert forall|a: int| 0 <= a < r@.len() implies (#[trigger] r@[a]).0 < r@[a].1
            < ctx.num_groups() by {
            let t = r@[a];
            assert(r@.contains(t));
            assert(r@.to_multiset().count(t) > 0);
            pair_in_range(ctx, codes, weight_by_freq, t);
        }
    }
    r
}

/// Groups that collide are groups.
proof fn pair_in_range(ctx: &OptContext, codes: Seq<u32>, by_freq: bool, t: (usize, usize, u64))
    requires
        ctx.wf_full(),
        codes.len() == ctx.n(),
        colliding(ctx, codes, by_freq, codes.to_set(), t).len() > 0,
    ensures
        t.0 < t.1 < ctx.num_groups(),
{
    let s = colliding(ctx, codes, by_freq, codes.to_set(), t);
    let c = s.choose();
    if !s.contains(c) {
        assert(s =~= Set::empty());
    }
    assert(collide(ctx, codes, by_freq, c, t));
    let ci = choose|ci: int|
        #![trigger codes[ci]]
        0 <= ci < ctx.n() && codes[ci] == c && mentions(ctx.parts(ci), t.1 as int);
    let info = ctx.char_infos@[ci];
    let parts = ctx.parts(ci);
    let i = choose|i: int| 0 <= i < parts.len() && part_group(#[trigger] parts[i]) == Some(t.1 as int);
    assert(crate::codes::part_ok(parts[i], ctx.num_groups()));
}

/// The groups on a key, ascending.
pub fn find_groups_on_key(ctx: &OptContext, assignment: &[u8], key: u8) -> (r: Vec<usize>)
    requires
        assignment@.len() == ctx.num_groups(),
    ensures
        crate::context::lists_ascending(
            r@,
            ctx.num_groups(),
            |g: int| assignment@[g] == key,
        ),
{
    let mut r: Vec<usize> = Vec::new();
    let mut g: usize = 0;
    let ghost p = |h: int| assignment@[h] == key;
    while g < assignment.len()
        invariant
            g <= assignment@.len(),
            p == (|h: int| assignment@[h] == key),
            crate::context::lists_ascending(r@, g as nat, p),
        decreases assignment@.len() - g,
    {
        let ghost was = r@;
        if assignment[g] == key {
            r.push(g);
        }
        proof {
            assert forall|x: int| 0 <= x < g + 1 && #[trigger] p(x) implies r@.contains(x as usize) by {
                if x < g {
                    assert(was.contains(x as usize));
                    let i = was.index_of(x as usize);
                    assert(r@[i] == x as usize);
                } else {
                    assert(r@[was.len() as int] == x as usize);
                }
            }
        }
        g = g + 1;
    }
    r
}

} // verus!
