//! What the steps of a search do to an assignment, and which collisions, starts and numbers they go by,
//! told group by group and key by key.

use vstd::prelude::*;

use crate::annealing::{final_steps, report_every};
use crate::climb::{climb_ends, idle, StepDraw};
use crate::conflicts::{
    clash_units, clash_weight, collide, colliding, has_part_in, is_clash, lists_collisions,
};
use crate::context::OptContext;
use crate::descent::settled_at;
use crate::evaluator::Evaluator;
use crate::moves::{judged, placed, rotated, scored, swapped};
use crate::multistart::{kind_of, starts_for, warmup, StartKind, Trials};
use crate::neighbours::{in_turn, moved_off, others, passed_on, resolved, without_in};
use crate::order::descending;
use crate::starts::{balanced, highest, is_order, last_used, spread, stalest, top_key, uses};
use crate::sums::sum;
use crate::types::{GROUP_MARKER, KeyLayout};

verus! {

/// Whether two characters or more have a code, and both groups have a part in some of those, the first
/// group named first.
pub open spec fn clash_of(ctx: &OptContext, codes: Seq<u32>, c: u32, g1: int, g2: int) -> bool {
    let part_in = |g: int|
        exists|ci: int, i: int|
            #![trigger ctx.char_infos@[ci].parts@[i]]
            0 <= ci < ctx.char_infos@.len() && codes[ci] == c && 0 <= i < ctx.char_infos@[ci].parts@.len()
                && ctx.char_infos@[ci].parts@[i] == GROUP_MARKER + g;
    &&& g1 < g2
    &&& exists|ci: int, cj: int|
        #![trigger codes[ci], codes[cj]]
        0 <= ci < cj < ctx.char_infos@.len() && codes[ci] == c && codes[cj] == c
    &&& part_in(g1)
    &&& part_in(g2)
}

/// What each character adds to the weight of a code.
pub open spec fn weights(ctx: &OptContext, codes: Seq<u32>, by_freq: bool, c: u32) -> Seq<int> {
    Seq::new(
        ctx.char_infos@.len(),
        |ci: int|
            if codes[ci] != c {
                0
            } else if by_freq {
                ctx.char_infos@[ci].frequency as int
            } else {
                1
            },
    )
}

/// The weight of a code: the number of characters that have it, or their frequency.
pub open spec fn weight_of(ctx: &OptContext, codes: Seq<u32>, by_freq: bool, c: u32) -> int {
    sum(weights(ctx, codes, by_freq, c))
}

/// A code makes groups collide exactly where characters with parts of them share it.
proof fn clash_told(ctx: &OptContext, codes: Seq<u32>, by_freq: bool, c: u32, t: (usize, usize, u64))
    requires
        codes.len() == ctx.n(),
    ensures
        collide(ctx, codes, by_freq, c, t) <==> clash_of(ctx, codes, c, t.0 as int, t.1 as int) && t.2
            == weight_of(ctx, codes, by_freq, c),
        clash_weight(ctx, codes, by_freq, c) == weight_of(ctx, codes, by_freq, c),
{
    part_in_told(ctx, codes, c, t.0 as int);
    part_in_told(ctx, codes, c, t.1 as int);
    assert(clash_units(ctx, codes, by_freq, c) =~= weights(ctx, codes, by_freq, c));
    if is_clash(codes, c) {
        let (i, j) = choose|i: int, j: int|
            #![trigger codes[i], codes[j]]
            0 <= i < j < codes.len() && codes[i] == c && codes[j] == c;
        let (x, y) = (codes[i], codes[j]);
    }
}

/// A group has a part in a code exactly where a character with the code has a part that stands for it.
proof fn part_in_told(ctx: &OptContext, codes: Seq<u32>, c: u32, g: int)
    requires
        codes.len() == ctx.n(),
        g >= 0,
    ensures
        has_part_in(ctx, codes, c, g) <==> exists|ci: int, i: int|
            #![trigger ctx.char_infos@[ci].parts@[i]]
            0 <= ci < ctx.char_infos@.len() && codes[ci] == c && 0 <= i < ctx.char_infos@[ci].parts@.len()
                && ctx.char_infos@[ci].parts@[i] == GROUP_MARKER + g,
{
    if has_part_in(ctx, codes, c, g) {
        let ci = choose|ci: int|
            #![trigger codes[ci]]
            0 <= ci < ctx.n() && codes[ci] == c && crate::codes::mentions(ctx.parts(ci), g);
        let i = choose|i: int|
            0 <= i < ctx.parts(ci).len() && crate::codes::part_group(#[trigger] ctx.parts(ci)[i]) == Some(g);
        assert(ctx.char_infos@[ci].parts@[i] == GROUP_MARKER + g);
    }
    if exists|ci: int, i: int|
        #![trigger ctx.char_infos@[ci].parts@[i]]
        0 <= ci < ctx.char_infos@.len() && codes[ci] == c && 0 <= i < ctx.char_infos@[ci].parts@.len()
            && ctx.char_infos@[ci].parts@[i] == GROUP_MARKER + g {
        let (ci, i) = choose|ci: int, i: int|
            #![trigger ctx.char_infos@[ci].parts@[i]]
            0 <= ci < ctx.char_infos@.len() && codes[ci] == c && 0 <= i < ctx.char_infos@[ci].parts@.len()
                && ctx.char_infos@[ci].parts@[i] == GROUP_MARKER + g;
        assert(crate::codes::part_group(ctx.parts(ci)[i]) == Some(g));
        assert(crate::codes::mentions(ctx.parts(ci), g));
        let x = codes[ci];
    }
}

/// The list of collisions names two groups, with a weight, as often as there are codes of that weight
/// which two characters or more share, and in which both groups have a part; the heaviest come first, and
/// of those as heavy the ones of earlier groups.
/// Whoever shares a code finds the groups of its parts on the list.
pub proof fn collisions_listed(
    ctx: &OptContext,
    codes: Seq<u32>,
    by_freq: bool,
    list: Seq<(usize, usize, u64)>,
    c: u32,
    g1: usize,
    g2: usize,
)
    requires
        ctx.wf_full(),
        codes.len() == ctx.char_infos@.len(),
        lists_collisions(ctx, codes, by_freq, list),
    ensures
        forall|i: int, j: int|
            #![trigger list[i], list[j]]
            0 <= i < j < list.len() ==> {
                ||| list[i].2 > list[j].2
                ||| list[i].2 == list[j].2 && list[i].0 < list[j].0
                ||| list[i].2 == list[j].2 && list[i].0 == list[j].0 && list[i].1 <= list[j].1
            },
        clash_of(ctx, codes, c, g1 as int, g2 as int) ==> list.contains(
            (g1, g2, weight_of(ctx, codes, by_freq, c) as u64),
        ) && weight_of(ctx, codes, by_freq, c) <= u64::MAX,
        forall|i: int|
            #![trigger list[i]]
            0 <= i < list.len() ==> exists|d: u32|
                clash_of(ctx, codes, d, list[i].0 as int, list[i].1 as int) && list[i].2 == #[trigger] weight_of(
                    ctx,
                    codes,
                    by_freq,
                    d,
                ),
        forall|t: (usize, usize, u64)| #[trigger]
            list.to_multiset().count(t) == clashes(ctx, codes, by_freq, t).len(),
{
    broadcast use vstd::seq_lib::group_to_multiset_ensures;

    assert forall|t: (usize, usize, u64)| #[trigger] list.to_multiset().count(t) == clashes(
        ctx,
        codes,
        by_freq,
        t,
    ).len() by {
        let a = colliding(ctx, codes, by_freq, codes.to_set(), t);
        let b = clashes(ctx, codes, by_freq, t);
        assert forall|d: u32| a.contains(d) <==> b.contains(d) by {
            clash_told(ctx, codes, by_freq, d, t);
        }
        assert(a =~= b);
    }
    vstd::seq_lib::seq_to_set_is_finite(codes);
    assert forall|i: int| #![trigger list[i]] 0 <= i < list.len() implies exists|d: u32|
        clash_of(ctx, codes, d, list[i].0 as int, list[i].1 as int) && list[i].2 == #[trigger] weight_of(
            ctx,
            codes,
            by_freq,
            d,
        ) by {
        let t = list[i];
        assert(list.contains(t));
        assert(list.to_multiset().count(t) > 0);
        let s = clashes(ctx, codes, by_freq, t);
        if s =~= Set::empty() {
            assert(s.len() == 0);
        }
        let d = choose|d: u32| s.contains(d);
        assert(s.contains(d));
        let w = weight_of(ctx, codes, by_freq, d);
    }
    if clash_of(ctx, codes, c, g1 as int, g2 as int) {
        crate::conflicts::weight_fits(ctx, codes, by_freq, c);
        let w = weight_of(ctx, codes, by_freq, c);
        let t = (g1, g2, w as u64);
        clash_told(ctx, codes, by_freq, c, t);
        let (ci, cj) = choose|ci: int, cj: int|
            #![trigger codes[ci], codes[cj]]
            0 <= ci < cj < ctx.char_infos@.len() && codes[ci] == c && codes[cj] == c;
        assert(codes.contains(c));
        let s = clashes(ctx, codes, by_freq, t);
        assert(s.contains(c));
        assert(codes.to_set().finite());
        assert(s.subset_of(codes.to_set()));
        vstd::set_lib::lemma_set_subset_finite(codes.to_set(), s);
        if s.len() == 0 {
            assert(s =~= Set::empty());
        }
        assert(list.to_multiset().count(t) > 0);
    }
}

/// The codes that make two groups collide with a weight.
pub open spec fn clashes(ctx: &OptContext, codes: Seq<u32>, by_freq: bool, t: (usize, usize, u64)) -> Set<u32> {
    Set::new(
        |c: u32|
            codes.contains(c) && clash_of(ctx, codes, c, t.0 as int, t.1 as int) && t.2 == weight_of(
                ctx,
                codes,
                by_freq,
                c,
            ),
    )
}

/// Swapping gives each of two groups the key of the other, and leaves all others alone; swapping again
/// takes it back.
pub proof fn swap_told(a: Seq<u8>, r1: int, r2: int)
    requires
        0 <= r1 < a.len(),
        0 <= r2 < a.len(),
    ensures
        swapped(a, r1, r2).len() == a.len(),
        swapped(a, r1, r2)[r1] == a[r2],
        swapped(a, r1, r2)[r2] == a[r1],
        forall|g: int|
            0 <= g < a.len() && g != r1 && g != r2 ==> #[trigger] swapped(a, r1, r2)[g] == a[g],
        swapped(swapped(a, r1, r2), r1, r2) == a,
{
    assert(swapped(swapped(a, r1, r2), r1, r2) =~= a);
}

/// Passing on gives each of three groups the key of the next, and leaves all others alone; passing on
/// three times takes it back.
pub proof fn rotation_told(a: Seq<u8>, g1: int, g2: int, g3: int)
    requires
        0 <= g1 < a.len(),
        0 <= g2 < a.len(),
        0 <= g3 < a.len(),
        g1 != g2,
        g2 != g3,
        g1 != g3,
    ensures
        rotated(a, g1, g2, g3).len() == a.len(),
        rotated(a, g1, g2, g3)[g1] == a[g2],
        rotated(a, g1, g2, g3)[g2] == a[g3],
        rotated(a, g1, g2, g3)[g3] == a[g1],
        forall|g: int|
            0 <= g < a.len() && g != g1 && g != g2 && g != g3 ==> #[trigger] rotated(a, g1, g2, g3)[g] == a[g],
        rotated(rotated(rotated(a, g1, g2, g3), g1, g2, g3), g1, g2, g3) == a,
{
    assert(rotated(rotated(rotated(a, g1, g2, g3), g1, g2, g3), g1, g2, g3) =~= a);
}

/// Moving groups puts each on the last key named for it, and leaves all others alone.
pub proof fn moves_told(a: Seq<u8>, groups: Seq<usize>, keys: Seq<u8>, i: int, g: int)
    requires
        0 <= i <= groups.len() == keys.len(),
        forall|j: int| 0 <= j < groups.len() ==> (#[trigger] groups[j]) < a.len(),
        0 <= g < a.len(),
    ensures
        placed(a, groups, keys, i).len() == a.len(),
        (forall|j: int| 0 <= j < i ==> #[trigger] groups[j] != g) ==> placed(a, groups, keys, i)[g] == a[g],
        forall|j: int|
            0 <= j < i && #[trigger] groups[j] == g && (forall|k: int| j < k < i ==> #[trigger] groups[k] != g)
                ==> placed(a, groups, keys, i)[g] == keys[j],
    decreases i,
{
    if i > 0 {
        moves_told(a, groups, keys, i - 1, g);
        let x = groups[i - 1];
        assert forall|j: int|
            0 <= j < i && #[trigger] groups[j] == g && (forall|k: int| j < k < i ==> #[trigger] groups[k] != g) implies placed(
            a,
            groups,
            keys,
            i,
        )[g] == keys[j] by {
            if j < i - 1 {
                assert(groups[i - 1] != g);
            }
        }
    }
}

/// Whether one assignment becomes another when one group goes to another key that it may be put on.
pub open spec fn one_moves(ctx: &OptContext, a: Seq<u8>, b: Seq<u8>, g: int) -> bool {
    &&& b.len() == a.len()
    &&& b[g] != a[g]
    &&& ctx.groups@[g].allowed_keys@.contains(b[g])
    &&& forall|h: int| 0 <= h < a.len() && h != g ==> #[trigger] b[h] == a[h]
}

/// A group that moved off its key is on another one that it may be put on, and is the only one.
proof fn moved_off_told<S, F: Fn(&Evaluator, &Vec<u8>) -> S, G: Fn(&S, &S) -> bool>(
    ctx: &OptContext,
    simple: bool,
    score: &F,
    accept: &G,
    a: Seq<u8>,
    b: Seq<u8>,
    g: int,
)
    requires
        0 <= g < a.len(),
        moved_off(ctx, simple, score, accept, a, b, g),
    ensures
        one_moves(ctx, a, b, g),
        judged(ctx, simple, score, accept, a, b, true),
{
    let i = choose|i: int|
        {
            &&& 0 <= i < others(ctx, a, g).len()
            &&& b == a.update(g, #[trigger] others(ctx, a, g)[i])
            &&& judged(ctx, simple, score, accept, a, b, true)
        };
    without_in(ctx.choices(g), a[g], i);
}

/// A collision that was resolved is one of the first of the list: one of its two groups, and no other
/// group, is on another key that it may be put on, and that was accepted.
pub proof fn resolution_told<S, F: Fn(&Evaluator, &Vec<u8>) -> S, G: Fn(&S, &S) -> bool>(
    ctx: &OptContext,
    simple: bool,
    score: &F,
    accept: &G,
    collisions: Seq<(usize, usize, u64)>,
    window: int,
    a: Seq<u8>,
    b: Seq<u8>,
)
    requires
        forall|i: int|
            0 <= i < collisions.len() ==> (#[trigger] collisions[i]).0 < a.len() && collisions[i].1 < a.len(),
        resolved(ctx, simple, score, accept, collisions, window, a, b, true),
    ensures
        exists|i: int|
            #![trigger collisions[i]]
            0 <= i < collisions.len() && i < window && (one_moves(ctx, a, b, collisions[i].0 as int)
                || one_moves(ctx, a, b, collisions[i].1 as int)),
        judged(ctx, simple, score, accept, a, b, true),
{
    let (i, flip) = choose|i: int, flip: bool|
        {
            &&& 0 <= i < collisions.len() && i < window
            &&& {
                let (first, second) = #[trigger] in_turn(collisions[i], flip);
                {
                    ||| moved_off(ctx, simple, score, accept, a, b, first as int)
                    ||| crate::neighbours::held(ctx, simple, score, accept, a, first as int) && moved_off(
                        ctx,
                        simple,
                        score,
                        accept,
                        a,
                        b,
                        second as int,
                    )
                }
            }
        };
    let (first, second) = in_turn(collisions[i], flip);
    let x = collisions[i];
    if moved_off(ctx, simple, score, accept, a, b, first as int) {
        moved_off_told(ctx, simple, score, accept, a, b, first as int);
    } else {
        moved_off_told(ctx, simple, score, accept, a, b, second as int);
    }
}

/// Three groups that passed their keys on are on keys that they may be put on, each on that of the next,
/// and no other group has moved.
pub proof fn passing_on_told<S, F: Fn(&Evaluator, &Vec<u8>) -> S, G: Fn(&S, &S) -> bool>(
    ctx: &OptContext,
    simple: bool,
    score: &F,
    accept: &G,
    a: Seq<u8>,
    b: Seq<u8>,
)
    requires
        a.len() == ctx.groups@.len(),
        passed_on(ctx, simple, score, accept, a, b, true),
    ensures
        a != b,
        judged(ctx, simple, score, accept, a, b, true),
        exists|g1: int, g2: int, g3: int|
            #![trigger a[g1], a[g2], a[g3]]
            {
                &&& 0 <= g1 < a.len() && 0 <= g2 < a.len() && 0 <= g3 < a.len()
                &&& g1 != g2 && g2 != g3 && g1 != g3
                &&& b.len() == a.len()
                &&& b[g1] == a[g2] && b[g2] == a[g3] && b[g3] == a[g1]
                &&& ctx.groups@[g1].allowed_keys@.contains(b[g1])
                &&& ctx.groups@[g2].allowed_keys@.contains(b[g2])
                &&& ctx.groups@[g3].allowed_keys@.contains(b[g3])
                &&& forall|h: int| 0 <= h < a.len() && h != g1 && h != g2 && h != g3 ==> #[trigger] b[h] == a[h]
            },
{
    let (g1, g2, g3) = choose|g1: int, g2: int, g3: int|
        {
            &&& crate::neighbours::distinct_groups(ctx, g1, g2, g3)
            &&& {
                let turned = #[trigger] rotated(a, g1, g2, g3);
                let can = crate::moves::rotatable(ctx, a, g1, g2, g3);
                &&& can && b == turned
                &&& can ==> judged(ctx, simple, score, accept, a, turned, true)
            }
        };
    rotation_told(a, g1, g2, g3);
    let (x, y, z) = (a[g1], a[g2], a[g3]);
    assert(b[g1] == y && b[g2] == z && b[g3] == x);
}

/// Where a descent has settled, no key of any single group scores lower, if scores stand for ranks and
/// whatever is lower counts as better.
pub proof fn descent_ends_at_a_low<S, F: Fn(&Evaluator, &Vec<u8>) -> S, G: Fn(&S, &S) -> bool>(
    ctx: &OptContext,
    simple: bool,
    score: &F,
    better: &G,
    a: Seq<u8>,
    g: int,
    k: u8,
    rank: spec_fn(Seq<u8>) -> int,
    value: spec_fn(S) -> int,
)
    requires
        0 <= g < a.len(),
        settled_at(ctx, simple, score, better, a, g),
        ctx.groups@[g].allowed_keys@.contains(k),
        forall|b: Seq<u8>, s: S| #[trigger] scored(ctx, simple, score, b, s) ==> value(s) == rank(b),
        forall|s: S, t: S| #[trigger] call_ensures(better, (&s, &t), false) ==> value(t) >= value(s),
    ensures
        rank(a.update(g, k)) >= rank(a),
{
    let list = ctx.choices(g);
    let i = list.index_of(k);
    assert(ctx.choices(g)[i] == k);
    if k != a[g] {
        assert(judged(ctx, simple, score, better, a, a.update(g, k), false));
    } else {
        assert(a.update(g, k) =~= a);
    }
}

/// Which of the first groups of an order are on a key.
pub open spec fn users(order: Seq<usize>, a: Seq<u8>, i: int, k: u8) -> Seq<int> {
    Seq::new(i as nat, |j: int| if a[order[j] as int] == k { 1int } else { 0 })
}

/// How many of the first groups of an order are on a key.
pub open spec fn used_before(order: Seq<usize>, a: Seq<u8>, i: int, k: u8) -> int {
    sum(users(order, a, i, k))
}

/// Uses are the groups before that are on the key.
proof fn uses_told(order: Seq<usize>, a: Seq<u8>, top: int, i: int, k: u8)
    requires
        0 <= i,
    ensures
        uses(order, a, top, i, k) == if k > top {
            0
        } else {
            used_before(order, a, i, k)
        },
    decreases i,
{
    if i > 0 {
        uses_told(order, a, top, i - 1, k);
        assert(users(order, a, i, k).drop_last() =~= users(order, a, i - 1, k));
    }
}

/// A balanced start takes the groups in turn, those with the most characters first, and of those with as
/// many the earlier first, and puts each on a
/// key that no more of the groups before are on than on any other key that it may be put on. Keys above
/// the highest of the layout's characters given count as unused.
pub proof fn balanced_start_told(
    ctx: &OptContext,
    order: Seq<usize>,
    a: Seq<u8>,
    text: Seq<char>,
    i: int,
    k: u8,
)
    requires
        descending(ctx.sizes(), order),
        balanced(ctx, order, a, top_key(ctx.layout, text)),
        ctx.groups@.len() <= usize::MAX,
        forall|g: int|
            0 <= g < ctx.groups@.len() ==> (#[trigger] ctx.group_to_chars@[g])@.len() <= u64::MAX,
        0 <= i < order.len(),
        ctx.groups@[order[i] as int].allowed_keys@.contains(k),
        k <= top_key(ctx.layout, text),
        a[order[i] as int] <= top_key(ctx.layout, text),
    ensures
        used_before(order, a, i, a[order[i] as int]) <= used_before(order, a, i, k),
        forall|j: int|
            0 <= j < i ==> {
                let (x, y) = (
                    ctx.group_to_chars@[(#[trigger] order[j]) as int]@.len(),
                    ctx.group_to_chars@[order[i] as int]@.len(),
                );
                x > y || (x == y && order[j] < order[i])
            },
{
    let top = top_key(ctx.layout, text);
    let g = order[i] as int;
    let list = ctx.choices(g);
    let j = list.index_of(k);
    assert(ctx.choices(order[i] as int)[j] == k);
    uses_told(order, a, top, i, a[g]);
    uses_told(order, a, top, i, k);
    assert forall|j: int| 0 <= j < i implies {
        let (x, y) = (
            ctx.group_to_chars@[(#[trigger] order[j]) as int]@.len(),
            ctx.group_to_chars@[order[i] as int]@.len(),
        );
        x > y || (x == y && order[j] < order[i])
    } by {
        let (x, y) = (order[j], order[i]);
        assert(ctx.sizes()[x as int] >= ctx.sizes()[y as int]);
        let (p, q) = (ctx.group_to_chars@[x as int], ctx.group_to_chars@[y as int]);
    }
}

/// The highest key of a text is that of one of its characters, and no character has a higher one; 25
/// where none stands for a key.
pub proof fn top_key_told(layout: KeyLayout, text: Seq<char>)
    ensures
        forall|i: int|
            0 <= i < text.len() ==> (layout.key_of_char(#[trigger] text[i]) matches Some(k) ==> k
                <= top_key(layout, text)),
        (forall|i: int| 0 <= i < text.len() ==> layout.key_of_char(#[trigger] text[i]) is None) ==> top_key(
            layout,
            text,
        ) == 25,
        (forall|i: int| 0 <= i < text.len() ==> layout.key_of_char(#[trigger] text[i]) is None)
            || exists|i: int|
            0 <= i < text.len() && (layout.key_of_char(#[trigger] text[i]) matches Some(k) && k
                == top_key(layout, text)),
{
    highest_told(layout, text);
}

proof fn highest_told(layout: KeyLayout, text: Seq<char>)
    ensures
        forall|i: int|
            0 <= i < text.len() ==> (layout.key_of_char(#[trigger] text[i]) matches Some(k) ==> (highest(
                layout,
                text,
            ) matches Some(h) && k <= h)),
        highest(layout, text) matches Some(h) ==> exists|i: int|
            0 <= i < text.len() && (layout.key_of_char(#[trigger] text[i]) matches Some(k) && k == h),
    decreases text.len(),
{
    if text.len() > 0 {
        let front = text.drop_last();
        highest_told(layout, front);
        assert forall|i: int| 0 <= i < text.len() implies (layout.key_of_char(#[trigger] text[i]) matches Some(k)
            ==> (highest(layout, text) matches Some(h) && k <= h)) by {
            if i < front.len() {
                assert(front[i] == text[i]);
            }
        }
        if highest(layout, text) is Some {
            let h = highest(layout, text)->0;
            let l = text.len() - 1;
            if highest(layout, front) == Some(h) {
                let i = choose|i: int|
                    0 <= i < front.len() && (layout.key_of_char(#[trigger] front[i]) matches Some(k) && k == h);
                assert(text[i] == front[i]);
            } else {
                assert(layout.key_of_char(text[l]) matches Some(k) && k == h);
            }
        }
    }
}

/// The last use of a key is the last of the groups before that is on it.
proof fn last_used_told(order: Seq<usize>, a: Seq<u8>, i: int, k: u8)
    requires
        0 <= i,
    ensures
        0 <= last_used(order, a, i, k) <= i,
        last_used(order, a, i, k) > 0 ==> a[order[last_used(order, a, i, k) - 1] as int] == k,
        forall|j: int|
            last_used(order, a, i, k) <= j < i ==> a[(#[trigger] order[j]) as int] != k,
    decreases i,
{
    if i > 0 && a[order[i - 1] as int] != k {
        last_used_told(order, a, i - 1, k);
    }
}

/// A spread start takes the groups in turn and puts each on the key whose last use is longest ago: if
/// the key was used, so was every other key that the group may be put on, and not before.
pub proof fn spread_start_told(ctx: &OptContext, order: Seq<usize>, a: Seq<u8>, i: int, j: int, k: u8)
    requires
        is_order(order, ctx.groups@.len()),
        spread(ctx, order, a),
        0 <= j < i < order.len(),
        a[order[j] as int] == a[order[i] as int],
        ctx.groups@[order[i] as int].allowed_keys@.contains(k),
    ensures
        ctx.groups@[order[i] as int].allowed_keys@.contains(a[order[i] as int]),
        exists|h: int| j <= h < i && a[(#[trigger] order[h]) as int] == k,
{
    let own = a[order[i] as int];
    let list = ctx.choices(order[i] as int);
    let used = |x: u8| last_used(order, a, i, x);
    assert(stalest(list, used, own));
    let at = choose|at: int|
        {
            &&& 0 <= at < list.len()
            &&& #[trigger] list[at] == own
            &&& forall|j: int| #![trigger list[j]] 0 <= j < list.len() ==> used(own) <= used(list[j])
            &&& forall|j: int| #![trigger list[j]] 0 <= j < at ==> used(own) < used(list[j])
        };
    assert(list.contains(own));
    let x = list.index_of(k);
    assert(list[x] == k);
    last_used_told(order, a, i, own);
    last_used_told(order, a, i, k);
    let h = last_used(order, a, i, k) - 1;
    if last_used(order, a, i, own) <= j {
        assert(a[order[j] as int] != own);
    }
    assert(a[order[h] as int] == k);
}

/// Of the keys whose last use is as long ago a spread start takes the first: every key that the group may be
/// put on and that is listed before was used since the key taken was.
pub proof fn spread_ties_told(ctx: &OptContext, order: Seq<usize>, a: Seq<u8>, i: int, x: int)
    requires
        is_order(order, ctx.groups@.len()),
        spread(ctx, order, a),
        0 <= i < order.len(),
        0 <= x < ctx.groups@[order[i] as int].allowed_keys@.len(),
        forall|y: int|
            0 <= y <= x ==> #[trigger] ctx.groups@[order[i] as int].allowed_keys@[y] != a[order[i] as int],
    ensures
        exists|h: int|
            0 <= h < i && a[(#[trigger] order[h]) as int] == ctx.groups@[order[i] as int].allowed_keys@[x]
                && forall|j: int| h <= j < i ==> a[(#[trigger] order[j]) as int] != a[order[i] as int],
{
    let own = a[order[i] as int];
    let list = ctx.choices(order[i] as int);
    let used = |k: u8| last_used(order, a, i, k);
    assert(stalest(list, used, own));
    let at = choose|at: int|
        {
            &&& 0 <= at < list.len()
            &&& #[trigger] list[at] == own
            &&& forall|j: int| #![trigger list[j]] 0 <= j < list.len() ==> used(own) <= used(list[j])
            &&& forall|j: int| #![trigger list[j]] 0 <= j < at ==> used(own) < used(list[j])
        };
    let k = list[x];
    if at <= x {
        assert(ctx.groups@[order[i] as int].allowed_keys@[at] != own);
    }
    assert(used(own) < used(list[x]));
    last_used_told(order, a, i, own);
    last_used_told(order, a, i, k);
    let h = last_used(order, a, i, k) - 1;
    assert(a[order[h] as int] == k);
}

/// The best of the trials scores no higher than any of them, if the comparison finds what is lower.
pub proof fn best_trial_is_lowest<
    S,
    F: Fn(&Evaluator, &Vec<u8>) -> S,
    G: Fn(&S, &S) -> bool,
    H: Fn(&S, &S) -> bool,
    K: Fn() -> Vec<u8>,
>(
    ctx: &OptContext,
    allowed: Seq<char>,
    frequent: &K,
    score: &F,
    accept: &G,
    lower: &H,
    t: Trials<S>,
    n: int,
    m: int,
    value: spec_fn(S) -> int,
)
    requires
        t.went(ctx, allowed, frequent, score, accept, lower, n),
        0 < m <= n,
        forall|s: S, u: S| #[trigger] call_ensures(lower, (&s, &u), true) ==> value(u) < value(s),
        forall|s: S, u: S| #[trigger] call_ensures(lower, (&s, &u), false) ==> value(u) >= value(s),
    ensures
        0 <= t.best[m - 1] < m,
        forall|i: int| 0 <= i < m ==> value(t.scores[t.best[m - 1]]) <= value(#[trigger] t.scores[i]),
    decreases m,
{
    assert(t.trial_went(ctx, allowed, frequent, score, accept, lower, m - 1));
    if m > 1 {
        best_trial_is_lowest(ctx, allowed, frequent, score, accept, lower, t, n, m - 1, value);
    }
}

/// How many of five starts in a row are of a kind.
pub open spec fn of_kind(trial: int, k: StartKind) -> int {
    sum(Seq::new(5, |i: int| if kind_of(trial + i) == k { 1int } else { 0 }))
}

/// Five starts are added up one by one.
proof fn five_starts(trial: int, k: StartKind)
    ensures
        of_kind(trial, k) == (if kind_of(trial) == k {
            1int
        } else {
            0
        }) + (if kind_of(trial + 1) == k {
            1int
        } else {
            0
        }) + (if kind_of(trial + 2) == k {
            1int
        } else {
            0
        }) + (if kind_of(trial + 3) == k {
            1int
        } else {
            0
        }) + (if kind_of(trial + 4) == k {
            1int
        } else {
            0
        }),
{
    reveal_with_fuel(sum, 6);
}

/// Of five starts in a row one is balanced, two go by frequency, one is spread and one is random, and
/// the first of all is balanced.
pub proof fn start_kinds_told(trial: int)
    requires
        0 <= trial,
    ensures
        kind_of(trial + 5) == kind_of(trial),
        of_kind(trial, StartKind::Balanced) == 1,
        of_kind(trial, StartKind::Frequent) == 2,
        of_kind(trial, StartKind::Spread) == 1,
        of_kind(trial, StartKind::Random) == 1,
        kind_of(0) == StartKind::Balanced,
{
    five_starts(trial, StartKind::Balanced);
    five_starts(trial, StartKind::Frequent);
    five_starts(trial, StartKind::Spread);
    five_starts(trial, StartKind::Random);
}

/// Each trial begins as its number says, with every group on a key that it may be put on: of five in a row
/// the first with the groups balanced, the next two with what is made by frequency, the fourth with the
/// groups spread, and the fifth at random. Each is improved for as long as starts are, with full codes
/// alone.
pub proof fn trials_told<
    S,
    F: Fn(&Evaluator, &Vec<u8>) -> S,
    G: Fn(&S, &S) -> bool,
    H: Fn(&S, &S) -> bool,
    K: Fn() -> Vec<u8>,
>(
    ctx: &OptContext,
    allowed: Seq<char>,
    frequent: &K,
    score: &F,
    accept: &G,
    lower: &H,
    t: Trials<S>,
    n: int,
    i: int,
)
    requires
        t.went(ctx, allowed, frequent, score, accept, lower, n),
        0 <= i < n,
    ensures
        t.starts[i].len() == ctx.groups@.len(),
        forall|g: int|
            0 <= g < ctx.groups@.len() ==> ctx.groups@[g].allowed_keys@.contains(#[trigger] t.starts[i][g]),
        i % 5 == 0 ==> exists|order: Seq<usize>| #[trigger]
            descending(ctx.sizes(), order) && balanced(ctx, order, t.starts[i], top_key(ctx.layout, allowed)),
        i % 5 == 1 || i % 5 == 2 ==> exists|v: Vec<u8>| #[trigger]
            call_ensures(frequent, (), v) && v@ == t.starts[i],
        i % 5 == 3 ==> exists|order: Seq<usize>| #[trigger]
            is_order(order, ctx.groups@.len()) && spread(ctx, order, t.starts[i]),
        climb_ends(
            ctx,
            false,
            score,
            accept,
            t.starts[i],
            warmup(ctx.groups@.len() as int),
            t.ends[i],
        ),
        scored(ctx, false, score, t.ends[i], t.scores[i]),
{
    assert(t.trial_went(ctx, allowed, frequent, score, accept, lower, i));
}

/// More groups never get fewer steps, and neither the climbs of the starts nor the last climb get fewer
/// or more than their limits: within them each further group gets thirty more, and fifty more.
pub proof fn step_numbers_told(n: int)
    requires
        0 <= n,
    ensures
        2000 <= warmup(n) <= warmup(n + 1) <= 50_000,
        5000 <= final_steps(n) <= final_steps(n + 1) <= 100_000,
        2000 <= 30 * n <= 50_000 ==> warmup(n) == 30 * n,
        5000 <= 50 * n <= 100_000 ==> final_steps(n) == 50 * n,
        starts_for(n) == 50 <==> n < 1000,
        starts_for(n) == 30 <==> n >= 1000,
{
}

/// Progress is reported twenty times in a run, as near as steps allow, and at every step of a short one.
pub proof fn reports_told(total: usize)
    ensures
        report_every(total) >= 1,
        total >= 20 ==> 20 * report_every(total) <= total < 20 * report_every(total) + 20,
        total < 20 ==> report_every(total) == 1,
{
}

/// The steps in a row that have not moved are the last ones, and the one before them has.
pub proof fn idle_told(moved: Seq<bool>)
    ensures
        idle(moved) <= moved.len(),
        forall|i: int| moved.len() - idle(moved) <= i < moved.len() ==> !#[trigger] moved[i],
        idle(moved) < moved.len() ==> moved[moved.len() - idle(moved) - 1],
    decreases moved.len(),
{
    if moved.len() > 0 && !moved.last() {
        let front = moved.drop_last();
        idle_told(front);
        assert forall|i: int| moved.len() - idle(moved) <= i < moved.len() implies !#[trigger] moved[i] by {
            if i < front.len() {
                assert(front[i] == moved[i]);
            }
        }
    }
}

/// Of ten steps of a climb, with collisions to take on and three groups or more, four take on a
/// collision, three swap two groups, one passes the keys of three on, one moves a group off its key, and
/// one moves a group anywhere.
pub proof fn climb_draws_told(
    ctx: &OptContext,
    lists: Seq<Seq<(usize, usize, u64)>>,
    draws: Seq<StepDraw>,
    tens: int,
)
    requires
        0 <= tens,
        ctx.groups@.len() >= 3,
        draws.len() == 10,
        lists.len() == 10,
        forall|i: int| 0 <= i < 10 ==> (#[trigger] lists[i]).len() > 0,
        forall|i: int| 0 <= i < 10 ==> (#[trigger] draws[i]).is_for(ctx, lists[i], 10 * tens + i),
    ensures
        draws[0] is Collision && draws[1] is Collision && draws[2] is Collision && draws[3] is Collision,
        draws[4] is Swap && draws[5] is Swap && draws[6] is Swap,
        draws[7] is Rotation,
        draws[8] is Off,
        draws[9] is Move,
{
    let x = (lists[0], lists[1], lists[2], lists[3]);
    assert(draws[0].is_for(ctx, lists[0], 10 * tens + 0));
    assert(draws[1].is_for(ctx, lists[1], 10 * tens + 1));
    assert(draws[2].is_for(ctx, lists[2], 10 * tens + 2));
    assert(draws[3].is_for(ctx, lists[3], 10 * tens + 3));
    assert(draws[4].is_for(ctx, lists[4], 10 * tens + 4));
    assert(draws[5].is_for(ctx, lists[5], 10 * tens + 5));
    assert(draws[6].is_for(ctx, lists[6], 10 * tens + 6));
    assert(draws[7].is_for(ctx, lists[7], 10 * tens + 7));
    assert(draws[8].is_for(ctx, lists[8], 10 * tens + 8));
    assert(draws[9].is_for(ctx, lists[9], 10 * tens + 9));
}

} // verus!
