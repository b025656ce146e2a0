//! What a context is to the scheme that it was worked out from: which parts the roots stand for, who is
//! a candidate for simple codes, and which fixed codes count.

use vstd::prelude::*;

use crate::builder::{
    are_level_lens, built, built_candidates, built_fixed, by_frequency, counting_codes, covered, covering,
    covering_is_least, covering_len, enough, infos_freqs, lesser, longest_code, longest_steps, steps_at,
    unmarked,
};
use crate::candidates::order_holds_everybody;
use crate::context::OptContext;
use crate::fixed::{
    accepted_codes, all_keys, char_index, commit_of, desc_of, fixed_desc, fixed_terms, level_for,
    level_takes, taken, written_keys, FixedDesc,
};
use crate::full_laws::{goes_before, strokes_are_all_keys};
use crate::scheme::{fixed_key, group_has, root_group, root_part, roots_parts, Scheme};
use crate::space_codes::{lacks_space, scheme_lens, some_level_commits_with, space_misplaced};
use crate::sums::{sum, sum_constant, sum_nonnegative, sum_prefix, sum_update, sum_zero};
use crate::totals::{key_count, COVERED, PRESSES};
use crate::types::{
    first_key, CharInfo, CharSimpleInfo, FixedSimpleCode, GROUP_MARKER, KeyLayout, RootGroup,
    SimpleCodeLevel,
};

verus! {

/// Whether an entry of the fixed roots is the first that names a root.
pub open spec fn first_entry(fixed: Seq<(String, u8)>, root: Seq<char>, j: int) -> bool {
    &&& 0 <= j < fixed.len()
    &&& fixed[j].0@ == root
    &&& forall|i: int| 0 <= i < j ==> (#[trigger] fixed[i]).0@ != root
}

/// Whether a group is the last that holds a root.
pub open spec fn last_holder(groups: Seq<RootGroup>, root: Seq<char>, g: int) -> bool {
    &&& 0 <= g < groups.len()
    &&& exists|i: int| 0 <= i < groups[g].roots@.len() && (#[trigger] groups[g].roots@[i])@ == root
    &&& forall|h: int, i: int|
        #![trigger groups[h].roots@[i]]
        g < h < groups.len() && 0 <= i < groups[h].roots@.len() ==> groups[h].roots@[i]@ != root
}

/// The first entry for a root is where its key comes from.
proof fn fixed_key_from_first(fixed: Seq<(String, u8)>, root: Seq<char>)
    ensures
        fixed_key(fixed, root) matches Some(k) ==> exists|j: int| #[trigger]
            first_entry(fixed, root, j) && fixed[j].1 == k,
        fixed_key(fixed, root) is None ==> forall|i: int|
            0 <= i < fixed.len() ==> (#[trigger] fixed[i]).0@ != root,
    decreases fixed.len(),
{
    if fixed.len() > 0 {
        if fixed[0].0@ == root {
            assert(first_entry(fixed, root, 0));
        } else {
            let rest = fixed.skip(1);
            fixed_key_from_first(rest, root);
            if fixed_key(rest, root) is Some {
                let j = choose|j: int| #[trigger]
                    first_entry(rest, root, j) && rest[j].1 == fixed_key(rest, root)->0;
                assert forall|i: int| 0 <= i < j + 1 implies (#[trigger] fixed[i]).0@ != root by {
                    if i > 0 {
                        assert(rest[i - 1] == fixed[i]);
                    }
                }
                assert(first_entry(fixed, root, j + 1));
            } else {
                assert forall|i: int| 0 <= i < fixed.len() implies (#[trigger] fixed[i]).0@ != root by {
                    if i > 0 {
                        assert(rest[i - 1] == fixed[i]);
                    }
                }
            }
        }
    }
}

/// The last group that holds a root is the one that counts.
proof fn root_group_is_last(groups: Seq<RootGroup>, root: Seq<char>)
    ensures
        root_group(groups, root) matches Some(g) ==> last_holder(groups, root, g),
        root_group(groups, root) is None ==> forall|h: int, i: int|
            #![trigger groups[h].roots@[i]]
            0 <= h < groups.len() && 0 <= i < groups[h].roots@.len() ==> groups[h].roots@[i]@ != root,
    decreases groups.len(),
{
    if groups.len() > 0 {
        let l = groups.len() - 1;
        if group_has(groups.last(), root) {
            assert(last_holder(groups, root, l));
        } else {
            let rest = groups.drop_last();
            root_group_is_last(rest, root);
            assert forall|i: int| 0 <= i < groups[l].roots@.len() implies (#[trigger] groups[l].roots@[i])@
                != root by {
                assert(groups.last() == groups[l]);
            }
            if root_group(rest, root) is Some {
                let g = root_group(rest, root)->0;
                assert(rest[g] == groups[g]);
                let i = choose|i: int| 0 <= i < rest[g].roots@.len() && (#[trigger] rest[g].roots@[i])@ == root;
                assert(groups[g].roots@[i]@ == root);
                assert forall|h: int, i: int|
                    #![trigger groups[h].roots@[i]]
                    g < h < groups.len() && 0 <= i < groups[h].roots@.len() implies groups[h].roots@[i]@
                    != root by {
                    if h < l {
                        assert(rest[h].roots@[i]@ != root);
                    }
                }
            } else {
                assert forall|h: int, i: int|
                    #![trigger groups[h].roots@[i]]
                    0 <= h < groups.len() && 0 <= i < groups[h].roots@.len() implies groups[h].roots@[i]@
                    != root by {
                    if h < l {
                        assert(rest[h].roots@[i]@ != root);
                    }
                }
            }
        }
    }
}

/// Whether a root is known: it has a key of its own, or a group holds it.
pub open spec fn known_root(scheme: Scheme, root: Seq<char>) -> bool {
    ||| exists|j: int| first_entry(scheme.fixed_roots@, root, j)
    ||| exists|g: int| last_holder(scheme.groups@, root, g)
}

/// Whether a part is that of a root: the key of the first entry where it has a key of its own, else the
/// last group that holds it.
pub open spec fn part_of_root(scheme: Scheme, root: Seq<char>, part: u16) -> bool {
    ||| exists|j: int| #[trigger]
        first_entry(scheme.fixed_roots@, root, j) && part == scheme.fixed_roots@[j].1
    ||| (forall|j: int| !#[trigger] first_entry(scheme.fixed_roots@, root, j)) && exists|g: int| #[trigger]
        last_holder(scheme.groups@, root, g) && part == GROUP_MARKER + g
}

/// The part of a known root, and none of an unknown one.
proof fn root_part_told(scheme: Scheme, root: Seq<char>)
    requires
        GROUP_MARKER + scheme.groups@.len() <= 65536,
    ensures
        root_part(scheme.fixed_roots@, scheme.groups@, root) is Some <==> known_root(scheme, root),
        root_part(scheme.fixed_roots@, scheme.groups@, root) matches Some(p) ==> part_of_root(scheme, root, p),
{
    let (fixed, groups) = (scheme.fixed_roots@, scheme.groups@);
    fixed_key_from_first(fixed, root);
    root_group_is_last(groups, root);
    if fixed_key(fixed, root) is None {
        assert forall|j: int| !#[trigger] first_entry(fixed, root, j) by {
            if first_entry(fixed, root, j) {
                let x = fixed[j];
            }
        }
        if root_group(groups, root) is None {
            assert forall|g: int| !last_holder(groups, root, g) by {
                if last_holder(groups, root, g) {
                    let i = choose|i: int|
                        0 <= i < groups[g].roots@.len() && (#[trigger] groups[g].roots@[i])@ == root;
                    let x = groups[g].roots@[i];
                }
            }
        }
    }
}

/// The parts of known roots, one each.
proof fn known_roots_parts(scheme: Scheme, roots: Seq<String>)
    requires
        GROUP_MARKER + scheme.groups@.len() <= 65536,
        forall|i: int| 0 <= i < roots.len() ==> known_root(scheme, (#[trigger] roots[i])@),
    ensures
        ({
            let parts = roots_parts(scheme.fixed_roots@, scheme.groups@, roots);
            &&& parts.len() == roots.len()
            &&& forall|i: int|
                0 <= i < roots.len() ==> part_of_root(scheme, (#[trigger] roots[i])@, parts[i])
        }),
    decreases roots.len(),
{
    if roots.len() > 0 {
        let front = roots.drop_last();
        assert forall|i: int| 0 <= i < front.len() implies known_root(scheme, (#[trigger] front[i])@) by {
            assert(front[i] == roots[i]);
        }
        known_roots_parts(scheme, front);
        let last = roots[roots.len() - 1];
        root_part_told(scheme, last@);
        let parts = roots_parts(scheme.fixed_roots@, scheme.groups@, roots);
        assert forall|i: int| 0 <= i < roots.len() implies part_of_root(
            scheme,
            (#[trigger] roots[i])@,
            parts[i],
        ) by {
            if i < front.len() {
                assert(front[i] == roots[i]);
            }
        }
    }
}

/// A character has one part for each of its roots, in their order, where all are known: the key of the
/// root where it has one of its own, and otherwise its group. It has the frequency that the scheme
/// gives it.
pub proof fn parts_follow_roots(ctx: &OptContext, scheme: Scheme, entries: Seq<(char, String)>, ci: int)
    requires
        ctx.wf_full(),
        built(ctx, scheme, entries),
        0 <= ci < scheme.splits@.len(),
    ensures
        ctx.char_infos@.len() == scheme.splits@.len(),
        ctx.char_infos@[ci].frequency == scheme.splits@[ci].2,
        ({
            let roots = scheme.splits@[ci].1@;
            let parts = ctx.char_infos@[ci].parts@;
            (forall|i: int| 0 <= i < roots.len() ==> known_root(scheme, (#[trigger] roots[i])@)) ==> {
                &&& parts.len() == roots.len()
                &&& forall|i: int|
                    0 <= i < roots.len() ==> part_of_root(scheme, (#[trigger] roots[i])@, parts[i])
            }
        }),
{
    let info = ctx.char_infos@[ci];
    let roots = scheme.splits@[ci].1@;
    if forall|i: int| 0 <= i < roots.len() ==> known_root(scheme, (#[trigger] roots[i])@) {
        known_roots_parts(scheme, roots);
    }
}

/// A further root adds a further part: its own. A root that is not known adds none.
pub proof fn one_more_root(ctx: &OptContext, scheme: Scheme, entries: Seq<(char, String)>, ci: int, cj: int)
    requires
        ctx.wf_full(),
        built(ctx, scheme, entries),
        0 <= ci < scheme.splits@.len(),
        0 <= cj < scheme.splits@.len(),
        scheme.splits@[cj].1@.len() > 0,
        scheme.splits@[ci].1@ == scheme.splits@[cj].1@.drop_last(),
    ensures
        ({
            let last = scheme.splits@[cj].1@.last()@;
            let (p, q) = (ctx.char_infos@[ci].parts@, ctx.char_infos@[cj].parts@);
            if known_root(scheme, last) {
                q.len() == p.len() + 1 && q.drop_last() == p && part_of_root(scheme, last, q.last())
            } else {
                q == p
            }
        }),
{
    let last = scheme.splits@[cj].1@.last()@;
    let (x, y) = (ctx.char_infos@[ci], ctx.char_infos@[cj]);
    root_part_told(scheme, last);
    let (p, q) = (ctx.char_infos@[ci].parts@, ctx.char_infos@[cj].parts@);
    if known_root(scheme, last) {
        assert(q.drop_last() =~= p);
    }
}

/// A character without roots has no parts.
pub proof fn no_root_no_part(ctx: &OptContext, scheme: Scheme, entries: Seq<(char, String)>, ci: int)
    requires
        built(ctx, scheme, entries),
        0 <= ci < scheme.splits@.len(),
        scheme.splits@[ci].1@.len() == 0,
    ensures
        ctx.char_infos@[ci].parts@.len() == 0,
{
    let x = ctx.char_infos@[ci];
}

/// The longest full code bounds all others and is one of them.
proof fn longest_reached(infos: Seq<CharInfo>)
    ensures
        forall|ci: int| 0 <= ci < infos.len() ==> (#[trigger] infos[ci]).parts@.len() <= longest_code(infos),
        longest_code(infos) == 0 || exists|ci: int|
            0 <= ci < infos.len() && (#[trigger] infos[ci]).parts@.len() == longest_code(infos),
    decreases infos.len(),
{
    if infos.len() > 0 {
        let front = infos.drop_last();
        longest_reached(front);
        assert forall|ci: int| 0 <= ci < infos.len() implies (#[trigger] infos[ci]).parts@.len()
            <= longest_code(infos) by {
            if ci < front.len() {
                assert(front[ci] == infos[ci]);
            }
        }
        if longest_code(infos) != 0 {
            if infos.last().parts@.len() > longest_code(front) {
                assert(infos[infos.len() - 1].parts@.len() == longest_code(infos));
            } else {
                let ci = choose|ci: int|
                    0 <= ci < front.len() && (#[trigger] front[ci]).parts@.len() == longest_code(front);
                assert(infos[ci].parts@.len() == longest_code(infos));
            }
        }
    }
}

/// What is worked out of the characters once: the sum of their frequencies, the length of the longest
/// full code, and for each group the frequency of the characters with a part of it, part by part.
pub proof fn tables_sum_up(ctx: &OptContext, scheme: Scheme, entries: Seq<(char, String)>)
    requires
        ctx.wf_full(),
        built(ctx, scheme, entries),
    ensures
        ctx.total_frequency == sum(Seq::new(scheme.splits@.len(), |ci: int| scheme.splits@[ci].2 as int)),
        forall|ci: int|
            0 <= ci < ctx.char_infos@.len() ==> (#[trigger] ctx.char_infos@[ci]).parts@.len() <= ctx.max_parts,
        ctx.max_parts == 0 || exists|ci: int|
            0 <= ci < ctx.char_infos@.len() && (#[trigger] ctx.char_infos@[ci]).parts@.len() == ctx.max_parts,
        forall|g: int|
            #![trigger ctx.group_freq_sum@[g]]
            0 <= g < ctx.groups@.len() ==> ctx.group_freq_sum@[g] == sum(
                Seq::new(
                    ctx.char_infos@.len(),
                    |ci: int|
                        ctx.char_infos@[ci].frequency * ctx.char_infos@[ci].parts@.to_multiset().count(
                            (GROUP_MARKER + g) as u16,
                        ),
                ),
            ),
{
    longest_reached(ctx.char_infos@);
    assert(ctx.freqs() =~= Seq::new(scheme.splits@.len(), |ci: int| scheme.splits@[ci].2 as int)) by {
        assert forall|ci: int| 0 <= ci < ctx.n() implies ctx.freqs()[ci] == scheme.splits@[ci].2 as int by {
            let x = ctx.char_infos@[ci];
        }
    }
    assert forall|g: int|
        #![trigger ctx.group_freq_sum@[g]]
        0 <= g < ctx.groups@.len() implies ctx.group_freq_sum@[g] == sum(
        Seq::new(
            ctx.char_infos@.len(),
            |ci: int|
                ctx.char_infos@[ci].frequency * ctx.char_infos@[ci].parts@.to_multiset().count(
                    (GROUP_MARKER + g) as u16,
                ),
        ),
    ) by {
        let s = Seq::new(
            ctx.char_infos@.len(),
            |ci: int|
                ctx.char_infos@[ci].frequency * ctx.char_infos@[ci].parts@.to_multiset().count(
                    (GROUP_MARKER + g) as u16,
                ),
        );
        let t = Seq::new(ctx.n(), |ci: int| ctx.freq(ci) * OptContext::part_count(ctx.parts(ci), g));
        assert forall|ci: int| 0 <= ci < ctx.n() implies s[ci] == t[ci] by {
            part_count_occurs(ctx.parts(ci), g);
        }
        assert(s =~= t);
    }
}

/// A group has as many parts among `parts` as there are parts that stand for it.
proof fn part_count_occurs(parts: Seq<u16>, g: int)
    requires
        0 <= g,
        GROUP_MARKER + g < 65536,
    ensures
        OptContext::part_count(parts, g) == parts.to_multiset().count((GROUP_MARKER + g) as u16),
    decreases parts.len(),
{
    broadcast use vstd::seq_lib::group_to_multiset_ensures;

    if parts.len() > 0 {
        part_count_occurs(parts.drop_last(), g);
        assert(parts =~= parts.drop_last().push(parts.last()));
    } else {
        assert(!parts.contains((GROUP_MARKER + g) as u16));
    }
}

/// Summing over a list of distinct indices that covers all non-zero entries sums everything.
pub(crate) proof fn sum_over_list(list: Seq<usize>, g: Seq<int>)
    requires
        list.no_duplicates(),
        forall|j: int| 0 <= j < list.len() ==> (#[trigger] list[j]) < g.len(),
        forall|i: int| 0 <= i < g.len() && #[trigger] g[i] != 0 ==> list.contains(i as usize),
        g.len() <= usize::MAX,
    ensures
        sum(Seq::new(list.len(), |j: int| g[list[j] as int])) == sum(g),
    decreases list.len(),
{
    let picked = Seq::new(list.len(), |j: int| g[list[j] as int]);
    if list.len() == 0 {
        sum_zero(g);
    } else {
        let x = list.last();
        let fewer = list.drop_last();
        let g1 = g.update(x as int, 0);
        assert forall|i: int| 0 <= i < g1.len() && #[trigger] g1[i] != 0 implies fewer.contains(
            i as usize,
        ) by {
            assert(g[i] != 0);
            let j = list.index_of(i as usize);
            assert(list[j] == i as usize);
            assert(fewer[j] == i as usize);
        }
        sum_over_list(fewer, g1);
        sum_update(g, x as int, 0);
        assert(picked.drop_last() =~= Seq::new(fewer.len(), |j: int| g1[fewer[j] as int]));
    }
}

/// The frequency of those who go before a character.
pub open spec fn frequency_before(infos: Seq<CharInfo>, ci: int) -> int {
    sum(
        Seq::new(
            infos.len(),
            |cj: int|
                if goes_before(infos, cj, ci) {
                    infos[cj].frequency as int
                } else {
                    0
                },
        ),
    )
}

/// How many go before a character.
pub open spec fn number_before(infos: Seq<CharInfo>, ci: int) -> int {
    sum(Seq::new(infos.len(), |cj: int| if goes_before(infos, cj, ci) { 1int } else { 0 }))
}

/// Where a character stands on a list of everybody by frequency: behind those who go before it.
proof fn place_by_frequency(infos: Seq<CharInfo>, order: Seq<usize>, ci: int) -> (p: int)
    requires
        by_frequency(infos, order),
        infos.len() <= usize::MAX,
        0 <= ci < infos.len(),
    ensures
        0 <= p < order.len(),
        order[p] == ci,
        p == number_before(infos, ci),
        covered(infos, order, p) == frequency_before(infos, ci),
{
    order_holds_everybody(infos, order);
    assert(order.contains(ci as usize));
    let p = order.index_of(ci as usize);
    assert(order[p] == ci as usize);
    let list = order.take(p);
    let one = Seq::new(infos.len(), |cj: int| if goes_before(infos, cj, ci) { 1int } else { 0 });
    let freq = Seq::new(
        infos.len(),
        |cj: int|
            if goes_before(infos, cj, ci) {
                infos[cj].frequency as int
            } else {
                0
            },
    );
    assert forall|cj: int| 0 <= cj < infos.len() && goes_before(infos, cj, ci) implies list.contains(
        cj as usize,
    ) by {
        assert(order.contains(cj as usize));
        let q = order.index_of(cj as usize);
        assert(order[q] == cj as usize);
        if q < p {
            assert(list[q] == cj as usize);
        } else {
            let (x, y) = (order[p], order[q]);
        }
    }
    assert forall|j: int| 0 <= j < p implies goes_before(infos, (#[trigger] order[j]) as int, ci) by {
        let (x, y) = (order[j], order[p]);
    }
    assert(list.no_duplicates()) by {
        assert forall|i: int, j: int| 0 <= i < list.len() && 0 <= j < list.len() && i != j implies list[i]
            != list[j] by {
            assert(order[i] != order[j]);
        }
    }
    sum_over_list(list, one);
    sum_over_list(list, freq);
    let ones = Seq::new(list.len(), |j: int| one[list[j] as int]);
    assert(ones =~= Seq::new(p as nat, |i: int| 1int)) by {
        assert forall|j: int| 0 <= j < p implies ones[j] == 1 by {
            let x = order[j];
        }
    }
    sum_constant(p as nat, 1);
    assert(Seq::new(list.len(), |j: int| freq[list[j] as int]) =~= Seq::new(
        p as nat,
        |i: int| infos[order[i] as int].frequency as int,
    )) by {
        assert forall|j: int| 0 <= j < p implies freq[list[j] as int] == infos[order[j] as int].frequency as int by {
            let x = order[j];
        }
    }
    p
}

/// Who covers what is asked for: those before whom not enough is covered.
pub(crate) proof fn who_covers(infos: Seq<CharInfo>, order: Seq<usize>, asked: Option<u64>, ci: int)
    requires
        by_frequency(infos, order),
        infos.len() <= usize::MAX,
        0 <= ci < infos.len(),
    ensures
        covering(infos, order, asked).contains(ci as usize) <==> sum(
            Seq::new(infos.len(), |cj: int| infos[cj].frequency as int),
        ) > 0 && (asked matches Some(t) ==> frequency_before(infos, ci) < t),
{
    let p = place_by_frequency(infos, order, ci);
    covering_is_least(infos, order, asked, 0);
    let m = covering_len(infos, order, asked, 0) as int;
    let prefix = order.take(m);
    assert(infos_freqs(infos) =~= Seq::new(infos.len(), |cj: int| infos[cj].frequency as int));
    sum_nonnegative(infos_freqs(infos));
    if prefix.contains(ci as usize) {
        let q = prefix.index_of(ci as usize);
        assert(order[q] == ci as usize);
        assert(q == p);
    }
    if p < m {
        assert(prefix[p] == ci as usize);
        assert(!enough(asked, covered(infos, order, p)));
    } else {
        let s = Seq::new(p as nat, |i: int| infos[order[i] as int].frequency as int);
        sum_prefix(s, m);
        assert(s.take(m) =~= Seq::new(m as nat, |i: int| infos[order[i] as int].frequency as int));
    }
}

/// Those without a mark, in the order of the list.
proof fn unmarked_told(list: Seq<usize>, marks: Seq<bool>, infos: Seq<CharInfo>)
    requires
        forall|i: int, j: int|
            #![trigger list[i], list[j]]
            0 <= i < j < list.len() ==> goes_before(infos, list[i] as int, list[j] as int),
    ensures
        forall|x: usize| #[trigger]
            unmarked(list, marks).contains(x) <==> list.contains(x) && !marks[x as int],
        ({
            let r = unmarked(list, marks);
            forall|i: int, j: int|
                #![trigger r[i], r[j]]
                0 <= i < j < r.len() ==> goes_before(infos, r[i] as int, r[j] as int)
        }),
    decreases list.len(),
{
    let r = unmarked(list, marks);
    if list.len() > 0 {
        let front = list.drop_last();
        let last = list.last();
        assert forall|i: int, j: int|
            #![trigger front[i], front[j]]
            0 <= i < j < front.len() implies goes_before(infos, front[i] as int, front[j] as int) by {
            let (x, y) = (list[i], list[j]);
        }
        unmarked_told(front, marks, infos);
        let f = unmarked(front, marks);
        assert forall|x: usize| #[trigger] r.contains(x) <==> list.contains(x) && !marks[x as int] by {
            if list.contains(x) {
                let i = list.index_of(x);
                if i < front.len() {
                    assert(front[i] == x);
                    assert(front.contains(x));
                }
            }
            if front.contains(x) {
                assert(list[front.index_of(x)] == x);
            }
            if f.contains(x) {
                assert(r[f.index_of(x)] == x);
            }
            if r.contains(x) {
                let i = r.index_of(x);
                if i < f.len() {
                    assert(f[i] == x);
                    assert(f.contains(x));
                }
            }
            assert(list[list.len() - 1] == last);
            if !marks[last as int] {
                assert(r[r.len() - 1] == last);
            }
        }
        assert forall|i: int, j: int|
            #![trigger r[i], r[j]]
            0 <= i < j < r.len() implies goes_before(infos, r[i] as int, r[j] as int) by {
            if j < f.len() {
                let (x, y) = (f[i], f[j]);
            } else {
                assert(f.contains(f[i]));
                let k = front.index_of(f[i]);
                let (x, y) = (list[k], list[list.len() - 1]);
                assert(list[k] == f[i]);
            }
        }
    } else {
        assert(r =~= Seq::empty());
    }
}

/// The candidates for simple codes are the fewest most frequent characters that cover what is asked
/// for, those with fixed codes left out: who is one has not enough frequency before it, and who is
/// not has, unless it has a fixed code. Those of the search have to cover no more than those of the
/// output. The lists name the most frequent first. Nobody is a candidate where simple codes are not
/// optimised, or no character ever occurs.
pub proof fn candidates_told(ctx: &OptContext, scheme: Scheme, entries: Seq<(char, String)>, ci: int)
    requires
        ctx.wf_full(),
        ctx.wf_simple(),
        built(ctx, scheme, entries),
        0 <= ci < ctx.char_infos@.len(),
    ensures
        ({
            let infos = ctx.char_infos@;
            let occurs = sum(Seq::new(infos.len(), |cj: int| infos[cj].frequency as int)) > 0;
            let open = scheme.enable_simple_code && occurs && !ctx.simple_fixed_assigned@[ci];
            let output = scheme.output_coverage matches Some(t) ==> frequency_before(infos, ci) < t;
            let active = scheme.active_coverage matches Some(t) ==> frequency_before(infos, ci) < t;
            let (list, all) = (ctx.simple_candidate_chars@, ctx.simple_output_candidate_chars@);
            &&& all.contains(ci as usize) <==> open && output
            &&& list.contains(ci as usize) <==> open && output && active
            &&& forall|i: int, j: int|
                #![trigger all[i], all[j]]
                0 <= i < j < all.len() ==> goes_before(infos, all[i] as int, all[j] as int)
            &&& forall|i: int, j: int|
                #![trigger list[i], list[j]]
                0 <= i < j < list.len() ==> goes_before(infos, list[i] as int, list[j] as int)
            &&& scheme.enable_simple_code && ctx.simple_protect_top_n > 0 ==> (ctx.simple_is_topn@[ci]
                <==> number_before(infos, ci) < scheme.simple_protect_top_n)
        }),
{
    let infos = ctx.char_infos@;
    let order = choose|order: Seq<usize>| #[trigger] built_candidates(ctx, scheme, order);
    let asked = lesser(scheme.active_coverage, scheme.output_coverage);
    candidate_lists(ctx, scheme, order, asked, ctx.simple_candidate_chars@, ci);
    candidate_lists(ctx, scheme, order, scheme.output_coverage, ctx.simple_output_candidate_chars@, ci);
    if scheme.enable_simple_code && ctx.simple_protect_top_n > 0 {
        most_frequent_marked(ctx, scheme, order, ci);
    }
}

/// A list of candidates, told by who covers what is asked for.
proof fn candidate_lists(
    ctx: &OptContext,
    scheme: Scheme,
    order: Seq<usize>,
    asked: Option<u64>,
    list: Seq<usize>,
    ci: int,
)
    requires
        ctx.wf_full(),
        ctx.wf_simple(),
        by_frequency(ctx.char_infos@, order),
        0 <= ci < ctx.char_infos@.len(),
        list == unmarked(
            if scheme.enable_simple_code {
                covering(ctx.char_infos@, order, asked)
            } else {
                Seq::empty()
            },
            ctx.simple_fixed_assigned@,
        ),
    ensures
        list.contains(ci as usize) <==> {
            &&& scheme.enable_simple_code
            &&& sum(Seq::new(ctx.char_infos@.len(), |cj: int| ctx.char_infos@[cj].frequency as int)) > 0
            &&& !ctx.simple_fixed_assigned@[ci]
            &&& asked matches Some(t) ==> frequency_before(ctx.char_infos@, ci) < t
        },
        forall|i: int, j: int|
            #![trigger list[i], list[j]]
            0 <= i < j < list.len() ==> goes_before(ctx.char_infos@, list[i] as int, list[j] as int),
{
    let infos = ctx.char_infos@;
    who_covers(infos, order, asked, ci);
    covering_is_least(infos, order, asked, 0);
    let a = if scheme.enable_simple_code { covering(infos, order, asked) } else { Seq::empty() };
    assert forall|i: int, j: int|
        #![trigger a[i], a[j]]
        0 <= i < j < a.len() implies goes_before(infos, a[i] as int, a[j] as int) by {
        let (x, y) = (order[i], order[j]);
    }
    unmarked_told(a, ctx.simple_fixed_assigned@, infos);
}

/// Who is marked as most frequent, told by how many go before.
proof fn most_frequent_marked(ctx: &OptContext, scheme: Scheme, order: Seq<usize>, ci: int)
    requires
        ctx.wf_full(),
        ctx.wf_simple(),
        built_candidates(ctx, scheme, order),
        scheme.enable_simple_code,
        scheme.simple_protect_top_n > 0,
        0 <= ci < ctx.char_infos@.len(),
    ensures
        ctx.simple_is_topn@[ci] <==> number_before(ctx.char_infos@, ci) < scheme.simple_protect_top_n,
{
    let infos = ctx.char_infos@;
    let p = place_by_frequency(infos, order, ci);
    let k = if scheme.simple_protect_top_n <= order.len() {
        scheme.simple_protect_top_n as int
    } else {
        order.len() as int
    };
    let top = order.take(k);
    if top.contains(ci as usize) {
        let q = top.index_of(ci as usize);
        assert(order[q] == order[p]);
        assert(q == p);
    }
    if p < k {
        assert(top[p] == ci as usize);
    }
    let x = ctx.simple_is_topn@[ci];
}

/// Whether a key is the one that a character of a code stands for: that of its first entry.
pub open spec fn keyed(layout: KeyLayout, c: char, k: int) -> bool {
    exists|m: int|
        #![trigger layout.chars@[m]]
        0 <= m < layout.chars@.len() && layout.chars@[m].0 == c && layout.chars@[m].1 == k && forall|i: int|
            0 <= i < m ==> (#[trigger] layout.chars@[i]).0 != c
}

/// Whether a character of a code stands for a key.
pub open spec fn readable(layout: KeyLayout, c: char) -> bool {
    exists|k: int| 0 <= k < 31 && #[trigger] keyed(layout, c, k)
}

/// The key of a character of a code comes from its first entry.
proof fn first_key_from_first(chars: Seq<(char, usize)>, c: char)
    ensures
        first_key(chars, c) matches Some(k) ==> exists|m: int|
            #![trigger chars[m]]
            0 <= m < chars.len() && chars[m].0 == c && chars[m].1 == k && forall|i: int|
                0 <= i < m ==> (#[trigger] chars[i]).0 != c,
        first_key(chars, c) is None ==> forall|i: int| 0 <= i < chars.len() ==> (#[trigger] chars[i]).0 != c,
    decreases chars.len(),
{
    if chars.len() > 0 {
        if chars[0].0 == c {
            assert(chars[0].1 == first_key(chars, c)->0);
        } else {
            let rest = chars.skip(1);
            first_key_from_first(rest, c);
            if first_key(rest, c) is Some {
                let k = first_key(rest, c)->0;
                let m = choose|m: int|
                    #![trigger rest[m]]
                    0 <= m < rest.len() && rest[m].0 == c && rest[m].1 == k && forall|i: int|
                        0 <= i < m ==> (#[trigger] rest[i]).0 != c;
                assert(chars[m + 1] == rest[m]);
                assert forall|i: int| 0 <= i < m + 1 implies (#[trigger] chars[i]).0 != c by {
                    if i > 0 {
                        assert(rest[i - 1] == chars[i]);
                    }
                }
            } else {
                assert forall|i: int| 0 <= i < chars.len() implies (#[trigger] chars[i]).0 != c by {
                    if i > 0 {
                        assert(rest[i - 1] == chars[i]);
                    }
                }
            }
        }
    }
}

/// A character of a code stands for one key.
proof fn keyed_once(layout: KeyLayout, c: char, k: int)
    ensures
        keyed(layout, c, k) <==> (layout.key_of_char(c) matches Some(j) && j == k),
{
    first_key_from_first(layout.chars@, c);
    if keyed(layout, c, k) {
        let chars = layout.chars@;
        let m = choose|m: int|
            #![trigger chars[m]]
            0 <= m < chars.len() && chars[m].0 == c && chars[m].1 == k && forall|i: int|
                0 <= i < m ==> (#[trigger] chars[i]).0 != c;
        let j = first_key(chars, c)->0;
        let m2 = choose|m: int|
            #![trigger chars[m]]
            0 <= m < chars.len() && chars[m].0 == c && chars[m].1 == j && forall|i: int|
                0 <= i < m ==> (#[trigger] chars[i]).0 != c;
        let (x, y) = (chars[m], chars[m2]);
        assert(m == m2);
    }
}

/// The keys that a code is written with are those that its characters stand for, one by one; a code
/// has none where some character of it stands for no key.
proof fn written_told(layout: KeyLayout, code: Seq<char>)
    ensures
        written_keys(&layout, code) matches Some(keys) ==> {
            &&& keys.len() == code.len()
            &&& forall|x: int| 0 <= x < code.len() ==> keyed(layout, code[x], #[trigger] keys[x] as int)
            &&& forall|x: int| 0 <= x < code.len() ==> (#[trigger] keys[x]) < 31
        },
        written_keys(&layout, code) is None ==> exists|x: int|
            0 <= x < code.len() && !readable(layout, #[trigger] code[x]),
    decreases code.len(),
{
    if code.len() > 0 {
        let front = code.drop_last();
        let l = code.len() - 1;
        written_told(layout, front);
        match written_keys(&layout, front) {
            Some(fk) => {
                match layout.key_of_char(code.last()) {
                    Some(k) => {
                        keyed_once(layout, code[l], k as int);
                        if k < 31 {
                            let keys = fk.push(k as u8);
                            assert forall|x: int| 0 <= x < code.len() implies keyed(
                                layout,
                                code[x],
                                #[trigger] keys[x] as int,
                            ) by {
                                if x < l {
                                    assert(front[x] == code[x]);
                                    let y = fk[x];
                                }
                            }
                            assert forall|x: int| 0 <= x < code.len() implies (#[trigger] keys[x]) < 31 by {
                                if x < l {
                                    let y = fk[x];
                                }
                            }
                        } else {
                            assert forall|j: int| 0 <= j < 31 implies !#[trigger] keyed(layout, code[l], j) by {
                                keyed_once(layout, code[l], j);
                            }
                            assert(!readable(layout, code[l]));
                        }
                    },
                    None => {
                        assert forall|j: int| 0 <= j < 31 implies !#[trigger] keyed(layout, code[l], j) by {
                            keyed_once(layout, code[l], j);
                        }
                        assert(!readable(layout, code[l]));
                    },
                }
            },
            None => {
                let x = choose|x: int|
                    0 <= x < front.len() && !readable(layout, #[trigger] front[x]);
                assert(code[x] == front[x]);
            },
        }
    }
}

/// Whether a number of keys is that of the longest simple code of a level, without a commit key.
pub open spec fn longest_at(infos: Seq<CharSimpleInfo>, li: int, len: int) -> bool {
    let steps = |ci: int|
        if li < infos[ci].level_instructions@.len() {
            match infos[ci].level_instructions@[li] {
                Some(v) => v@.len() as int,
                None => 0,
            }
        } else {
            0
        };
    &&& len >= 0
    &&& forall|ci: int| #![trigger infos[ci]] 0 <= ci < infos.len() ==> steps(ci) <= len
    &&& len == 0 || exists|ci: int| #![trigger infos[ci]] 0 <= ci < infos.len() && steps(ci) == len
}

/// The longest of the first `k` bounds them and is one of them.
proof fn longest_steps_reached(infos: Seq<CharSimpleInfo>, li: int, k: nat)
    requires
        k <= infos.len(),
    ensures
        forall|ci: int|
            #![trigger infos[ci]]
            0 <= ci < k ==> steps_at(infos[ci], li) <= longest_steps(infos, li, k),
        longest_steps(infos, li, k) == 0 || exists|ci: int|
            #![trigger infos[ci]]
            0 <= ci < k && steps_at(infos[ci], li) == longest_steps(infos, li, k),
    decreases k,
{
    if k > 0 {
        longest_steps_reached(infos, li, (k - 1) as nat);
        let x = infos[k - 1];
        let front = longest_steps(infos, li, (k - 1) as nat);
        if longest_steps(infos, li, k) == front && front != 0 {
            let ci = choose|ci: int|
                #![trigger infos[ci]]
                0 <= ci < k - 1 && steps_at(infos[ci], li) == front;
            let y = infos[ci];
        }
    }
}

/// There is one longest length.
proof fn longest_at_once(infos: Seq<CharSimpleInfo>, li: int, len: int)
    requires
        0 <= li,
    ensures
        longest_at(infos, li, len) <==> len == longest_steps(infos, li, infos.len()),
{
    longest_steps_reached(infos, li, infos.len());
    let most = longest_steps(infos, li, infos.len()) as int;
    if most != 0 {
        let ci = choose|ci: int|
            #![trigger infos[ci]]
            0 <= ci < infos.len() && steps_at(infos[ci], li) == most;
        let y = infos[ci];
    }
    assert(longest_at(infos, li, most));
    if longest_at(infos, li, len) && len != 0 {
        let steps = |ci: int|
            if li < infos[ci].level_instructions@.len() {
                match infos[ci].level_instructions@[li] {
                    Some(v) => v@.len() as int,
                    None => 0,
                }
            } else {
                0
            };
        let ci = choose|ci: int| #![trigger infos[ci]] 0 <= ci < infos.len() && steps(ci) == len;
        let y = infos[ci];
    }
}

/// Whether a fixed code is one of a level by its keys: as long as the longest simple codes there, with
/// one of the commit keys behind them where the level has some.
pub open spec fn fits_level(level: SimpleCodeLevel, len: int, keys: Seq<u8>) -> bool {
    if level.commit_keys@.len() > 0 {
        keys.len() == len + 1 && level.commit_keys@.contains(keys.last())
    } else {
        keys.len() == len
    }
}

/// The level that a fixed code counts for is the first that it fits.
proof fn level_for_first(levels: Seq<SimpleCodeLevel>, lens: Seq<usize>, keys: Seq<u8>)
    requires
        lens.len() >= levels.len(),
    ensures
        level_for(levels, lens, keys) matches Some(l) ==> {
            &&& 0 <= l < levels.len()
            &&& level_takes(levels[l], lens[l] as nat, keys)
            &&& forall|k: int| 0 <= k < l ==> !level_takes(#[trigger] levels[k], lens[k] as nat, keys)
        },
        level_for(levels, lens, keys) is None ==> forall|k: int|
            0 <= k < levels.len() ==> !level_takes(#[trigger] levels[k], lens[k] as nat, keys),
    decreases levels.len(),
{
    if levels.len() > 0 {
        let front = levels.drop_last();
        level_for_first(front, lens, keys);
        let x = levels[levels.len() - 1];
        match level_for(front, lens, keys) {
            Some(l) => {
                assert(front[l] == levels[l]);
                assert forall|k: int| 0 <= k < l implies !level_takes(
                    #[trigger] levels[k],
                    lens[k] as nat,
                    keys,
                ) by {
                    assert(front[k] == levels[k]);
                }
            },
            None => {
                assert forall|k: int| 0 <= k < levels.len() - 1 implies !level_takes(
                    #[trigger] levels[k],
                    lens[k] as nat,
                    keys,
                ) by {
                    assert(front[k] == levels[k]);
                }
            },
        }
    }
}

/// The first character of a list that is `ch` is the first.
proof fn char_index_first(splits: Seq<(char, Vec<String>, u64)>, ch: char)
    ensures
        char_index(splits, ch) matches Some(ci) ==> {
            &&& 0 <= ci < splits.len()
            &&& splits[ci].0 == ch
            &&& forall|k: int| 0 <= k < ci ==> (#[trigger] splits[k]).0 != ch
        },
        char_index(splits, ch) is None ==> forall|k: int| 0 <= k < splits.len() ==> (#[trigger] splits[k]).0 != ch,
    decreases splits.len(),
{
    if splits.len() > 0 {
        let front = splits.drop_last();
        char_index_first(front, ch);
        match char_index(front, ch) {
            Some(ci) => {
                assert(front[ci] == splits[ci]);
                assert forall|k: int| 0 <= k < ci implies (#[trigger] splits[k]).0 != ch by {
                    assert(front[k] == splits[k]);
                }
            },
            None => {
                assert forall|k: int| 0 <= k < splits.len() - 1 implies (#[trigger] splits[k]).0 != ch by {
                    assert(front[k] == splits[k]);
                }
                let x = splits[splits.len() - 1];
            },
        }
    }
}

/// What fixed codes are examined by.
spec fn examined(ctx: &OptContext, scheme: Scheme, lens: Seq<usize>, entries: Seq<(char, String)>) -> Seq<FixedDesc> {
    accepted_codes(ctx.layout, ctx.simple_config.levels@, ctx.char_infos@, scheme.splits@, lens, entries)
}

/// What was accepted first stays.
proof fn accepted_grows(ctx: &OptContext, scheme: Scheme, lens: Seq<usize>, entries: Seq<(char, String)>, i: int)
    requires
        0 <= i <= entries.len(),
    ensures
        examined(ctx, scheme, lens, entries.take(i)).is_prefix_of(examined(ctx, scheme, lens, entries)),
    decreases entries.len() - i,
{
    if i == entries.len() {
        assert(entries.take(i) =~= entries);
    } else {
        accepted_grows(ctx, scheme, lens, entries, i + 1);
        assert(entries.take(i + 1).drop_last() =~= entries.take(i));
        let a = examined(ctx, scheme, lens, entries.take(i));
        let b = examined(ctx, scheme, lens, entries.take(i + 1));
        let c = examined(ctx, scheme, lens, entries);
        assert(a.is_prefix_of(b));
        assert forall|k: int| 0 <= k < a.len() implies a[k] == c[k] by {
            assert(a[k] == b[k]);
            assert(b[k] == c[k]);
        }
        assert(a =~= c.take(a.len() as int));
    }
}

/// Where an accepted code comes from.
proof fn accepted_from(
    ctx: &OptContext,
    scheme: Scheme,
    lens: Seq<usize>,
    entries: Seq<(char, String)>,
    j: int,
) -> (i: int)
    requires
        0 <= j < examined(ctx, scheme, lens, entries).len(),
    ensures
        0 <= i < entries.len(),
        examined(ctx, scheme, lens, entries.take(i)) == examined(ctx, scheme, lens, entries).take(j),
        fixed_desc(
            ctx.layout,
            ctx.simple_config.levels@,
            ctx.char_infos@,
            scheme.splits@,
            lens,
            entries[i],
            examined(ctx, scheme, lens, entries.take(i)),
        ) == Some(examined(ctx, scheme, lens, entries)[j]),
    decreases entries.len(),
{
    let all = examined(ctx, scheme, lens, entries);
    let front = entries.drop_last();
    let before = examined(ctx, scheme, lens, front);
    if j < before.len() {
        let i = accepted_from(ctx, scheme, lens, front, j);
        assert(front.take(i) =~= entries.take(i));
        assert(front[i] == entries[i]);
        assert(before.take(j) =~= all.take(j));
        i
    } else {
        let i = entries.len() - 1;
        assert(entries.take(i) =~= front);
        assert(all.take(j) =~= before);
        i
    }
}

/// The keys of a fixed code with its commit key, if it has one.
pub open spec fn whole_code(c: FixedSimpleCode) -> Seq<u8> {
    if c.commit_key is Some {
        c.keys@.push(c.commit_key->0)
    } else {
        c.keys@
    }
}

/// Every fixed code that counts is one that was given: that of the first character of its name, with
/// the keys that the code is written with. Without its commit key it is shorter than the full code.
/// It counts for the first level that it fits, if any, and then ends in one of the level's commit keys
/// where there are some. No character has two.
pub proof fn fixed_codes_told(ctx: &OptContext, scheme: Scheme, entries: Seq<(char, String)>, j: int)
    requires
        ctx.wf_full(),
        built(ctx, scheme, entries),
        0 <= j < ctx.simple_fixed_codes@.len(),
    ensures
        ({
            let c = ctx.simple_fixed_codes@[j];
            let splits = scheme.splits@;
            let levels = ctx.simple_config.levels@;
            let all = whole_code(c);
            &&& scheme.enable_simple_code
            &&& exists|i: int|
                0 <= i < entries.len() && (#[trigger] entries[i]).1@ == c.code_str@ && entries[i].0
                    == splits[c.ci as int].0
            &&& forall|k: int| 0 <= k < c.ci ==> (#[trigger] splits[k]).0 != splits[c.ci as int].0
            &&& all.len() == c.code_str@.len()
            &&& forall|x: int|
                0 <= x < all.len() ==> (#[trigger] all[x]) < 31 && keyed(
                    scheme.layout,
                    c.code_str@[x],
                    all[x] as int,
                )
            &&& 0 < c.keys@.len() < ctx.char_infos@[c.ci as int].parts@.len()
            &&& c.li matches Some(l) ==> {
                &&& l < levels.len()
                &&& c.commit_key is Some <==> levels[l as int].commit_keys@.len() > 0
                &&& exists|len: int| #[trigger]
                    longest_at(ctx.char_simple_infos@, l as int, len) && fits_level(
                        levels[l as int],
                        len,
                        all,
                    )
            }
            &&& c.commit_key is Some ==> c.li is Some
            &&& forall|l: int, len: int|
                0 <= l < levels.len() && #[trigger] longest_at(ctx.char_simple_infos@, l, len) && fits_level(
                    levels[l],
                    len,
                    all,
                ) ==> c.li is Some && c.li->0 <= l
            &&& forall|j2: int|
                #![trigger ctx.simple_fixed_codes@[j2]]
                0 <= j2 < ctx.simple_fixed_codes@.len() && j2 != j ==> ctx.simple_fixed_codes@[j2].ci != c.ci
        }),
{
    let lens = choose|lens: Seq<usize>| #[trigger] built_fixed(ctx, scheme, lens, entries);
    let given = if scheme.enable_simple_code { entries } else { Seq::empty() };
    let accepted = examined(ctx, scheme, lens, given);
    assert(accepted == counting_codes(ctx, scheme, lens, entries));
    let c = ctx.simple_fixed_codes@[j];
    let levels = ctx.simple_config.levels@;
    assert(desc_of(c) == accepted[j]);
    let i = accepted_from(ctx, scheme, lens, given, j);
    let entry = given[i];
    assert(entries[i] == entry);
    char_index_first(scheme.splits@, entry.0);
    written_told(ctx.layout, entry.1@);
    let keys = written_keys(&ctx.layout, entry.1@)->0;
    level_for_first(levels, lens, keys);
    let all = whole_code(c);
    assert(all =~= keys) by {
        if c.commit_key is Some {
            assert(keys =~= keys.drop_last().push(keys.last()));
        }
    }
    if c.li is Some {
        let l = c.li->0 as int;
        longest_at_once(ctx.char_simple_infos@, l, lens[l] as int);
        assert(longest_at(ctx.char_simple_infos@, l, lens[l] as int));
        assert(level_takes(levels[l], lens[l] as nat, keys));
        assert(fits_level(levels[l], lens[l] as int, all));
    }
    assert forall|l: int, len: int|
        0 <= l < levels.len() && #[trigger] longest_at(ctx.char_simple_infos@, l, len) && fits_level(
            levels[l],
            len,
            all,
        ) implies c.li is Some && c.li->0 <= l by {
        longest_at_once(ctx.char_simple_infos@, l, len);
        assert(lens[l] == len);
        assert(level_takes(levels[l], lens[l] as nat, keys));
    }
    assert forall|j2: int|
        #![trigger ctx.simple_fixed_codes@[j2]]
        0 <= j2 < ctx.simple_fixed_codes@.len() && j2 != j implies ctx.simple_fixed_codes@[j2].ci != c.ci by {
        let (lo, hi) = if j < j2 { (j, j2) } else { (j2, j) };
        assert(desc_of(ctx.simple_fixed_codes@[j2]) == accepted[j2]);
        let k = accepted_from(ctx, scheme, lens, given, hi);
        let before = accepted.take(hi);
        assert(before[lo] == accepted[lo]);
        assert(!taken(before, accepted[hi].ci));
    }
}

/// Whether a level is the first that keys are a code of.
pub open spec fn first_fit(ctx: &OptContext, keys: Seq<u8>, li: int) -> bool {
    let levels = ctx.simple_config.levels@;
    &&& 0 <= li < levels.len()
    &&& exists|len: int| #[trigger] longest_at(ctx.char_simple_infos@, li, len) && fits_level(levels[li], len, keys)
    &&& forall|k: int, len: int|
        0 <= k < li && #[trigger] longest_at(ctx.char_simple_infos@, k, len) ==> !fits_level(
            levels[k],
            len,
            keys,
        )
}

/// Whether the last of the keys of a fixed code is a commit key: it is where the first level that they
/// are a code of has commit keys.
pub open spec fn ends_in_commit(ctx: &OptContext, keys: Seq<u8>) -> bool {
    exists|li: int| #[trigger] first_fit(ctx, keys, li) && ctx.simple_config.levels@[li].commit_keys@.len() > 0
}

/// Whether a code is written with keys, and these, without a commit key, are some and fewer than a
/// number.
pub open spec fn counts_below(ctx: &OptContext, code: Seq<char>, parts: int) -> bool {
    exists|keys: Seq<u8>|
        {
            &&& keys.len() == code.len()
            &&& forall|x: int|
                0 <= x < code.len() ==> keyed(ctx.layout, code[x], #[trigger] keys[x] as int) && keys[x] < 31
            &&& 0 < keys.len() - (if #[trigger] ends_in_commit(ctx, keys) {
                1int
            } else {
                0
            }) < parts
        }
}

/// The level that keys count for is the first fit.
proof fn first_fit_told(ctx: &OptContext, lens: Seq<usize>, keys: Seq<u8>)
    requires
        are_level_lens(lens, ctx.char_simple_infos@, ctx.n_levels()),
    ensures
        commit_of(ctx.simple_config.levels@, level_for(ctx.simple_config.levels@, lens, keys), keys) is Some
            <==> ends_in_commit(ctx, keys),
{
    let levels = ctx.simple_config.levels@;
    let infos = ctx.char_simple_infos@;
    level_for_first(levels, lens, keys);
    assert forall|l: int, len: int| 0 <= l < levels.len() && #[trigger] longest_at(infos, l, len) implies lens[l]
        == len && (fits_level(levels[l], len, keys) <==> level_takes(levels[l], lens[l] as nat, keys)) by {
        longest_at_once(infos, l, len);
    }
    match level_for(levels, lens, keys) {
        Some(l) => {
            longest_at_once(infos, l, lens[l] as int);
            assert(longest_at(infos, l, lens[l] as int));
            assert(first_fit(ctx, keys, l));
            if ends_in_commit(ctx, keys) {
                let li = choose|li: int| #[trigger]
                    first_fit(ctx, keys, li) && levels[li].commit_keys@.len() > 0;
                let len = choose|len: int| #[trigger]
                    longest_at(infos, li, len) && fits_level(levels[li], len, keys);
                let (x, y) = (levels[l], levels[li]);
                assert(li == l);
            }
        },
        None => {
            if ends_in_commit(ctx, keys) {
                let li = choose|li: int| #[trigger]
                    first_fit(ctx, keys, li) && levels[li].commit_keys@.len() > 0;
                let len = choose|len: int| #[trigger]
                    longest_at(infos, li, len) && fits_level(levels[li], len, keys);
                let y = levels[li];
            }
        },
    }
}

/// A fixed code counts exactly if its character has none yet and it counts by its keys.
proof fn counts_told(
    ctx: &OptContext,
    scheme: Scheme,
    lens: Seq<usize>,
    entry: (char, String),
    ci: int,
    before: Seq<FixedDesc>,
)
    requires
        are_level_lens(lens, ctx.char_simple_infos@, ctx.n_levels()),
        char_index(scheme.splits@, entry.0) == Some(ci),
    ensures
        fixed_desc(
            ctx.layout,
            ctx.simple_config.levels@,
            ctx.char_infos@,
            scheme.splits@,
            lens,
            entry,
            before,
        ) is Some <==> !taken(before, ci) && counts_below(
            ctx,
            entry.1@,
            ctx.char_infos@[ci].parts@.len() as int,
        ),
{
    let code = entry.1@;
    let parts = ctx.char_infos@[ci].parts@.len() as int;
    written_told(ctx.layout, code);
    match written_keys(&ctx.layout, code) {
        Some(keys) => {
            first_fit_told(ctx, lens, keys);
            let x = ends_in_commit(ctx, keys);
            if counts_below(ctx, code, parts) {
                let other = choose|keys: Seq<u8>|
                    {
                        &&& keys.len() == code.len()
                        &&& forall|x: int|
                            0 <= x < code.len() ==> keyed(ctx.layout, code[x], #[trigger] keys[x] as int) && keys[x]
                                < 31
                        &&& 0 < keys.len() - (if #[trigger] ends_in_commit(ctx, keys) {
                            1int
                        } else {
                            0
                        }) < parts
                    };
                assert forall|x: int| 0 <= x < code.len() implies other[x] == keys[x] by {
                    keyed_once(ctx.layout, code[x], other[x] as int);
                    keyed_once(ctx.layout, code[x], keys[x] as int);
                }
                assert(other =~= keys);
            }
        },
        None => {
            let x = choose|x: int| 0 <= x < code.len() && !readable(ctx.layout, #[trigger] code[x]);
            if counts_below(ctx, code, parts) {
                let other = choose|keys: Seq<u8>|
                    {
                        &&& keys.len() == code.len()
                        &&& forall|x: int|
                            0 <= x < code.len() ==> keyed(ctx.layout, code[x], #[trigger] keys[x] as int) && keys[x]
                                < 31
                        &&& 0 < keys.len() - (if #[trigger] ends_in_commit(ctx, keys) {
                            1int
                        } else {
                            0
                        }) < parts
                    };
                let k = other[x];
                assert(keyed(ctx.layout, code[x], k as int));
            }
        },
    }
}

/// No character without an entry that counts has a fixed code.
proof fn nobody_before(
    ctx: &OptContext,
    scheme: Scheme,
    lens: Seq<usize>,
    entries: Seq<(char, String)>,
    ci: int,
    i: int,
)
    requires
        are_level_lens(lens, ctx.char_simple_infos@, ctx.n_levels()),
        0 <= i <= entries.len(),
        forall|k: int|
            0 <= k < i && char_index(scheme.splits@, (#[trigger] entries[k]).0) == Some(ci) ==> !counts_below(
                ctx,
                entries[k].1@,
                ctx.char_infos@[ci].parts@.len() as int,
            ),
    ensures
        !taken(examined(ctx, scheme, lens, entries.take(i)), ci),
    decreases i,
{
    if i > 0 {
        nobody_before(ctx, scheme, lens, entries, ci, i - 1);
        let part = entries.take(i);
        assert(part.drop_last() =~= entries.take(i - 1));
        assert(part.last() == entries[i - 1]);
        let before = examined(ctx, scheme, lens, entries.take(i - 1));
        if char_index(scheme.splits@, entries[i - 1].0) == Some(ci) {
            counts_told(ctx, scheme, lens, entries[i - 1], ci, before);
        }
        let after = examined(ctx, scheme, lens, part);
        if taken(after, ci) {
            let j = choose|j: int| 0 <= j < after.len() && (#[trigger] after[j]).ci == ci;
            if j < before.len() {
                assert(before[j] == after[j]);
            }
        }
    }
}

/// A character has the first of the fixed codes given for it that counts: that is written with keys,
/// some and fewer than the parts of its full code, the commit key aside. It has none if there is no such
/// code.
pub proof fn first_code_that_counts(
    ctx: &OptContext,
    scheme: Scheme,
    entries: Seq<(char, String)>,
    i: int,
    ci: int,
)
    requires
        ctx.wf_full(),
        ctx.wf_simple(),
        built(ctx, scheme, entries),
        scheme.enable_simple_code,
        0 <= i <= entries.len(),
        0 <= ci < scheme.splits@.len(),
        forall|k: int| 0 <= k < ci ==> (#[trigger] scheme.splits@[k]).0 != scheme.splits@[ci].0,
        forall|k: int|
            0 <= k < i && (#[trigger] entries[k]).0 == scheme.splits@[ci].0 ==> !counts_below(
                ctx,
                entries[k].1@,
                ctx.char_infos@[ci].parts@.len() as int,
            ),
        i < entries.len() ==> entries[i].0 == scheme.splits@[ci].0 && counts_below(
            ctx,
            entries[i].1@,
            ctx.char_infos@[ci].parts@.len() as int,
        ),
    ensures
        i < entries.len() ==> exists|j: int|
            #![trigger ctx.simple_fixed_codes@[j]]
            0 <= j < ctx.simple_fixed_codes@.len() && ctx.simple_fixed_codes@[j].ci == ci
                && ctx.simple_fixed_codes@[j].code_str@ == entries[i].1@,
        i == entries.len() ==> forall|j: int|
            0 <= j < ctx.simple_fixed_codes@.len() ==> (#[trigger] ctx.simple_fixed_codes@[j]).ci != ci,
{
    let lens = choose|lens: Seq<usize>| #[trigger] built_fixed(ctx, scheme, lens, entries);
    let accepted = examined(ctx, scheme, lens, entries);
    assert(accepted == counting_codes(ctx, scheme, lens, entries));
    let ch = scheme.splits@[ci].0;
    char_index_first(scheme.splits@, ch);
    let found = char_index(scheme.splits@, ch)->0;
    let (x, y) = (scheme.splits@[ci], scheme.splits@[found]);
    assert(found == ci);
    assert forall|k: int|
        0 <= k < i && char_index(scheme.splits@, (#[trigger] entries[k]).0) == Some(ci) implies !counts_below(
        ctx,
        entries[k].1@,
        ctx.char_infos@[ci].parts@.len() as int,
    ) by {
        char_index_first(scheme.splits@, entries[k].0);
    }
    nobody_before(ctx, scheme, lens, entries, ci, i);
    if i < entries.len() {
        let before = examined(ctx, scheme, lens, entries.take(i));
        let after = examined(ctx, scheme, lens, entries.take(i + 1));
        assert(entries.take(i + 1).drop_last() =~= entries.take(i));
        assert(entries.take(i + 1).last() == entries[i]);
        counts_told(ctx, scheme, lens, entries[i], ci, before);
        accepted_grows(ctx, scheme, lens, entries, i + 1);
        let j = before.len() as int;
        assert(after[j].ci == ci && after[j].text == entries[i].1@);
        assert(accepted[j] == after[j]);
        assert(desc_of(ctx.simple_fixed_codes@[j]) == accepted[j]);
        assert(ctx.simple_fixed_codes@[j].ci == ci);
    } else {
        assert(entries.take(i) =~= entries);
        assert forall|j: int|
            0 <= j < ctx.simple_fixed_codes@.len() implies (#[trigger] ctx.simple_fixed_codes@[j]).ci != ci by {
            assert(desc_of(ctx.simple_fixed_codes@[j]) == accepted[j]);
            if ctx.simple_fixed_codes@[j].ci == ci {
                assert(accepted[j].ci == ci);
            }
        }
    }
}

/// Whether a code with keys finds no space key to be committed with: the first level that they are a code
/// of does not commit with it or, where there is none, no level does.
pub open spec fn finds_no_space(ctx: &OptContext, keys: Seq<u8>) -> bool {
    let levels = ctx.simple_config.levels@;
    let space = ctx.layout.space;
    &&& forall|li: int| #[trigger] first_fit(ctx, keys, li) ==> !levels[li].commit_keys@.contains(space)
    &&& (forall|li: int| !#[trigger] first_fit(ctx, keys, li)) ==> forall|li: int|
        0 <= li < levels.len() ==> !(#[trigger] levels[li]).commit_keys@.contains(space)
}

/// A level is found for keys exactly if it is the first fit.
proof fn level_found(ctx: &OptContext, lens: Seq<usize>, keys: Seq<u8>)
    requires
        are_level_lens(lens, ctx.char_simple_infos@, ctx.n_levels()),
    ensures
        lacks_space(ctx.simple_config.levels@, lens, ctx.layout.space, keys) <==> finds_no_space(ctx, keys),
{
    let levels = ctx.simple_config.levels@;
    let infos = ctx.char_simple_infos@;
    level_for_first(levels, lens, keys);
    assert forall|l: int, len: int| 0 <= l < levels.len() && #[trigger] longest_at(infos, l, len) implies lens[l]
        == len && (fits_level(levels[l], len, keys) <==> level_takes(levels[l], lens[l] as nat, keys)) by {
        longest_at_once(infos, l, len);
    }
    assert forall|li: int| #[trigger] first_fit(ctx, keys, li) implies level_for(levels, lens, keys) == Some(li) by {
        let len = choose|len: int| #[trigger] longest_at(infos, li, len) && fits_level(levels[li], len, keys);
        let y = levels[li];
        if level_for(levels, lens, keys) is Some {
            let l = level_for(levels, lens, keys)->0;
            let x = levels[l];
            longest_at_once(infos, l, lens[l] as int);
            assert(longest_at(infos, l, lens[l] as int));
        }
    }
    match level_for(levels, lens, keys) {
        Some(l) => {
            longest_at_once(infos, l, lens[l] as int);
            assert(longest_at(infos, l, lens[l] as int));
            assert(first_fit(ctx, keys, l));
        },
        None => {
            if some_level_commits_with(levels, ctx.layout.space) {
                let li = choose|li: int|
                    0 <= li < levels.len() && (#[trigger] levels[li]).commit_keys@.contains(ctx.layout.space);
                let x = levels[li];
            }
        },
    }
}

/// A fixed code is a mistake exactly if simple codes are optimised, its character is known, it ends in
/// `_`, and it is written with keys that find no space key to be committed with.
pub proof fn misplaced_told(ctx: &OptContext, scheme: Scheme, entries: Seq<(char, String)>, entry: (char, String))
    requires
        ctx.wf_full(),
        ctx.wf_simple(),
        built(ctx, scheme, entries),
    ensures
        space_misplaced(scheme, entry) <==> {
            &&& scheme.enable_simple_code
            &&& exists|ci: int|
                #![trigger scheme.splits@[ci]]
                0 <= ci < scheme.splits@.len() && scheme.splits@[ci].0 == entry.0
            &&& entry.1@.len() > 0
            &&& entry.1@[entry.1@.len() - 1] == '_'
            &&& exists|keys: Seq<u8>|
                {
                    &&& keys.len() == entry.1@.len()
                    &&& forall|x: int|
                        0 <= x < keys.len() ==> keyed(scheme.layout, entry.1@[x], #[trigger] keys[x] as int)
                            && keys[x] < 31
                    &&& #[trigger] finds_no_space(ctx, keys)
                }
        },
{
    let lens = choose|lens: Seq<usize>| #[trigger] built_fixed(ctx, scheme, lens, entries);
    assert(scheme_lens(scheme) =~= lens);
    let code = entry.1@;
    char_index_first(scheme.splits@, entry.0);
    if char_index(scheme.splits@, entry.0) is Some {
        let x = scheme.splits@[char_index(scheme.splits@, entry.0)->0];
    }
    written_told(scheme.layout, code);
    match written_keys(&scheme.layout, code) {
        Some(keys) => {
            level_found(ctx, lens, keys);
            assert forall|other: Seq<u8>|
                other.len() == code.len() && (forall|x: int|
                    0 <= x < other.len() ==> keyed(scheme.layout, code[x], #[trigger] other[x] as int) && other[x]
                        < 31) && #[trigger] finds_no_space(ctx, other) implies other == keys by {
                assert forall|x: int| 0 <= x < code.len() implies other[x] == keys[x] by {
                    keyed_once(scheme.layout, code[x], other[x] as int);
                    keyed_once(scheme.layout, code[x], keys[x] as int);
                }
                assert(other =~= keys);
            }
            let x = finds_no_space(ctx, keys);
        },
        None => {
            let x = choose|x: int| 0 <= x < code.len() && !readable(scheme.layout, #[trigger] code[x]);
            assert forall|other: Seq<u8>|
                other.len() == code.len() && #[trigger] finds_no_space(ctx, other) implies !(forall|y: int|
                0 <= y < other.len() ==> keyed(scheme.layout, code[y], #[trigger] other[y] as int) && other[y]
                    < 31) by {
                let k = other[x];
                if keyed(scheme.layout, code[x], k as int) && k < 31 {
                    assert(readable(scheme.layout, code[x]));
                }
            }
        },
    }
}

/// A character that a fixed code is given for has one, if the code is written with keys and shorter
/// than the full code: that of the first such entry.
pub proof fn fixed_codes_are_heard(
    ctx: &OptContext,
    scheme: Scheme,
    entries: Seq<(char, String)>,
    i: int,
    ci: int,
)
    requires
        ctx.wf_full(),
        ctx.wf_simple(),
        built(ctx, scheme, entries),
        scheme.enable_simple_code,
        0 <= i < entries.len(),
        0 <= ci < scheme.splits@.len(),
        scheme.splits@[ci].0 == entries[i].0,
        forall|k: int| 0 <= k < ci ==> (#[trigger] scheme.splits@[k]).0 != entries[i].0,
        forall|x: int| 0 <= x < entries[i].1@.len() ==> readable(scheme.layout, #[trigger] entries[i].1@[x]),
        1 < entries[i].1@.len() < ctx.char_infos@[ci].parts@.len(),
    ensures
        ctx.simple_fixed_assigned@[ci],
        exists|j: int| 0 <= j < ctx.simple_fixed_codes@.len() && (#[trigger] ctx.simple_fixed_codes@[j]).ci == ci,
{
    let lens = choose|lens: Seq<usize>| #[trigger] built_fixed(ctx, scheme, lens, entries);
    let accepted = examined(ctx, scheme, lens, entries);
    assert(accepted == counting_codes(ctx, scheme, lens, entries));
    char_index_first(scheme.splits@, entries[i].0);
    let found = char_index(scheme.splits@, entries[i].0)->0;
    let (x, y) = (scheme.splits@[ci], scheme.splits@[found]);
    assert(found == ci);
    written_told(ctx.layout, entries[i].1@);
    if written_keys(&ctx.layout, entries[i].1@) is None {
        let x = choose|x: int|
            0 <= x < entries[i].1@.len() && !readable(ctx.layout, #[trigger] entries[i].1@[x]);
        assert(readable(scheme.layout, entries[i].1@[x]));
    }
    let before = examined(ctx, scheme, lens, entries.take(i));
    let after = examined(ctx, scheme, lens, entries.take(i + 1));
    assert(entries.take(i + 1).drop_last() =~= entries.take(i));
    assert(entries.take(i + 1).last() == entries[i]);
    accepted_grows(ctx, scheme, lens, entries, i);
    accepted_grows(ctx, scheme, lens, entries, i + 1);
    let j = if taken(before, ci) {
        let j = choose|j: int| 0 <= j < before.len() && (#[trigger] before[j]).ci == ci;
        assert(accepted[j] == before[j]);
        j
    } else {
        let j = before.len() as int;
        assert(after[j].ci == ci);
        assert(accepted[j] == after[j]);
        j
    };
    assert(desc_of(ctx.simple_fixed_codes@[j]) == accepted[j]);
    assert(ctx.simple_fixed_codes@[j].ci == ci);
}

/// The strokes of the fixed codes are those of all keys, and one for each key of each code. What they
/// cover is the frequency of their characters.
pub proof fn strokes_of_fixed_codes(ctx: &OptContext, scheme: Scheme, entries: Seq<(char, String)>)
    requires
        ctx.wf_full(),
        built(ctx, scheme, entries),
    ensures
        ({
            let codes = ctx.simple_fixed_codes@;
            let freq = |j: int| ctx.char_infos@[codes[j].ci as int].frequency;
            &&& ctx.fixed_key_presses == sum(Seq::new(31, |k: int| ctx.fixed_key_usage@[k] as int))
            &&& ctx.fixed_key_presses == sum(
                Seq::new(codes.len(), |j: int| freq(j) * codes[j].code_str@.len()),
            )
            &&& ctx.fixed_covered_freq == sum(Seq::new(codes.len(), |j: int| freq(j) as int))
        }),
{
    let lens = choose|lens: Seq<usize>| #[trigger] built_fixed(ctx, scheme, lens, entries);
    let codes = ctx.simple_fixed_codes@;
    let infos = ctx.char_infos@;
    let freq = |j: int| ctx.char_infos@[codes[j].ci as int].frequency;
    let freqs = Seq::new(codes.len(), |j: int| freq(j) as int);
    let keys = Seq::new(codes.len(), |j: int| all_keys(codes[j]));
    assert forall|j: int, x: int|
        #![trigger keys[j][x]]
        0 <= j < keys.len() && 0 <= x < keys[j].len() implies keys[j][x] < 31 by {
        fixed_codes_told(ctx, scheme, entries, j);
        let all = whole_code(codes[j]);
        assert(all == keys[j]);
        assert(all[x] < 31);
    }
    strokes_are_all_keys(freqs, keys);
    assert(fixed_terms(infos, codes, PRESSES as int) =~= Seq::new(
        codes.len(),
        |j: int| freq(j) * codes[j].code_str@.len(),
    )) by {
        assert forall|j: int| 0 <= j < codes.len() implies fixed_terms(infos, codes, PRESSES as int)[j] == freq(j)
            * codes[j].code_str@.len() by {
            fixed_codes_told(ctx, scheme, entries, j);
        }
    }
    assert(fixed_terms(infos, codes, PRESSES as int) =~= Seq::new(
        freqs.len(),
        |j: int| freqs[j] * keys[j].len(),
    ));
    assert(fixed_terms(infos, codes, COVERED as int) =~= Seq::new(codes.len(), |j: int| freq(j) as int));
    let by_key = Seq::new(
        31,
        |k: int| sum(Seq::new(freqs.len(), |j: int| freqs[j] * key_count(keys[j], k))),
    );
    assert(Seq::new(31, |k: int| ctx.fixed_key_usage@[k] as int) =~= by_key) by {
        assert forall|k: int| 0 <= k < 31 implies ctx.fixed_key_usage@[k] as int == by_key[k] by {
            let x = ctx.fixed_key_usage@[k];
            assert(fixed_terms(infos, codes, k) =~= Seq::new(
                freqs.len(),
                |j: int| freqs[j] * key_count(keys[j], k),
            ));
        }
    }
}

} // verus!
