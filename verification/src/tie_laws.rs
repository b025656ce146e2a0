//! Which characters a group has to do with, and how large the tables have to be, told part by part.

use vstd::arithmetic::power::pow;
use vstd::prelude::*;

use crate::builder::{
    built, built_candidates, built_fixed, covered, covering, covering_is_least, lesser, longest_steps,
    picks, rules_pick, steps_at, steps_pick, tied,
};
use crate::context::OptContext;
use crate::full_laws::keys_of_parts;
use crate::scheme::Scheme;
use crate::scheme_laws::{frequency_before, sum_over_list, who_covers};
use crate::simple_laws::{core_of, may_have, steps_of};
use crate::sums::{sum, sum_zero};
use crate::types::{CharSimpleInfo, GROUP_MARKER};

verus! {

/// A group names the characters that have a part of it, each once and in their order. Moving the group
/// changes the full codes of no others.
pub proof fn characters_of_group(ctx: &OptContext, g: int, ci: int, a: Seq<u8>, k: u8)
    requires
        ctx.wf_full(),
        a.len() == ctx.groups@.len(),
        0 <= g < ctx.groups@.len(),
        0 <= ci < ctx.char_infos@.len(),
    ensures
        ({
            let list = ctx.group_to_chars@[g]@;
            let parts = ctx.char_infos@[ci].parts@;
            &&& list.contains(ci as usize) <==> parts.contains((GROUP_MARKER + g) as u16)
            &&& forall|i: int, j: int| #![trigger list[i], list[j]] 0 <= i < j < list.len() ==> list[i] < list[j]
            &&& !list.contains(ci as usize) ==> keys_of_parts(parts, a.update(g, k)) == keys_of_parts(parts, a)
        }),
{
    let list = ctx.group_to_chars@[g]@;
    let parts = ctx.char_infos@[ci].parts@;
    let p = |ci: int| crate::codes::mentions(ctx.parts(ci), g);
    assert(crate::context::lists_ascending(list, ctx.n(), p));
    if list.contains(ci as usize) {
        let i = list.index_of(ci as usize);
        assert(p(list[i] as int));
        let j = choose|j: int|
            0 <= j < parts.len() && crate::codes::part_group(#[trigger] ctx.parts(ci)[j]) == Some(g);
        assert(parts[j] == (GROUP_MARKER + g) as u16);
    }
    if parts.contains((GROUP_MARKER + g) as u16) {
        let j = parts.index_of((GROUP_MARKER + g) as u16);
        assert(crate::codes::part_group(ctx.parts(ci)[j]) == Some(g));
        assert(p(ci));
    } else {
        let info = ctx.char_infos@[ci];
        same_keys(parts, a, g, k);
    }
}

/// Parts that do not stand for a group keep their keys when it moves.
proof fn same_keys(parts: Seq<u16>, a: Seq<u8>, g: int, k: u8)
    requires
        crate::codes::parts_ok(parts, a.len()),
        GROUP_MARKER + a.len() <= 65536,
        0 <= g < a.len(),
        !parts.contains((GROUP_MARKER + g) as u16),
    ensures
        keys_of_parts(parts, a.update(g, k)) == keys_of_parts(parts, a),
{
    let (x, y) = (keys_of_parts(parts, a.update(g, k)), keys_of_parts(parts, a));
    assert forall|i: int| 0 <= i < parts.len() implies x[i] == y[i] by {
        let p = parts[i];
        assert(parts.contains(p));
        assert(crate::codes::part_ok(parts[i], a.len()));
        if p >= GROUP_MARKER {
            assert(p - GROUP_MARKER != g);
        }
    }
    assert(x =~= y);
}

/// Whether one of the instructions names a part of a group.
pub open spec fn steps_name(info: CharSimpleInfo, steps: Seq<(usize, usize)>, g: int) -> bool {
    exists|i: int|
        #![trigger steps[i]]
        {
            &&& 0 <= i < steps.len()
            &&& steps[i].0 < info.logical_roots@.len()
            &&& steps[i].1 < info.logical_roots@[steps[i].0 as int].full_code_parts@.len()
            &&& info.logical_roots@[steps[i].0 as int].full_code_parts@[steps[i].1 as int] == GROUP_MARKER + g
        }
}

proof fn steps_named(info: CharSimpleInfo, steps: Seq<(usize, usize)>, g: int)
    requires
        0 <= g,
    ensures
        steps_pick(info, steps, g) <==> steps_name(info, steps, g),
{
    if steps_pick(info, steps, g) {
        let i = choose|i: int| 0 <= i < steps.len() && picks(info, #[trigger] steps[i], g);
        let x = steps[i];
    }
    if steps_name(info, steps, g) {
        let i = choose|i: int|
            #![trigger steps[i]]
            {
                &&& 0 <= i < steps.len()
                &&& steps[i].0 < info.logical_roots@.len()
                &&& steps[i].1 < info.logical_roots@[steps[i].0 as int].full_code_parts@.len()
                &&& info.logical_roots@[steps[i].0 as int].full_code_parts@[steps[i].1 as int] == GROUP_MARKER + g
            };
        assert(picks(info, steps[i], g));
    }
}

/// A character is tied to a group exactly if the instructions of a level, or those of a rule, name a part
/// of the group.
proof fn ties_named(ctx: &OptContext, rules: Seq<Vec<(usize, usize)>>, ci: int, g: int)
    requires
        0 <= g,
    ensures
        tied(ctx.char_simple_infos@[ci], rules, ctx.simple_config.levels@.len(), g) <==> {
            ||| exists|r: int|
                #![trigger rules[r]]
                0 <= r < rules.len() && steps_name(ctx.char_simple_infos@[ci], rules[r]@, g)
            ||| exists|li: int|
                0 <= li < ctx.simple_config.levels@.len() && #[trigger] steps_name(
                    ctx.char_simple_infos@[ci],
                    steps_of(ctx, ci, li),
                    g,
                )
        },
{
    let info = ctx.char_simple_infos@[ci];
    let n = ctx.simple_config.levels@.len();
    assert forall|r: int| #![trigger rules[r]] 0 <= r < rules.len() implies (steps_pick(info, rules[r]@, g)
        <==> steps_name(info, rules[r]@, g)) by {
        steps_named(info, rules[r]@, g);
    }
    assert forall|li: int| 0 <= li < n implies (steps_pick(info, steps_of(ctx, ci, li), g)
        <==> #[trigger] steps_name(info, steps_of(ctx, ci, li), g)) by {
        steps_named(info, steps_of(ctx, ci, li), g);
    }
    if rules_pick(info, rules, g) {
        let r = choose|r: int| 0 <= r < rules.len() && steps_pick(info, (#[trigger] rules[r])@, g);
        assert(steps_name(info, rules[r]@, g));
    }
    if crate::builder::levels_pick(info, n, g) {
        let li = choose|li: int|
            0 <= li < n && li < info.level_instructions@.len() && (
            #[trigger] info.level_instructions@[li] matches Some(steps) && steps_pick(info, steps@, g));
        let row = info.level_instructions@[li];
        assert(steps_name(info, steps_of(ctx, ci, li), g));
    }
    if exists|r: int| #![trigger rules[r]] 0 <= r < rules.len() && steps_name(info, rules[r]@, g) {
        let r = choose|r: int| #![trigger rules[r]] 0 <= r < rules.len() && steps_name(info, rules[r]@, g);
        assert(steps_pick(info, rules[r]@, g));
    }
    if exists|li: int| 0 <= li < n && #[trigger] steps_name(info, steps_of(ctx, ci, li), g) {
        let li = choose|li: int| 0 <= li < n && #[trigger] steps_name(info, steps_of(ctx, ci, li), g);
        assert(steps_pick(info, steps_of(ctx, ci, li), g));
        let i = choose|i: int|
            0 <= i < steps_of(ctx, ci, li).len() && picks(info, #[trigger] steps_of(ctx, ci, li)[i], g);
        let row = info.level_instructions@[li];
        assert(row is Some);
    }
}

/// Where simple codes are optimised, a group names the characters whose instructions, or rules that they
/// can follow, pick a part of it, each once and in their order; and beside them the candidates among
/// these. Moving the group changes the simple codes of no others.
pub proof fn simple_codes_of_group(
    ctx: &OptContext,
    scheme: Scheme,
    entries: Seq<(char, String)>,
    g: int,
    ci: int,
    li: int,
    a: Seq<u8>,
    k: u8,
)
    requires
        ctx.wf_full(),
        ctx.wf_simple(),
        built(ctx, scheme, entries),
        scheme.enable_simple_code,
        a.len() == ctx.groups@.len(),
        0 <= g < ctx.groups@.len(),
        0 <= ci < ctx.char_simple_infos@.len(),
        0 <= li < ctx.simple_config.levels@.len(),
    ensures
        ({
            let list = ctx.group_to_simple_affected@[g]@;
            let some = ctx.group_to_simple_affected_candidate@[g]@;
            let info = ctx.char_simple_infos@[ci];
            let rules = scheme.resolved_rules@[ci]@;
            &&& list.contains(ci as usize) <==> {
                ||| exists|r: int| #![trigger rules[r]] 0 <= r < rules.len() && steps_name(info, rules[r]@, g)
                ||| exists|lj: int|
                    0 <= lj < ctx.simple_config.levels@.len() && #[trigger] steps_name(
                        info,
                        steps_of(ctx, ci, lj),
                        g,
                    )
            }
            &&& some.contains(ci as usize) <==> list.contains(ci as usize) && ctx.simple_is_candidate@[ci]
            &&& forall|i: int, j: int| #![trigger list[i], list[j]] 0 <= i < j < list.len() ==> list[i] < list[j]
            &&& forall|i: int, j: int| #![trigger some[i], some[j]] 0 <= i < j < some.len() ==> some[i] < some[j]
            &&& !list.contains(ci as usize) && may_have(ctx, ci, li) ==> core_of(ctx, a.update(g, k), ci, li)
                == core_of(ctx, a, ci, li)
        }),
{
    let list = ctx.group_to_simple_affected@[g]@;
    let some = ctx.group_to_simple_affected_candidate@[g]@;
    let infos = ctx.char_simple_infos@;
    let all = scheme.resolved_rules@;
    let n = ctx.simple_config.levels@.len();
    let p = |ci: int| tied(infos[ci], all[ci]@, n, g);
    let q = |ci: int| tied(infos[ci], all[ci]@, n, g) && ctx.simple_is_candidate@[ci];
    assert(crate::context::lists_ascending(list, infos.len(), p));
    assert(crate::context::lists_ascending(some, infos.len(), q));
    ties_named(ctx, all[ci]@, ci, g);
    assert(infos.len() <= usize::MAX);
    if list.contains(ci as usize) {
        let i = list.index_of(ci as usize);
        assert(p(list[i] as int));
    }
    if some.contains(ci as usize) {
        let i = some.index_of(ci as usize);
        assert(q(some[i] as int));
    }
    if p(ci) {
        if ctx.simple_is_candidate@[ci] {
            assert(q(ci));
        }
    } else {
        let info = infos[ci];
        let steps = steps_of(ctx, ci, li);
        let roots = info.logical_roots@;
        assert(!steps_name(info, steps, g));
        let parts = steps.map_values(
            |step: (usize, usize)| roots[step.0 as int].full_code_parts@[step.1 as int],
        );
        if may_have(ctx, ci, li) {
            assert forall|i: int| 0 <= i < parts.len() implies crate::codes::part_ok(#[trigger] parts[i], a.len())
                && parts[i] != (GROUP_MARKER + g) as u16 by {
                let step = steps[i];
                instructed(ctx, ci, li, i);
                let root = ctx.char_simple_infos@[ci].logical_roots@[step.0 as int];
                assert(root.full_code_parts@[step.1 as int] == parts[i]);
            }
            same_keys(parts, a, g, k);
        }
    }
}

/// Instructions name parts that there are.
proof fn instructed(ctx: &OptContext, ci: int, li: int, i: int)
    requires
        ctx.wf_simple(),
        0 <= ci < ctx.char_simple_infos@.len(),
        0 <= li < ctx.simple_config.levels@.len(),
        0 <= i < steps_of(ctx, ci, li).len(),
    ensures
        ({
            let step = steps_of(ctx, ci, li)[i];
            step.0 < ctx.char_simple_infos@[ci].logical_roots@.len()
        }),
{
    let row = ctx.instructions(ci, li);
    assert(row == Some(steps_of(ctx, ci, li)));
}

/// Full codes and the simple codes of a level are told apart by tables as large as the number of keys and
/// one to the power of the longest of them.
pub proof fn table_sizes_told(ctx: &OptContext, scheme: Scheme, entries: Seq<(char, String)>, li: int)
    requires
        ctx.wf_full(),
        ctx.wf_simple(),
        built(ctx, scheme, entries),
        scheme.enable_simple_code,
        0 <= li < ctx.simple_config.levels@.len(),
    ensures
        ctx.code_space == pow(32, ctx.max_parts as nat),
        forall|i: int| 0 <= i <= ctx.max_parts ==> #[trigger] ctx.code_base_powers@[i] == pow(32, i as nat),
        exists|len: nat|
            {
                &&& ctx.simple_level_capacity@[li] == #[trigger] pow(32, len)
                &&& forall|ci: int|
                    0 <= ci < ctx.char_simple_infos@.len() ==> #[trigger] steps_of(ctx, ci, li).len() <= len
                &&& len == 0 || exists|ci: int|
                    0 <= ci < ctx.char_simple_infos@.len() && #[trigger] steps_of(ctx, ci, li).len() == len
            },
{
    vstd::arithmetic::power::lemma_pow_positive(32, ctx.max_parts as nat);
    assert forall|i: int| 0 <= i <= ctx.max_parts implies #[trigger] ctx.code_base_powers@[i] == pow(
        32,
        i as nat,
    ) by {
        vstd::arithmetic::power::lemma_pow_positive(32, i as nat);
    }
    let lens = choose|lens: Seq<usize>| #[trigger] built_fixed(ctx, scheme, lens, entries);
    let len = lens[li] as nat;
    vstd::arithmetic::power::lemma_pow_positive(32, len);
    longest_told(ctx, li, ctx.char_simple_infos@.len());
    assert(ctx.simple_level_capacity@[li] == pow(32, len));
}

/// The longest of the simple codes of a level is as long as one of them, and none is longer.
proof fn longest_told(ctx: &OptContext, li: int, k: nat)
    requires
        k <= ctx.char_simple_infos@.len(),
    ensures
        ({
            let len = longest_steps(ctx.char_simple_infos@, li, k);
            &&& forall|ci: int| 0 <= ci < k ==> #[trigger] steps_of(ctx, ci, li).len() <= len
            &&& len == 0 || exists|ci: int| 0 <= ci < k && #[trigger] steps_of(ctx, ci, li).len() == len
        }),
    decreases k,
{
    if k > 0 {
        longest_told(ctx, li, (k - 1) as nat);
        assert(steps_at(ctx.char_simple_infos@[k - 1], li) == steps_of(ctx, k - 1, li).len());
    }
}

/// What each character adds to the frequency that the candidates of the search cover.
pub open spec fn covered_by_search(ctx: &OptContext, scheme: Scheme) -> Seq<int> {
    Seq::new(
        ctx.char_infos@.len(),
        |ci: int|
            if scheme.enable_simple_code && (scheme.output_coverage matches Some(t) ==> frequency_before(
                ctx.char_infos@,
                ci,
            ) < t) && (scheme.active_coverage matches Some(t) ==> frequency_before(ctx.char_infos@, ci) < t) {
                ctx.char_infos@[ci].frequency as int
            } else {
                0
            },
    )
}

/// The frequency to be covered in the search is that of the characters with too little frequency before
/// them, those with fixed codes counted too; none where simple codes are not optimised.
pub proof fn active_frequency_told(ctx: &OptContext, scheme: Scheme, entries: Seq<(char, String)>)
    requires
        ctx.wf_full(),
        ctx.wf_simple(),
        built(ctx, scheme, entries),
    ensures
        ctx.simple_active_frequency == sum(covered_by_search(ctx, scheme)),
{
    let infos = ctx.char_infos@;
    let g = covered_by_search(ctx, scheme);
    let order = choose|order: Seq<usize>| #[trigger] built_candidates(ctx, scheme, order);
    let asked = lesser(scheme.active_coverage, scheme.output_coverage);
    let list = covering(infos, order, asked);
    let freqs = Seq::new(infos.len(), |cj: int| infos[cj].frequency as int);
    covering_is_least(infos, order, asked, 0);
    if !scheme.enable_simple_code {
        sum_zero(g);
    } else {
        assert forall|ci: int| 0 <= ci < g.len() && #[trigger] g[ci] != 0 implies list.contains(ci as usize) by {
            who_covers(infos, order, asked, ci);
            crate::sums::sum_nonnegative(freqs);
            crate::sums::sum_at_least(freqs, ci);
            assert(freqs[ci] > 0);
        }
        assert(list.no_duplicates()) by {
            assert forall|i: int, j: int| 0 <= i < list.len() && 0 <= j < list.len() && i != j implies list[i]
                != list[j] by {
                let (x, y) = (order[i], order[j]);
            }
        }
        assert forall|j: int| 0 <= j < list.len() implies (#[trigger] list[j]) < g.len() by {
            let x = order[j];
        }
        sum_over_list(list, g);
        let picked = Seq::new(list.len(), |j: int| g[list[j] as int]);
        let summed = Seq::new(list.len() as int as nat, |i: int| infos[list[i] as int].frequency as int);
        assert(picked =~= summed) by {
            assert forall|j: int| 0 <= j < list.len() implies picked[j] == summed[j] by {
                let x = list[j];
                assert(list.contains(x));
                who_covers(infos, order, asked, x as int);
            }
        }
        assert(covered(infos, list, list.len() as int) == sum(summed));
    }
}

} // verus!
