//! What single calls return, told by what they are given.

use vstd::arithmetic::power::pow;
use vstd::prelude::*;

use crate::annealing::{has_simple, Annealer};
use crate::builder::built;
use crate::checkpoint::check_version;
use crate::climb::simple_on;
use crate::codes::encode;
use crate::conflicts::find_groups_on_key;
use crate::context::OptContext;
use crate::evaluator::{differ_in_simple, same_usage, Evaluator};
use crate::full_laws::{
    collisions_are_those_behind, full_code_digits, goes_before, key_cells, keys_of_parts,
    strokes_of_full_codes,
};
use crate::order::SortKey;
use crate::room_laws::{
    choices_told, commit_choices, fixed_at, fixed_with, handed_out, left_out_after, short_code_fits,
    short_keys, taken_up,
};
use crate::scheme::Scheme;
use crate::simple_laws::{core_of, may_have, steps_of};
use crate::simple_select::Env;
use crate::sums::{sum, sum_nonnegative};
use crate::tie_laws::simple_codes_of_group;
use crate::totals::PRESSES;
use crate::types::SimpleAssignMode;

verus! {

/// The frequency of a character times the strokes that its simple code at a level saves: the parts of the
/// full code less the keys of the simple code with its commit key, and one more where the character is not
/// shown first.
pub open spec fn saves(ctx: &OptContext, first: Seq<bool>, li: int, ci: int) -> int {
    ctx.char_infos@[ci].frequency * (ctx.char_infos@[ci].parts@.len() - steps_of(ctx, ci, li).len() - (
    if ctx.simple_config.levels@[li].commit_keys@.len() > 0 {
        1int
    } else {
        0
    }) + (if first[ci] {
        0int
    } else {
        1
    }))
}

/// The sort keys of two who may have a simple code at a level put first the one whose code saves more,
/// weighted by frequency, or, where that does not count or is the same, the more frequent one; the earlier
/// one where both are as frequent.
pub proof fn sort_keys_told(env: &Env, li: usize, ci: usize, cj: usize, k: SortKey, l: SortKey)
    requires
        env.wf(),
        li < env.ctx.simple_config.levels@.len(),
        ci < env.ctx.char_infos@.len(),
        cj < env.ctx.char_infos@.len(),
        may_have(env.ctx, ci as int, li as int),
        may_have(env.ctx, cj as int, li as int),
        call_ensures(Env::bucket_sort_key, (env, li, ci), k),
        call_ensures(Env::bucket_sort_key, (env, li, cj), l),
    ensures
        env.ctx.simple_assign_mode == SimpleAssignMode::Efficiency ==> (k.before(l) <==> {
            let (x, y) = (
                saves(env.ctx, env.first@, li as int, ci as int),
                saves(env.ctx, env.first@, li as int, cj as int),
            );
            x > y || (x == y && goes_before(env.ctx.char_infos@, ci as int, cj as int))
        }),
        env.ctx.simple_assign_mode == SimpleAssignMode::Frequency ==> (k.before(l) <==> goes_before(
            env.ctx.char_infos@,
            ci as int,
            cj as int,
        )),
{
    weighed(env, li as int, ci as int);
    weighed(env, li as int, cj as int);
}

/// The weight behind a sort key.
proof fn weighed(env: &Env, li: int, ci: int)
    requires
        env.wf(),
        0 <= li < env.ctx.n_levels(),
        0 <= ci < env.ctx.n(),
        may_have(env.ctx, ci, li),
    ensures
        env.ctx.simple_assign_mode == SimpleAssignMode::Efficiency ==> env.rank_key(li, ci).major == -saves(
            env.ctx,
            env.first@,
            li,
            ci,
        ),
        env.ctx.simple_assign_mode == SimpleAssignMode::Frequency ==> env.rank_key(li, ci).major
            == -(env.ctx.char_infos@[ci].frequency as int),
        env.rank_key(li, ci).minor == -(env.ctx.char_infos@[ci].frequency as int),
        env.rank_key(li, ci).id == ci,
{
    let ctx = env.ctx;
    let info = ctx.char_infos@[ci];
    let steps = steps_of(ctx, ci, li);
    assert(ctx.instructions(ci, li) == Some(steps));
    let f = info.frequency as int;
    let w = ctx.parts(ci).len() - steps.len();
    assert(0 <= w <= 6);
    assert(forall|x: int| -1 <= x <= 7 ==> -0x1_0000_0000_0000_0000_0 <= #[trigger] (f * x)
        <= 0x1_0000_0000_0000_0000_0) by (nonlinear_arith)
        requires
            0 <= f <= 0x1_0000_0000_0000_0000,
    ;
    assert(ctx.saving(ci, li) == w - if ctx.simple_config.levels@[li].commit_keys@.len() > 0 {
        1int
    } else {
        0
    });
}

/// A full code has a digit in base 32 for each part of the character, its key plus one.
pub proof fn full_codes_told(ctx: &OptContext, ci: usize, a: &[u8], code: u32)
    requires
        ctx.wf_full(),
        ctx.assigns(a@),
        ci < ctx.char_infos@.len(),
        call_ensures(OptContext::calc_code_only, (ctx, ci, a), code),
    ensures
        ({
            let keys = keys_of_parts(ctx.char_infos@[ci as int].parts@, a@);
            &&& code < pow(32, keys.len())
            &&& forall|i: int|
                #![trigger keys[i]]
                0 <= i < keys.len() ==> (code as int / pow(32, (keys.len() - 1 - i) as nat)) % 32 == keys[i] + 1
        }),
{
    let keys = keys_of_parts(ctx.char_infos@[ci as int].parts@, a@);
    crate::full_laws::full_keys_by_parts(ctx, a@, ci as int);
    let info = ctx.char_infos@[ci as int];
    crate::codes::part_keys_are_keys(ctx.parts(ci as int), a@);
    crate::codes::encode_bound(keys);
    vstd::arithmetic::power::lemma_pow_positive(32, keys.len());
    assert forall|i: int| #![trigger keys[i]] 0 <= i < keys.len() implies (code as int / pow(
        32,
        (keys.len() - 1 - i) as nat,
    )) % 32 == keys[i] + 1 by {
        crate::full_laws::digits_of_code(keys, i);
    }
}

/// The state of an assignment has its full codes, as many collisions as there are characters beyond the
/// number of different codes, and as many key strokes as all keys together, which is one for each part of
/// each character.
pub proof fn states_told(ctx: &OptContext, a: &[u8], e: Evaluator)
    requires
        ctx.wf_full(),
        ctx.wf_simple(),
        ctx.assigns(a@),
        call_ensures(Evaluator::new, (ctx, a), e),
    ensures
        e.full.current_codes@.len() == ctx.char_infos@.len(),
        e.full.total_collisions == ctx.char_infos@.len() - e.full.current_codes@.to_set().len(),
        e.key_weighted_usage.cells@[PRESSES as int] == sum(key_cells(e.key_weighted_usage.cells@)),
        e.key_weighted_usage.cells@[PRESSES as int] == sum(
            Seq::new(
                ctx.char_infos@.len(),
                |ci: int| ctx.char_infos@[ci].frequency * ctx.char_infos@[ci].parts@.len(),
            ),
        ),
        forall|ci: int|
            0 <= ci < ctx.char_infos@.len() ==> (#[trigger] e.full.current_codes@[ci]) < pow(
                32,
                ctx.char_infos@[ci].parts@.len(),
            ),
        e.simple_eval is Some <==> ctx.enable_simple_code && ctx.simple_config.levels@.len() > 0,
        e.simple_eval matches Some(s) ==> s.at@ == a@ && !s.output_scope,
{
    collisions_are_those_behind(ctx, a@, &e);
    strokes_of_full_codes(ctx, a@, &e);
    assert forall|ci: int| 0 <= ci < ctx.char_infos@.len() implies (#[trigger] e.full.current_codes@[ci]) < pow(
        32,
        ctx.char_infos@[ci].parts@.len(),
    ) by {
        full_code_digits(ctx, a@, &e, ci);
    }
}

/// The state for the output is that of all candidates of the output, and the one with full codes alone has
/// no simple codes; the full codes, the collisions and the key strokes are the same.
pub proof fn kinds_of_states(ctx: &OptContext, a: &[u8], e: Evaluator, out: Evaluator, full: Evaluator)
    requires
        ctx.wf_full(),
        ctx.wf_simple(),
        ctx.assigns(a@),
        call_ensures(Evaluator::new, (ctx, a), e),
        call_ensures(Evaluator::new_output_scope, (ctx, a), out),
        call_ensures(Evaluator::new_full_only, (ctx, a), full),
    ensures
        full.simple_eval is None,
        out.simple_eval is Some <==> e.simple_eval is Some,
        out.simple_eval matches Some(s) ==> s.at@ == a@ && s.output_scope,
        e.full.current_codes@ == out.full.current_codes@,
        e.full.current_codes@ == full.full.current_codes@,
        e.full.total_collisions == out.full.total_collisions,
        e.full.total_collisions == full.full.total_collisions,
        e.full.collision_frequency == out.full.collision_frequency,
        e.full.collision_frequency == full.full.collision_frequency,
        e.key_weighted_usage.cells@ == out.key_weighted_usage.cells@,
        e.key_weighted_usage.cells@ == full.key_weighted_usage.cells@,
{
    collisions_are_those_behind(ctx, a@, &e);
    collisions_are_those_behind(ctx, a@, &out);
    collisions_are_those_behind(ctx, a@, &full);
    same_usage(ctx, a@, e.key_weighted_usage, out.key_weighted_usage);
    same_usage(ctx, a@, e.key_weighted_usage, full.key_weighted_usage);
}

/// Where simple codes are kept up to date, a group without a say in them can be moved without changing any;
/// a group with a say has a part in the simple codes of somebody.
pub proof fn impact_told(
    ctx: &OptContext,
    scheme: Scheme,
    entries: Seq<(char, String)>,
    e: &Evaluator,
    g: usize,
    r: bool,
    ci: int,
    li: int,
    a: Seq<u8>,
    k: u8,
)
    requires
        ctx.wf_full(),
        ctx.wf_simple(),
        built(ctx, scheme, entries),
        scheme.enable_simple_code,
        e.simple_eval is Some,
        e.simple_active,
        a.len() == ctx.groups@.len(),
        g < ctx.groups@.len(),
        0 <= ci < ctx.char_simple_infos@.len(),
        0 <= li < ctx.simple_config.levels@.len(),
        may_have(ctx, ci, li),
        call_ensures(Evaluator::has_simple_impact, (e, ctx, g), r),
    ensures
        !r ==> core_of(ctx, a.update(g as int, k), ci, li) == core_of(ctx, a, ci, li),
        r <==> ctx.group_to_simple_affected@[g as int]@.len() > 0,
{
    simple_codes_of_group(ctx, scheme, entries, g as int, ci, li, a, k);
}

/// Two assignments differ for simple codes only where a group that is on different keys has a part in
/// somebody's; it does not matter which of them comes first, and none differs from itself.
pub proof fn differing_told(ctx: &OptContext, a: &[u8], b: &[u8], r: bool, back: bool, own: bool)
    requires
        ctx.wf_simple(),
        a@.len() == ctx.groups@.len(),
        b@.len() == ctx.groups@.len(),
        call_ensures(differ_in_simple, (ctx, a, b), r),
        call_ensures(differ_in_simple, (ctx, b, a), back),
        call_ensures(differ_in_simple, (ctx, a, a), own),
    ensures
        r == back,
        !own,
        r ==> exists|g: int|
            0 <= g < ctx.groups@.len() && a@[g] != b@[g] && (
            #[trigger] ctx.group_to_simple_affected@[g])@.len() > 0,
        !r ==> forall|g: int|
            0 <= g < ctx.groups@.len() && a@[g] != b@[g] ==> (
            #[trigger] ctx.group_to_simple_affected@[g])@.len() == 0,
{
    if r {
        let g = choose|g: int|
            0 <= g < ctx.num_groups() && a@[g] != b@[g] && (
            #[trigger] ctx.group_to_simple_affected@[g])@.len() > 0;
        let x = ctx.group_to_simple_affected@[g];
    }
    if back {
        let g = choose|g: int|
            0 <= g < ctx.num_groups() && b@[g] != a@[g] && (
            #[trigger] ctx.group_to_simple_affected@[g])@.len() > 0;
        let x = ctx.group_to_simple_affected@[g];
    }
}

/// The fixed codes that take up a code of a level, all of them and those with a commit key, are those
/// that count for the level with its keys.
pub proof fn occupancy_told(
    ctx: &OptContext,
    scheme: Scheme,
    entries: Seq<(char, String)>,
    li: usize,
    core: Seq<u8>,
    k: u8,
    total: usize,
    count: u32,
)
    requires
        ctx.wf_full(),
        ctx.wf_simple(),
        built(ctx, scheme, entries),
        li < ctx.simple_config.levels@.len(),
        short_keys(core),
        k < 31,
        call_ensures(OptContext::simple_fixed_occ_total, (ctx, li, encode(core) as u32), total),
        call_ensures(OptContext::simple_fixed_occ_key, (ctx, li, encode(core) as u32, k), count),
    ensures
        total == sum(fixed_at(ctx.simple_fixed_codes@, li as int, core)),
        count == sum(fixed_with(ctx.simple_fixed_codes@, li as int, core, k)),
{
    taken_up(ctx, scheme, entries, li as int, core, k);
}

/// The places that a level without commit keys has left for a code are those that its fixed codes do not
/// take up. There are none where there is no such level.
pub proof fn slots_told(
    ctx: &OptContext,
    scheme: Scheme,
    entries: Seq<(char, String)>,
    li: usize,
    core: Seq<u8>,
    slots: usize,
)
    requires
        ctx.wf_full(),
        ctx.wf_simple(),
        built(ctx, scheme, entries),
        short_keys(core),
        call_ensures(OptContext::simple_annealing_slots, (ctx, li, encode(core) as u32), slots),
    ensures
        li >= ctx.simple_config.levels@.len() ==> slots == 0,
        li < ctx.simple_config.levels@.len() && ctx.simple_config.levels@[li as int].commit_keys@.len() == 0 ==> {
            let fixed = sum(fixed_at(ctx.simple_fixed_codes@, li as int, core));
            let most = ctx.simple_config.levels@[li as int].code_num;
            &&& fixed <= most ==> slots + fixed == most
            &&& fixed >= most ==> slots == 0
        },
{
    if li < ctx.simple_config.levels@.len() {
        taken_up(ctx, scheme, entries, li as int, core, 0);
    }
}

/// The places that a level with commit keys has left for a code with one of them are those that its fixed
/// codes do not take up, and none where the key is left out: as often is the key handed out to those who
/// share the code, whatever their number.
pub proof fn commit_slots_told(
    ctx: &OptContext,
    scheme: Scheme,
    entries: Seq<(char, String)>,
    li: usize,
    core: Seq<u8>,
    k: u8,
    slots: usize,
    handed: Seq<Option<u8>>,
)
    requires
        ctx.wf_full(),
        ctx.wf_simple(),
        built(ctx, scheme, entries),
        li < ctx.simple_config.levels@.len(),
        ctx.simple_config.levels@[li as int].commit_keys@.len() > 0,
        short_keys(core),
        commit_choices(ctx, li as int, core).no_duplicates(),
        commit_choices(ctx, li as int, core).contains(k),
        call_ensures(OptContext::simple_annealing_slots, (ctx, li, encode(core) as u32), slots),
        handed.len() == slots,
        forall|rank: usize|
            rank < slots ==> call_ensures(
                OptContext::commit_key_for_rank,
                (ctx, li, encode(core) as u32, rank),
                #[trigger] handed[rank as int],
            ),
    ensures
        forall|rank: int| 0 <= rank < slots ==> #[trigger] handed[rank] is Some,
        ({
            let times = sum(Seq::new(slots as nat, |rank: int| if handed[rank] == Some(k) { 1int } else { 0 }));
            let fixed = sum(fixed_with(ctx.simple_fixed_codes@, li as int, core, k));
            let most = ctx.simple_config.levels@[li as int].code_num;
            &&& left_out_after(ctx, li as int, core, k) ==> times == 0
            &&& !left_out_after(ctx, li as int, core, k) && fixed <= most ==> times + fixed == most
            &&& fixed >= most ==> times == 0
        }),
{
    let code = encode(core) as u32;
    let l = li as int;
    short_code_fits(core);
    choices_told(ctx, l, core, k);
    taken_up(ctx, scheme, entries, l, core, k);
    let rounds = ctx.simple_config.levels@[l].code_num as nat;
    let seq = ctx.commit_sequence(l, code, rounds);
    ctx.commit_keys_match_slots(l, code);
    handed_out(ctx, l, code, rounds, k);
    sum_nonnegative(fixed_with(ctx.simple_fixed_codes@, l, core, k));
    assert forall|rank: int| 0 <= rank < slots implies #[trigger] handed[rank] == Some(seq[rank]) by {
        let r = rank as usize;
        assert(call_ensures(OptContext::commit_key_for_rank, (ctx, li, code, r), handed[r as int]));
    }
    crate::room_laws::key_count_of_front(seq, slots as nat, k);
    assert(Seq::new(slots as nat, |rank: int| if handed[rank] == Some(k) { 1int } else { 0 }) =~= Seq::new(
        slots as nat,
        |i: int| if i < seq.len() && seq[i] == k { 1int } else { 0 },
    ));
}

/// The best assignment is priced with simple codes exactly if they are optimised and there is a level. So
/// is a climb, unless they are left out.
pub proof fn simple_codes_counted(run: &Annealer, ctx: &OptContext, e: Evaluator)
    requires
        ctx.wf_full(),
        ctx.wf_simple(),
        run.inv(ctx),
        call_ensures(Annealer::best_state, (run, ctx), e),
    ensures
        e.simple_active <==> ctx.enable_simple_code && ctx.simple_config.levels@.len() > 0,
        has_simple(ctx) == e.simple_active,
        simple_on(ctx, false) == e.simple_active,
        !simple_on(ctx, true),
        e.in_step(ctx, run.best_assignment@),
{
}

/// The groups on a key are named each once, in their order.
pub proof fn groups_on_key_told(ctx: &OptContext, a: &[u8], key: u8, r: Vec<usize>, g: usize)
    requires
        a@.len() == ctx.groups@.len(),
        call_ensures(find_groups_on_key, (ctx, a, key), r),
        g < a@.len(),
    ensures
        r@.contains(g) <==> a@[g as int] == key,
        forall|i: int, j: int| #![trigger r@[i], r@[j]] 0 <= i < j < r@.len() ==> r@[i] < r@[j],
{
    let p = |h: int| a@[h] == key;
    assert(crate::context::lists_ascending(r@, ctx.num_groups(), p));
    if r@.contains(g) {
        let i = r@.index_of(g);
        assert(p(r@[i] as int));
    }
    if a@[g as int] == key {
        assert(p(g as int));
    }
}

/// There is one version that can be read, and any other is named in the error.
pub proof fn versions_told(v: u32, w: u32, r: Result<(), u32>, q: Result<(), u32>)
    requires
        call_ensures(check_version, (v,), r),
        call_ensures(check_version, (w,), q),
    ensures
        r is Ok && q is Ok ==> v == w,
        r is Err ==> r->Err_0 == v,
        v == 1 ==> r is Ok,
{
}

} // verus!
