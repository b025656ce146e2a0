//! What simple codes are, told by the instructions, the assignment and the frequencies alone: who may
//! have one, with which keys, who gets it of those who contend, and what all of them add up to.

use vstd::arithmetic::power::{lemma_pow_positive, pow};
use vstd::prelude::*;

use crate::codes::{are_keys, encode};
use crate::context::OptContext;
use crate::full_laws::{
    digits_of_code, full_keys_by_parts, goes_before, key_cells, key_count_occurs, keys_of_parts,
    stands_behind, strokes_are_all_keys, totals_by_behind,
};
use crate::laws::{selected_may_be, selected_outrank};
use crate::listing::lists_selected;
use crate::selection::level_cells;
use crate::simple_evaluator::{terms_for, SimpleEvaluator};
use crate::sums::sum;
use crate::totals::{cell_terms, cell_total, key_count, CELLS, COVERED, PRESSES};
use crate::types::SimpleAssignMode;

verus! {

/// The instructions for a character's simple code at a level, none where there are none.
pub open spec fn steps_of(ctx: &OptContext, ci: int, li: int) -> Seq<(usize, usize)> {
    let rows = ctx.char_simple_infos@[ci].level_instructions@;
    if 0 <= li < rows.len() && rows[li] is Some {
        rows[li]->0@
    } else {
        Seq::empty()
    }
}

/// Whether a character may have a simple code at a level: there are instructions, fewer than the parts
/// of the full code, and each picks a part that there is.
pub open spec fn may_have(ctx: &OptContext, ci: int, li: int) -> bool {
    let steps = steps_of(ctx, ci, li);
    let roots = ctx.char_simple_infos@[ci].logical_roots@;
    &&& ctx.enable_simple_code
    &&& 0 < steps.len() < ctx.char_infos@[ci].parts@.len()
    &&& forall|i: int|
        0 <= i < steps.len() ==> (#[trigger] steps[i]).1 < roots[steps[i].0 as int].full_code_parts@.len()
}

/// The keys of a character's simple code at a level, without a commit key: those that the parts picked
/// stand for, in the order of the instructions.
pub open spec fn core_of(ctx: &OptContext, a: Seq<u8>, ci: int, li: int) -> Seq<u8> {
    let roots = ctx.char_simple_infos@[ci].logical_roots@;
    keys_of_parts(
        steps_of(ctx, ci, li).map_values(
            |step: (usize, usize)| roots[step.0 as int].full_code_parts@[step.1 as int],
        ),
        a,
    )
}

/// Whether a character contends for a simple code at a level: it is a candidate, may have one there,
/// and has none at a lower level.
pub open spec fn contends(ctx: &OptContext, s: &SimpleEvaluator, li: int, ci: int) -> bool {
    &&& if s.output_scope {
        ctx.simple_output_candidate_chars@.contains(ci as usize)
    } else {
        ctx.simple_candidate_chars@.contains(ci as usize)
    }
    &&& may_have(ctx, ci, li)
    &&& forall|lk: int| 0 <= lk < li ==> !(#[trigger] s.sel.levels@[lk]).selected@[ci]
}

/// Codes are different for different keys.
pub(crate) proof fn codes_tell_keys(x: Seq<u8>, y: Seq<u8>)
    requires
        are_keys(x),
        are_keys(y),
        encode(x) == encode(y),
    ensures
        x == y,
    decreases x.len(),
{
    if x.len() == 0 {
        assert(x =~= y);
    } else if y.len() == 0 {
        assert(x =~= y);
    } else {
        let (x1, y1) = (x.drop_last(), y.drop_last());
        assert(are_keys(x1) && are_keys(y1));
        let (p, q) = (x[x.len() - 1], y[y.len() - 1]);
        assert(encode(x1) == encode(y1) && p == q);
        codes_tell_keys(x1, y1);
        assert(x =~= x1.push(x.last()));
        assert(y =~= y1.push(y.last()));
    }
}

/// A simple code is made of the keys that its instructions pick.
pub(crate) proof fn core_told(ctx: &OptContext, a: Seq<u8>, ci: int, li: int)
    requires
        ctx.wf_simple(),
        ctx.assigns(a),
        0 <= ci < ctx.n(),
        0 <= li < ctx.n_levels(),
    ensures
        ctx.encodable(ci, li) <==> may_have(ctx, ci, li),
        may_have(ctx, ci, li) ==> {
            &&& ctx.simple_keys(a, ci, li) == Some(core_of(ctx, a, ci, li))
            &&& are_keys(core_of(ctx, a, ci, li))
            &&& core_of(ctx, a, ci, li).len() == steps_of(ctx, ci, li).len()
            &&& ctx.eligible_code(a, ci, li) == Some(encode(core_of(ctx, a, ci, li)) as u32)
            &&& encode(core_of(ctx, a, ci, li)) as u32 == encode(core_of(ctx, a, ci, li))
        },
{
    let steps = steps_of(ctx, ci, li);
    if ctx.instructions(ci, li) is Some {
        assert(ctx.instructions(ci, li) == Some(steps));
        if may_have(ctx, ci, li) {
            assert forall|i: int| 0 <= i < steps.len() implies ctx.step_in_range(ci, #[trigger] steps[i]) by {}
        }
        if ctx.simple_parts(ci, li) is Some {
            assert forall|i: int| 0 <= i < steps.len() implies (#[trigger] steps[i]).1
                < ctx.char_simple_infos@[ci].logical_roots@[steps[i].0 as int].full_code_parts@.len() by {
                assert(ctx.step_in_range(ci, steps[i]));
            }
            ctx.simple_code_bound(a, ci, li);
            assert(ctx.simple_keys(a, ci, li)->0 =~= core_of(ctx, a, ci, li));
        }
    }
}

/// Who contends at a level, and with which code.
pub(crate) proof fn contenders_told(ctx: &OptContext, s: &SimpleEvaluator, li: int, ci: int)
    requires
        ctx.wf_full(),
        ctx.wf_simple(),
        s.inv(ctx),
        0 <= li < ctx.n_levels(),
        0 <= ci < ctx.n(),
    ensures
        s.sel@.levels[li] == s.sel.levels@[li]@,
        s.sel@.levels[li].codes[ci] is Some <==> contends(ctx, s, li, ci),
        contends(ctx, s, li, ci) ==> {
            let core = core_of(ctx, s.at@, ci, li);
            &&& s.sel@.levels[li].codes[ci] == Some(encode(core) as u32)
            &&& encode(core) as u32 == encode(core)
            &&& are_keys(core)
            &&& ctx.simple_keys(s.at@, ci, li) == Some(core)
            &&& core.len() == steps_of(ctx, ci, li).len()
        },
{
    core_told(ctx, s.at@, ci, li);
    let levels = s.sel@.levels;
    let x = levels[li].codes[ci];
    assert(crate::incremental::reached(levels, li, ci) <==> forall|lk: int|
        0 <= lk < li ==> !(#[trigger] s.sel.levels@[lk]).selected@[ci]) by {
        if crate::incremental::reached(levels, li, ci) {
            assert forall|lk: int| 0 <= lk < li implies !(#[trigger] s.sel.levels@[lk]).selected@[ci] by {
                assert(!levels[lk].selected[ci]);
            }
        }
        if forall|lk: int| 0 <= lk < li ==> !(#[trigger] s.sel.levels@[lk]).selected@[ci] {
            assert forall|lk: int| 0 <= lk < li implies !(#[trigger] levels[lk]).selected[ci] by {
                assert(!s.sel.levels@[lk].selected@[ci]);
            }
        }
    }
}

/// Who has a simple code at a level: a candidate that contends there. It counts as having a simple
/// code, as those with fixed codes do, and nobody else does.
pub proof fn simple_codes_go_to_contenders(ctx: &OptContext, s: &SimpleEvaluator, ci: int)
    requires
        ctx.wf_full(),
        ctx.wf_simple(),
        s.inv(ctx),
        0 <= ci < ctx.char_infos@.len(),
    ensures
        s.sel.levels@.len() == ctx.simple_config.levels@.len(),
        forall|li: int|
            0 <= li < s.sel.levels@.len() && (#[trigger] s.sel.levels@[li]).selected@[ci] ==> contends(
                ctx,
                s,
                li,
                ci,
            ),
        s.sel.all_assigned_flags@[ci] <==> ctx.simple_fixed_assigned@[ci] || exists|li: int|
            0 <= li < s.sel.levels@.len() && (#[trigger] s.sel.levels@[li]).selected@[ci],
        forall|li: int|
            0 <= li < s.sel.levels@.len() && ctx.simple_fixed_assigned@[ci]
                ==> !(#[trigger] s.sel.levels@[li]).selected@[ci],
{
    let levels = s.sel@.levels;
    assert forall|li: int| 0 <= li < s.sel.levels@.len() && (#[trigger] s.sel.levels@[li]).selected@[ci] implies contends(
        ctx,
        s,
        li,
        ci,
    ) by {
        contenders_told(ctx, s, li, ci);
        assert(levels[li].selected[ci]);
        selected_may_be(ctx, s, li, ci);
    }
    let x = s.sel@.assigned[ci];
    if crate::incremental::has_simple_code(levels, ci) {
        let li = choose|li: int| 0 <= li < levels.len() && (#[trigger] levels[li]).selected[ci];
        assert(s.sel.levels@[li].selected@[ci]);
    }
    if exists|li: int| 0 <= li < s.sel.levels@.len() && (#[trigger] s.sel.levels@[li]).selected@[ci] {
        let li = choose|li: int| 0 <= li < s.sel.levels@.len() && (#[trigger] s.sel.levels@[li]).selected@[ci];
        assert(levels[li].selected[ci]);
    }
    assert forall|li: int| 0 <= li < s.sel.levels@.len() && ctx.simple_fixed_assigned@[ci] implies !(
    #[trigger] s.sel.levels@[li]).selected@[ci] by {
        crate::laws::fixed_stay_out(ctx, s, li, ci);
        assert(!levels[li].selected[ci]);
    }
}

/// The weight of a contender in efficiency mode: its frequency times the strokes saved, that is the
/// parts of the full code less the keys of the simple code with its commit key, and one more where
/// another character is shown before it under its full code.
pub open spec fn strokes_saved(ctx: &OptContext, s: &SimpleEvaluator, li: int, ci: int) -> int {
    ctx.char_infos@[ci].frequency * (ctx.char_infos@[ci].parts@.len() - steps_of(ctx, ci, li).len() - (
    if ctx.simple_config.levels@[li].commit_keys@.len() > 0 {
        1int
    } else {
        0
    }) + (if exists|cj: int|
        #![trigger s.last_full_codes@[cj]]
        0 <= cj < ctx.char_infos@.len() && s.last_full_codes@[cj] == s.last_full_codes@[ci] && goes_before(
            ctx.char_infos@,
            cj,
            ci,
        ) {
        1int
    } else {
        0
    }))
}

/// Whether a contender at a level goes before another one: by the strokes saved where these count, and
/// then, or from the start, by frequency.
pub open spec fn ranks_before(ctx: &OptContext, s: &SimpleEvaluator, li: int, ci: int, cj: int) -> bool {
    if ctx.simple_assign_mode == SimpleAssignMode::Efficiency {
        ||| strokes_saved(ctx, s, li, ci) > strokes_saved(ctx, s, li, cj)
        ||| strokes_saved(ctx, s, li, ci) == strokes_saved(ctx, s, li, cj) && goes_before(
            ctx.char_infos@,
            ci,
            cj,
        )
    } else {
        goes_before(ctx.char_infos@, ci, cj)
    }
}

/// The order of the sort keys is that of the strokes saved and the frequencies.
pub(crate) proof fn rank_told(ctx: &OptContext, s: &SimpleEvaluator, li: int, ci: int, cj: int)
    requires
        ctx.wf_full(),
        ctx.wf_simple(),
        s.inv(ctx),
        0 <= li < ctx.n_levels(),
        0 <= ci < ctx.n(),
        0 <= cj < ctx.n(),
        may_have(ctx, ci, li),
        may_have(ctx, cj, li),
    ensures
        terms_for(ctx, s.at@).rank_key(ctx, li, ci).before(terms_for(ctx, s.at@).rank_key(ctx, li, cj))
            <==> ranks_before(ctx, s, li, ci, cj),
{
    weight_told(ctx, s, li, ci);
    weight_told(ctx, s, li, cj);
}

/// The weight of a contender is told by strokes or frequency, and fits in the type of sort keys.
proof fn weight_told(ctx: &OptContext, s: &SimpleEvaluator, li: int, ci: int)
    requires
        ctx.wf_full(),
        ctx.wf_simple(),
        s.inv(ctx),
        0 <= li < ctx.n_levels(),
        0 <= ci < ctx.n(),
        may_have(ctx, ci, li),
    ensures
        ctx.simple_assign_mode == SimpleAssignMode::Efficiency ==> terms_for(ctx, s.at@).weight(ctx, li, ci)
            == strokes_saved(ctx, s, li, ci),
        ctx.simple_assign_mode == SimpleAssignMode::Frequency ==> terms_for(ctx, s.at@).weight(ctx, li, ci)
            == ctx.char_infos@[ci].frequency,
        ({
            let k = terms_for(ctx, s.at@).rank_key(ctx, li, ci);
            &&& k.major == -terms_for(ctx, s.at@).weight(ctx, li, ci)
            &&& k.minor == -(ctx.char_infos@[ci].frequency as int)
            &&& k.id == ci
        }),
{
    core_told(ctx, s.at@, ci, li);
    let terms = terms_for(ctx, s.at@);
    let codes = s.last_full_codes@;
    let info = ctx.char_infos@[ci];
    let steps = steps_of(ctx, ci, li);
    assert(ctx.instructions(ci, li) == Some(steps));
    assert(codes == ctx.full_codes(s.at@));
    assert(terms.first[ci] == crate::full_codes::is_best(ctx, codes, ci));
    let f = info.frequency as int;
    let w = ctx.parts(ci).len() - steps.len();
    assert(0 <= w <= 6);
    assert(forall|x: int| -1 <= x <= 7 ==> -0x1_0000_0000_0000_0000_0 <= #[trigger] (f * x)
        <= 0x1_0000_0000_0000_0000_0) by (nonlinear_arith)
        requires
            0 <= f <= 0x1_0000_0000_0000_0000,
    ;
    assert(ctx.saving(ci, li) == w - if ctx.simple_config.levels@[li].commit_keys@.len() > 0 {
        1int
    } else {
        0
    });
    let behind = exists|cj: int|
        #![trigger codes[cj]]
        0 <= cj < ctx.char_infos@.len() && codes[cj] == codes[ci] && goes_before(ctx.char_infos@, cj, ci);
    assert(terms.first[ci] <==> !behind) by {
        if behind {
            let cj = choose|cj: int|
                #![trigger codes[cj]]
                0 <= cj < ctx.char_infos@.len() && codes[cj] == codes[ci] && goes_before(
                    ctx.char_infos@,
                    cj,
                    ci,
                );
            let x = codes[cj];
        } else {
            assert forall|cj: int|
                0 <= cj < ctx.n() && cj != ci && #[trigger] codes[cj] == codes[ci] implies crate::full_codes::better(
                ctx,
                ci,
                cj,
            ) by {
                assert(!goes_before(ctx.char_infos@, cj, ci));
            }
        }
    }
}

/// Of those who contend at a level for a code of the same keys, whoever has it goes before whoever goes
/// without: its simple code saves more strokes, weighted by frequency, or it is more frequent. In
/// frequency mode frequency alone decides, and of equally frequent ones the earlier goes first.
pub proof fn codes_go_to_the_best(ctx: &OptContext, s: &SimpleEvaluator, li: int, ci: int, cj: int)
    requires
        ctx.wf_full(),
        ctx.wf_simple(),
        s.inv(ctx),
        0 <= li < ctx.simple_config.levels@.len(),
        0 <= ci < ctx.char_infos@.len(),
        0 <= cj < ctx.char_infos@.len(),
        s.sel.levels@[li].selected@[ci],
        !s.sel.levels@[li].selected@[cj],
        contends(ctx, s, li, cj),
        core_of(ctx, s.at@, cj, li) == core_of(ctx, s.at@, ci, li),
    ensures
        ranks_before(ctx, s, li, ci, cj),
{
    simple_codes_go_to_contenders(ctx, s, ci);
    contenders_told(ctx, s, li, ci);
    contenders_told(ctx, s, li, cj);
    assert(s.sel@.levels[li].selected[ci]);
    assert(!s.sel@.levels[li].selected[cj]);
    selected_outrank(ctx, s, li, ci, cj);
    rank_told(ctx, s, li, ci, cj);
}

/// A protected character keeps its full code to itself: nobody's simple code has the same keys,
/// without a commit key. Everybody is protected where no number is set.
pub proof fn protected_keys_unused(ctx: &OptContext, s: &SimpleEvaluator, li: int, ci: int, cx: int)
    requires
        ctx.wf_full(),
        ctx.wf_simple(),
        s.inv(ctx),
        0 <= li < ctx.simple_config.levels@.len(),
        0 <= ci < ctx.char_infos@.len(),
        0 <= cx < ctx.char_infos@.len(),
        s.sel.levels@[li].selected@[ci],
        ctx.simple_protect_top_n == 0 || ctx.simple_is_topn@[cx],
    ensures
        keys_of_parts(ctx.char_infos@[cx].parts@, s.at@) != core_of(ctx, s.at@, ci, li),
{
    simple_codes_go_to_contenders(ctx, s, ci);
    contenders_told(ctx, s, li, ci);
    assert(s.sel@.levels[li].selected[ci]);
    crate::laws::protected_codes_unused(ctx, s, li, ci);
    full_keys_by_parts(ctx, s.at@, cx);
    ctx.full_code_bound(s.at@, cx);
    let codes = ctx.full_codes(s.at@);
    if keys_of_parts(ctx.char_infos@[cx].parts@, s.at@) == core_of(ctx, s.at@, ci, li) {
        assert(codes[cx] == s.sel@.levels[li].codes[ci]->0);
        assert(crate::protection::guarded(ctx, cx));
    }
}

/// The code under which a contender is counted is the numeral of its keys, each plus one, in base 32.
pub proof fn simple_code_digits(ctx: &OptContext, s: &SimpleEvaluator, li: int, ci: int)
    requires
        ctx.wf_full(),
        ctx.wf_simple(),
        s.inv(ctx),
        0 <= li < ctx.simple_config.levels@.len(),
        0 <= ci < ctx.char_infos@.len(),
    ensures
        s.sel.levels@[li].current_simple_code@[ci] is Some <==> contends(ctx, s, li, ci),
        contends(ctx, s, li, ci) ==> {
            let keys = core_of(ctx, s.at@, ci, li);
            let code = s.sel.levels@[li].current_simple_code@[ci]->0 as int;
            &&& keys.len() == steps_of(ctx, ci, li).len()
            &&& code < pow(32, keys.len())
            &&& forall|i: int|
                #![trigger keys[i]]
                0 <= i < keys.len() ==> (code / pow(32, (keys.len() - 1 - i) as nat)) % 32 == keys[i] + 1
        },
{
    contenders_told(ctx, s, li, ci);
    assert(s.sel@.levels[li].codes == s.sel.levels@[li].current_simple_code@);
    if contends(ctx, s, li, ci) {
        let keys = core_of(ctx, s.at@, ci, li);
        crate::codes::encode_bound(keys);
        lemma_pow_positive(32, keys.len());
        let code = s.sel.levels@[li].current_simple_code@[ci]->0 as int;
        assert forall|i: int| #![trigger keys[i]] 0 <= i < keys.len() implies (code / pow(
            32,
            (keys.len() - 1 - i) as nat,
        )) % 32 == keys[i] + 1 by {
            digits_of_code(keys, i);
        }
    }
}

/// The collisions that simple codes leave are the characters without one, fixed or not, that stand
/// behind another character without one under the same full code. Their frequency is what collides.
pub proof fn collisions_left(ctx: &OptContext, s: &SimpleEvaluator)
    requires
        ctx.wf_full(),
        ctx.wf_simple(),
        s.inv(ctx),
    ensures
        s.simple_collision_count == sum(
            Seq::new(
                ctx.char_infos@.len(),
                |ci: int|
                    if stands_behind(ctx.char_infos@, s.last_full_codes@, s.sel.all_assigned_flags@, ci) {
                        1int
                    } else {
                        0
                    },
            ),
        ),
        s.simple_collision_freq == sum(
            Seq::new(
                ctx.char_infos@.len(),
                |ci: int|
                    if stands_behind(ctx.char_infos@, s.last_full_codes@, s.sel.all_assigned_flags@, ci) {
                        ctx.char_infos@[ci].frequency as int
                    } else {
                        0
                    },
            ),
        ),
        forall|ci: int|
            #![trigger s.last_full_codes@[ci]]
            0 <= ci < ctx.char_infos@.len() ==> s.last_full_codes@[ci] as int == encode(
                keys_of_parts(ctx.char_infos@[ci].parts@, s.at@),
            ),
{
    let codes = s.last_full_codes@;
    assert forall|i: int| 0 <= i < codes.len() implies (#[trigger] codes[i]) < ctx.code_space by {
        ctx.full_code_bound(s.at@, i);
    }
    totals_by_behind(ctx, codes, s.sel.all_assigned_flags@);
    assert forall|ci: int| #![trigger s.last_full_codes@[ci]] 0 <= ci < ctx.char_infos@.len() implies s.last_full_codes@[ci] as int
        == encode(keys_of_parts(ctx.char_infos@[ci].parts@, s.at@)) by {
        full_keys_by_parts(ctx, s.at@, ci);
        ctx.full_code_bound(s.at@, ci);
    }
}

/// The strokes of the simple codes of a level are those of all its keys, and one for each key of each
/// code, weighted by frequency; what the level covers is the frequency of those who have a code.
pub proof fn strokes_of_level(ctx: &OptContext, s: &SimpleEvaluator, li: int)
    requires
        ctx.wf_full(),
        ctx.wf_simple(),
        s.inv(ctx),
        0 <= li < ctx.simple_config.levels@.len(),
    ensures
        ({
            let level = s.sel.levels@[li];
            let cells = level.totals.cells@;
            let freq = |ci: int|
                if level.selected@[ci] {
                    ctx.char_infos@[ci].frequency as int
                } else {
                    0
                };
            let n = ctx.char_infos@.len();
            &&& cells[PRESSES as int] == sum(key_cells(cells))
            &&& cells[PRESSES as int] == sum(Seq::new(n, |ci: int| freq(ci) * level.sel_keys@[ci]@.len()))
            &&& cells[COVERED as int] == sum(Seq::new(n, |ci: int| freq(ci)))
            &&& forall|k: u8|
                #![trigger cells[k as int]]
                k < 31 ==> cells[k as int] == sum(
                    Seq::new(n, |ci: int| freq(ci) * level.sel_keys@[ci]@.to_multiset().count(k)),
                )
        }),
{
    let level = s.sel.levels@[li];
    let cells = level.totals.cells@;
    let freq = |ci: int|
        if level.selected@[ci] {
            ctx.char_infos@[ci].frequency as int
        } else {
            0
        };
    let n = ctx.n();
    assert(level.sane(ctx, ctx.simple_level_capacity@[li]));
    let lv = level@;
    let freqs = Seq::new(n, |ci: int| freq(ci));
    let keys = Seq::new(n, |ci: int| level.sel_keys@[ci]@);
    assert forall|ci: int, j: int|
        #![trigger keys[ci][j]]
        0 <= ci < keys.len() && freqs[ci] != 0 && 0 <= j < keys[ci].len() implies keys[ci][j] < 31 by {
        assert(level.selected@[ci]);
        let x = level.sel_keys@[ci]@[j];
    }
    strokes_are_all_keys(freqs, keys);
    assert forall|cell: int, ci: int|
        0 <= cell < CELLS && 0 <= ci < n implies #[trigger] cell_terms(ctx, lv.selected, lv.keys, cell)[ci]
        == freq(ci) * crate::totals::cell_unit(level.sel_keys@[ci]@, cell) by {
        assert(lv.keys[ci] == level.sel_keys@[ci]@);
        assert(0 * crate::totals::cell_unit(level.sel_keys@[ci]@, cell) == 0);
    }
    assert(cells[PRESSES as int] == cell_total(ctx, lv.selected, lv.keys, PRESSES as int));
    assert(cells[COVERED as int] == cell_total(ctx, lv.selected, lv.keys, COVERED as int));
    assert(cell_terms(ctx, lv.selected, lv.keys, PRESSES as int) =~= Seq::new(
        freqs.len(),
        |ci: int| freqs[ci] * keys[ci].len(),
    ));
    assert(Seq::new(freqs.len(), |ci: int| freqs[ci] * keys[ci].len()) =~= Seq::new(
        n,
        |ci: int| freq(ci) * level.sel_keys@[ci]@.len(),
    ));
    assert(cell_terms(ctx, lv.selected, lv.keys, COVERED as int) =~= Seq::new(n, |ci: int| freq(ci)));
    let by_key = Seq::new(
        31,
        |k: int| sum(Seq::new(freqs.len(), |ci: int| freqs[ci] * key_count(keys[ci], k))),
    );
    assert forall|k: int| 0 <= k < 31 implies #[trigger] cells[k] == by_key[k] by {
        assert(cells[k] == cell_total(ctx, lv.selected, lv.keys, k));
        assert(cell_terms(ctx, lv.selected, lv.keys, k) =~= Seq::new(
            freqs.len(),
            |ci: int| freqs[ci] * key_count(keys[ci], k),
        ));
    }
    assert(key_cells(cells) =~= by_key);
    assert forall|k: u8| #![trigger cells[k as int]] k < 31 implies cells[k as int] == sum(
        Seq::new(n, |ci: int| freq(ci) * level.sel_keys@[ci]@.to_multiset().count(k)),
    ) by {
        assert(cells[k as int] == cell_total(ctx, lv.selected, lv.keys, k as int));
        let t = Seq::new(n, |ci: int| freq(ci) * level.sel_keys@[ci]@.to_multiset().count(k));
        assert forall|ci: int| 0 <= ci < n implies cell_terms(ctx, lv.selected, lv.keys, k as int)[ci] == t[ci] by {
            key_count_occurs(level.sel_keys@[ci]@, k);
        }
        assert(cell_terms(ctx, lv.selected, lv.keys, k as int) =~= t);
    }
}

/// The totals over all simple codes are those of the fixed codes and of the levels, cell by cell.
pub proof fn strokes_of_simple_codes(ctx: &OptContext, s: &SimpleEvaluator, cell: int)
    requires
        ctx.wf_full(),
        ctx.wf_simple(),
        s.inv(ctx),
        0 <= cell < 33,
    ensures
        s.sel.totals.cells@[cell] == (if cell == PRESSES {
            ctx.fixed_key_presses as int
        } else if cell == COVERED {
            ctx.fixed_covered_freq as int
        } else {
            ctx.fixed_key_usage@[cell] as int
        }) + sum(Seq::new(s.sel.levels@.len(), |li: int| s.sel.levels@[li].totals.cells@[cell] as int)),
{
    crate::laws::totals_are_fixed_and_levels(ctx, s, cell);
    let t = Seq::new(s.sel.levels@.len(), |li: int| s.sel.levels@[li].totals.cells@[cell] as int);
    assert forall|li: int| 0 <= li < t.len() implies t[li] == level_cells(ctx, s.sel@.levels, cell)[li] by {
        let x = s.sel.levels@[li];
    }
    assert(t =~= level_cells(ctx, s.sel@.levels, cell));
}

/// A list of the simple codes names everybody who has one at a level, with that level, once: lower
/// levels first, on a level the smaller codes first, and those with one code by their rank.
pub proof fn listing_told(ctx: &OptContext, s: &SimpleEvaluator, r: Seq<(usize, usize)>)
    requires
        ctx.wf_full(),
        ctx.wf_simple(),
        s.inv(ctx),
        lists_selected(ctx, terms_for(ctx, s.at@), s.sel@.levels, r),
    ensures
        forall|li: usize, ci: usize|
            #![trigger r.contains((li, ci))]
            r.contains((li, ci)) <==> li < ctx.simple_config.levels@.len() && ci < ctx.char_infos@.len()
                && s.sel.levels@[li as int].selected@[ci as int],
        forall|i: int, j: int|
            #![trigger r[i], r[j]]
            0 <= i < j < r.len() ==> {
                let (x, y) = (r[i], r[j]);
                let c = s.sel.levels@[x.0 as int].current_simple_code@[x.1 as int]->0;
                let d = s.sel.levels@[y.0 as int].current_simple_code@[y.1 as int]->0;
                ||| x.0 < y.0
                ||| x.0 == y.0 && c < d
                ||| x.0 == y.0 && c == d && ranks_before(ctx, s, x.0 as int, x.1 as int, y.1 as int)
            },
{
    assert forall|li: usize, ci: usize|
        #![trigger r.contains((li, ci))]
        r.contains((li, ci)) <==> li < ctx.simple_config.levels@.len() && ci < ctx.char_infos@.len()
            && s.sel.levels@[li as int].selected@[ci as int] by {
        if li < ctx.n_levels() {
            assert(s.sel@.levels[li as int] == s.sel.levels@[li as int]@);
        }
    }
    assert forall|i: int, j: int| #![trigger r[i], r[j]] 0 <= i < j < r.len() implies {
        let (x, y) = (r[i], r[j]);
        let c = s.sel.levels@[x.0 as int].current_simple_code@[x.1 as int]->0;
        let d = s.sel.levels@[y.0 as int].current_simple_code@[y.1 as int]->0;
        ||| x.0 < y.0
        ||| x.0 == y.0 && c < d
        ||| x.0 == y.0 && c == d && ranks_before(ctx, s, x.0 as int, x.1 as int, y.1 as int)
    } by {
        let (x, y) = (r[i], r[j]);
        assert(r.contains((x.0, x.1)));
        assert(r.contains((y.0, y.1)));
        let (lx, ly) = (x.0 as int, y.0 as int);
        assert(s.sel@.levels[lx] == s.sel.levels@[lx]@);
        assert(s.sel@.levels[ly] == s.sel.levels@[ly]@);
        simple_codes_go_to_contenders(ctx, s, x.1 as int);
        simple_codes_go_to_contenders(ctx, s, y.1 as int);
        if x.0 == y.0 {
            rank_told(ctx, s, lx, x.1 as int, y.1 as int);
        }
    }
}

} // verus!
