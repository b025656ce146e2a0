//! How many characters share a simple code: those who have it by selection and those who have it fixed
//! fill the room that a level gives it, and do not go beyond.

use vstd::prelude::*;

use crate::builder::{built, built_fixed};
use crate::codes::{are_keys, encode, encode_bound, space_monotone, space_values};
use crate::collisions::sum_over_members;
use crate::context::{entry_count, OCC_CORE_KEY, OptContext};
use crate::fixed::{all_occupants, entry_counts, occupants, table_entries};
use crate::full_laws::{full_keys_by_parts, keys_of_parts};
use crate::scheme::Scheme;
use crate::scheme_laws::{fixed_codes_told, whole_code};
use crate::simple_evaluator::{terms_for, SimpleEvaluator};
use crate::simple_laws::{codes_tell_keys, contenders_told, contends, core_of, simple_codes_go_to_contenders};
use crate::simple_select::linked;
use crate::sums::{sum, sum_nonnegative, sum_zero};
use crate::totals::key_count;
use crate::types::{FixedSimpleCode, Hand};

verus! {

/// One for each character that has a simple code of the given keys at a level, commit keys aside.
pub open spec fn having(ctx: &OptContext, s: &SimpleEvaluator, li: int, core: Seq<u8>) -> Seq<int> {
    Seq::new(
        ctx.char_infos@.len(),
        |ci: int|
            if s.sel.levels@[li].selected@[ci] && core_of(ctx, s.at@, ci, li) == core {
                1int
            } else {
                0
            },
    )
}

/// One for each character that has a simple code of the given keys at a level, committed with a key.
pub open spec fn having_with(ctx: &OptContext, s: &SimpleEvaluator, li: int, core: Seq<u8>, k: u8) -> Seq<int> {
    Seq::new(
        ctx.char_infos@.len(),
        |ci: int|
            if s.sel.levels@[li].selected@[ci] && s.sel.levels@[li].sel_keys@[ci]@ == core.push(k) {
                1int
            } else {
                0
            },
    )
}

/// One for each fixed code of the given keys that counts for a level.
pub open spec fn fixed_at(codes: Seq<FixedSimpleCode>, li: int, core: Seq<u8>) -> Seq<int> {
    Seq::new(
        codes.len(),
        |j: int| if codes[j].li == Some(li as usize) && codes[j].keys@ == core { 1int } else { 0 },
    )
}

/// One for each fixed code of the given keys that counts for a level and is committed with a key.
pub open spec fn fixed_with(codes: Seq<FixedSimpleCode>, li: int, core: Seq<u8>, k: u8) -> Seq<int> {
    Seq::new(
        codes.len(),
        |j: int|
            if codes[j].li == Some(li as usize) && codes[j].keys@ == core && codes[j].commit_key == Some(k) {
                1int
            } else {
                0
            },
    )
}

/// The commit keys of a level after some keys, in order of preference: one list after a key of the left
/// hand, another after any other key.
pub open spec fn commit_choices(ctx: &OptContext, li: int, core: Seq<u8>) -> Seq<u8> {
    if ctx.layout.hands@[core.last() as int] == Hand::Left {
        ctx.simple_config.levels@[li].commit_pref_last_left@
    } else {
        ctx.simple_config.levels@[li].commit_pref_last_right@
    }
}

/// Whether a level leaves a commit key out after some keys: a letter of the hand of the last key, where
/// the other hand is asked for.
pub open spec fn left_out_after(ctx: &OptContext, li: int, core: Seq<u8>, k: u8) -> bool {
    &&& ctx.simple_config.levels@[li].commit_alt_hand_only
    &&& k != ctx.layout.space
    &&& ctx.layout.hands@[k as int] == ctx.layout.hands@[core.last() as int]
}

/// Whether keys are the full code of a protected character.
pub open spec fn kept_by_protected(ctx: &OptContext, a: Seq<u8>, core: Seq<u8>) -> bool {
    exists|cx: int|
        #![trigger ctx.char_infos@[cx]]
        0 <= cx < ctx.char_infos@.len() && (ctx.simple_protect_top_n == 0 || ctx.simple_is_topn@[cx])
            && keys_of_parts(ctx.char_infos@[cx].parts@, a) == core
}

/// Whether keys may be those of a simple code.
pub open spec fn short_keys(core: Seq<u8>) -> bool {
    &&& 0 < core.len() <= 6
    &&& forall|i: int| 0 <= i < core.len() ==> (#[trigger] core[i]) < 31
}

/// A code of few keys fits in a `u32`.
pub(crate) proof fn short_code_fits(core: Seq<u8>)
    requires
        short_keys(core),
    ensures
        are_keys(core),
        encode(core) as u32 == encode(core),
        OptContext::last_key(encode(core) as u32) == core.last(),
{
    assert(are_keys(core));
    encode_bound(core);
    space_monotone(core.len(), 6);
    space_values();
    let d = core[core.len() - 1] as int + 1;
    let e = encode(core.drop_last()) as int;
    assert(encode(core) == e * 32 + d);
    assert((e * 32 + d) % 32 == d) by (nonlinear_arith)
        requires
            0 <= d < 32,
    ;
}

/// Those who contend with the same keys, in the order of their rank: the first of them have their code,
/// up to the quota.
pub(crate) proof fn bucket_of(ctx: &OptContext, s: &SimpleEvaluator, li: int, core: Seq<u8>) -> (m: Seq<u32>)
    requires
        ctx.wf_full(),
        ctx.wf_simple(),
        s.inv(ctx),
        0 <= li < ctx.n_levels(),
        short_keys(core),
    ensures
        m.no_duplicates(),
        ({
            let code = encode(core) as u32;
            let terms = terms_for(ctx, s.at@);
            let quota = terms.quota(ctx, li, code);
            let level = s.sel.levels@[li];
            &&& forall|i: int|
                #![trigger m[i]]
                0 <= i < m.len() ==> {
                    &&& m[i] < ctx.n()
                    &&& contends(ctx, s, li, m[i] as int)
                    &&& core_of(ctx, s.at@, m[i] as int, li) == core
                    &&& level.selected@[m[i] as int] == (i < quota)
                    &&& i < quota ==> level.sel_keys@[m[i] as int]@ == match ctx.commit_key(li, code, i) {
                        Some(k) => core.push(k),
                        None => core,
                    }
                }
            &&& forall|ci: int|
                0 <= ci < ctx.n() && #[trigger] contends(ctx, s, li, ci) && core_of(ctx, s.at@, ci, li) == core
                    ==> m.contains(ci as u32)
            &&& forall|i: int, j: int|
                #![trigger m[i], m[j]]
                0 <= i < j < m.len() ==> terms.rank_key(ctx, li, m[i] as int).before(
                    terms.rank_key(ctx, li, m[j] as int),
                )
        }),
{
    short_code_fits(core);
    let code = encode(core) as u32;
    let level = s.sel@.levels[li];
    let tracker = s.sel.levels@[li];
    assert(level == tracker@);
    assert(linked(ctx, li, level));
    assert(tracker.sane(ctx, ctx.simple_level_capacity@[li]));
    if level.members.contains_key(code) {
        let m = level.members[code];
        let terms = terms_for(ctx, s.at@);
        assert(terms.settled(ctx, li, level, code));
        assert(crate::simple_level::distinct_chars(ctx, m));
        assert forall|i: int| #![trigger m[i]] 0 <= i < m.len() implies {
            &&& m[i] < ctx.n()
            &&& contends(ctx, s, li, m[i] as int)
            &&& core_of(ctx, s.at@, m[i] as int, li) == core
            &&& tracker.selected@[m[i] as int] == (i < terms.quota(ctx, li, code))
            &&& i < terms.quota(ctx, li, code) ==> tracker.sel_keys@[m[i] as int]@ == match ctx.commit_key(
                li,
                code,
                i,
            ) {
                Some(k) => core.push(k),
                None => core,
            }
        } by {
            let ci = level.members[code][i] as int;
            assert(level.codes[ci] == Some(code));
            contenders_told(ctx, s, li, ci);
            codes_tell_keys(core_of(ctx, s.at@, ci, li), core);
            assert(level.keys[ci] == tracker.sel_keys@[ci]@);
        }
        assert forall|ci: int|
            0 <= ci < ctx.n() && #[trigger] contends(ctx, s, li, ci) && core_of(ctx, s.at@, ci, li) == core implies m.contains(
        ci as u32) by {
            contenders_told(ctx, s, li, ci);
            let x = level.codes[ci];
        }
        m
    } else {
        assert forall|ci: int|
            0 <= ci < ctx.n() && #[trigger] contends(ctx, s, li, ci) implies core_of(ctx, s.at@, ci, li) != core by {
            contenders_told(ctx, s, li, ci);
            let x = level.codes[ci];
        }
        Seq::empty()
    }
}

/// Summing over a bucket sums everything that stands in it.
pub(crate) proof fn sum_over_bucket(ctx: &OptContext, m: Seq<u32>, g: Seq<int>)
    requires
        ctx.wf_full(),
        m.no_duplicates(),
        forall|i: int| 0 <= i < m.len() ==> (#[trigger] m[i]) < ctx.n(),
        g.len() == ctx.n(),
        forall|ci: int| 0 <= ci < g.len() && #[trigger] g[ci] != 0 ==> m.contains(ci as u32),
    ensures
        sum(g) == sum(Seq::new(m.len(), |i: int| g[m[i] as int])),
{
    sum_over_members(m, g);
}

/// The first `q` of a number.
proof fn count_first(len: nat, q: int)
    requires
        q >= 0,
    ensures
        sum(Seq::new(len, |i: int| if i < q { 1int } else { 0 })) == if q < len {
            q
        } else {
            len as int
        },
    decreases len,
{
    let s = Seq::new(len, |i: int| if i < q { 1int } else { 0 });
    if len > 0 {
        let before = (len - 1) as nat;
        count_first(before, q);
        assert(s.drop_last() =~= Seq::new(before, |i: int| if i < q { 1int } else { 0 }));
    }
}

/// How often a key is among the first of a sequence.
proof fn count_first_key(seq: Seq<u8>, len: nat, k: u8)
    ensures
        ({
            let n = sum(Seq::new(len, |i: int| if i < seq.len() && seq[i] == k { 1int } else { 0 }));
            &&& 0 <= n <= key_count(seq, k as int)
            &&& seq.len() <= len ==> n == key_count(seq, k as int)
        }),
    decreases len,
{
    let s = Seq::new(len, |i: int| if i < seq.len() && seq[i] == k { 1int } else { 0 });
    sum_nonnegative(s);
    key_count_of_front(seq, len, k);
}

/// How often a key is among the first of a sequence, step by step.
pub(crate) proof fn key_count_of_front(seq: Seq<u8>, len: nat, k: u8)
    ensures
        sum(Seq::new(len, |i: int| if i < seq.len() && seq[i] == k { 1int } else { 0 })) == key_count(
            if len < seq.len() {
                seq.take(len as int)
            } else {
                seq
            },
            k as int,
        ),
        len <= seq.len() ==> key_count(seq.take(len as int), k as int) <= key_count(seq, k as int),
    decreases len,
{
    let s = Seq::new(len, |i: int| if i < seq.len() && seq[i] == k { 1int } else { 0 });
    if len <= seq.len() {
        key_count_grows(seq, len as int, k);
    }
    if len == 0 {
        assert(seq.take(0) =~= Seq::<u8>::empty());
    } else {
        let before = (len - 1) as nat;
        key_count_of_front(seq, before, k);
        assert(s.drop_last() =~= Seq::new(
            before,
            |i: int| if i < seq.len() && seq[i] == k { 1int } else { 0 },
        ));
        if before < seq.len() {
            assert(seq.take(len as int).drop_last() =~= seq.take(before as int));
            assert(seq.take(len as int).last() == seq[before as int]);
            if len == seq.len() {
                assert(seq.take(len as int) =~= seq);
            }
        }
    }
}

/// A key occurs at least as often among all as among the first.
pub(crate) proof fn key_count_grows(seq: Seq<u8>, i: int, k: u8)
    requires
        0 <= i <= seq.len(),
    ensures
        0 <= key_count(seq.take(i), k as int) <= key_count(seq, k as int),
    decreases seq.len() - i,
{
    crate::totals::key_count_bound(seq.take(i), k as int);
    if i == seq.len() {
        assert(seq.take(i) =~= seq);
    } else {
        key_count_grows(seq, i + 1, k);
        assert(seq.take(i + 1).drop_last() =~= seq.take(i));
    }
}

/// A key occurs in two sequences together as often as in each.
pub(crate) proof fn key_count_both(x: Seq<u8>, y: Seq<u8>, k: u8)
    ensures
        key_count(x + y, k as int) == key_count(x, k as int) + key_count(y, k as int),
    decreases y.len(),
{
    if y.len() == 0 {
        assert(x + y =~= x);
    } else {
        key_count_both(x, y.drop_last(), k);
        assert((x + y).drop_last() =~= x + y.drop_last());
    }
}

/// Leaving out keys leaves those that are kept as often as they were.
proof fn key_count_kept(x: Seq<u8>, keeps: spec_fn(u8) -> bool, k: u8)
    ensures
        key_count(x.filter(keeps), k as int) == if keeps(k) {
            key_count(x, k as int)
        } else {
            0
        },
    decreases x.len(),
{
    reveal(Seq::filter);
    if x.len() > 0 {
        key_count_kept(x.drop_last(), keeps, k);
        let front = x.drop_last().filter(keeps);
        if keeps(x.last()) {
            assert(x.filter(keeps) =~= front.push(x.last()));
            assert(x.filter(keeps).drop_last() =~= front);
        }
    }
}

/// A commit key is handed out once a round, as long as there is room.
pub(crate) proof fn handed_out(ctx: &OptContext, li: int, code: u32, rounds: nat, k: u8)
    requires
        ctx.preference(li, code).no_duplicates(),
    ensures
        key_count(ctx.commit_sequence(li, code, rounds), k as int) == if !ctx.preference(li, code).contains(k) {
            0
        } else if ctx.key_room(li, code, k) < rounds {
            ctx.key_room(li, code, k)
        } else {
            rounds as int
        },
    decreases rounds,
{
    let pref = ctx.preference(li, code);
    once_or_never(pref, k);
    if rounds > 0 {
        let before = (rounds - 1) as nat;
        handed_out(ctx, li, code, before, k);
        let keeps = |x: u8| ctx.key_room(li, code, x) > rounds - 1;
        key_count_kept(pref, keeps, k);
        key_count_both(ctx.commit_sequence(li, code, before), ctx.round_keys(li, code, rounds - 1), k);
        assert(ctx.round_keys(li, code, rounds - 1) == pref.filter(keeps));
    }
}

/// In a list that names nothing twice a key occurs once or not at all.
proof fn once_or_never(x: Seq<u8>, k: u8)
    requires
        x.no_duplicates(),
    ensures
        key_count(x, k as int) == if x.contains(k) {
            1int
        } else {
            0
        },
    decreases x.len(),
{
    if x.len() > 0 {
        let front = x.drop_last();
        assert(front.no_duplicates());
        once_or_never(front, k);
        if x.contains(k) {
            let i = x.index_of(k);
            if i < front.len() {
                assert(front[i] == k);
                assert(front.contains(k));
                assert(x[i] != x[x.len() - 1]);
            } else if front.contains(k) {
                let j = front.index_of(k);
                assert(x[j] == x[i]);
            }
        }
        if front.contains(k) {
            let j = front.index_of(k);
            assert(x[j] == k);
        }
        assert(x[x.len() - 1] == x.last());
    }
}

/// What fixed codes take up of a code, by their keys.
pub(crate) proof fn taken_up(
    ctx: &OptContext,
    scheme: Scheme,
    entries: Seq<(char, String)>,
    li: int,
    core: Seq<u8>,
    k: u8,
)
    requires
        ctx.wf_full(),
        ctx.wf_simple(),
        built(ctx, scheme, entries),
        0 <= li < ctx.n_levels(),
        short_keys(core),
    ensures
        k < 31 ==> ctx.occ_key(li, encode(core) as u32, k) == sum(fixed_with(ctx.simple_fixed_codes@, li, core, k)),
        ctx.occ_total(li, encode(core) as u32) == sum(fixed_at(ctx.simple_fixed_codes@, li, core)),
{
    let lens = choose|lens: Seq<usize>| #[trigger] built_fixed(ctx, scheme, lens, entries);
    let codes = ctx.simple_fixed_codes@;
    let code = encode(core) as u32;
    short_code_fits(core);
    let table = ctx.simple_fixed_occupancy@;
    let e = table_entries(table, li, code);
    assert(ctx.occ_entries(li, code) == e);
    assert forall|j: int| 0 <= j < codes.len() implies are_keys((#[trigger] codes[j]).keys@) by {
        fixed_codes_told(ctx, scheme, entries, j);
        let c = codes[j];
        let all = whole_code(c);
        assert forall|x: int| 0 <= x < c.keys@.len() implies (#[trigger] c.keys@[x]) < 31 by {
            assert(all[x] == c.keys@[x]);
        }
    }
    assert forall|j: int| 0 <= j < codes.len() implies (encode((#[trigger] codes[j]).keys@) == code
        <==> codes[j].keys@ == core) by {
        if encode(codes[j].keys@) == code {
            codes_tell_keys(codes[j].keys@, core);
        }
    }
    assert(all_occupants(codes, li, code) =~= fixed_at(codes, li, core)) by {
        assert forall|j: int| 0 <= j < codes.len() implies all_occupants(codes, li, code)[j] == fixed_at(
            codes,
            li,
            core,
        )[j] by {
            let c = codes[j];
        }
    }
    assert(Seq::new(e.len(), |i: int| e[i].1 as int) =~= entry_counts(e));
    if k < 31 {
        assert(entry_count(e, k) == sum(occupants(codes, li, code, k)));
        assert(occupants(codes, li, code, k) =~= fixed_with(codes, li, core, k)) by {
            assert forall|j: int| 0 <= j < codes.len() implies occupants(codes, li, code, k)[j] == fixed_with(
                codes,
                li,
                core,
                k,
            )[j] by {
                let c = codes[j];
                assert(OCC_CORE_KEY != k);
            }
        }
    }
}

/// A code is blocked exactly where its keys are the full code of a protected character.
proof fn blocked_told(ctx: &OptContext, a: Seq<u8>, core: Seq<u8>)
    requires
        ctx.wf_full(),
        ctx.assigns(a),
        short_keys(core),
    ensures
        terms_for(ctx, a).blocked.contains(encode(core) as u32) <==> kept_by_protected(ctx, a, core),
{
    short_code_fits(core);
    let codes = ctx.full_codes(a);
    let code = encode(core) as u32;
    assert forall|cx: int| 0 <= cx < ctx.n() implies (#[trigger] codes[cx] == code <==> keys_of_parts(
        ctx.char_infos@[cx].parts@,
        a,
    ) == core) by {
        full_keys_by_parts(ctx, a, cx);
        ctx.full_code_bound(a, cx);
        let info = ctx.char_infos@[cx];
        crate::codes::part_keys_are_keys(ctx.parts(cx), a);
        if codes[cx] == code {
            codes_tell_keys(keys_of_parts(info.parts@, a), core);
        }
    }
    if kept_by_protected(ctx, a, core) {
        let cx = choose|cx: int|
            #![trigger ctx.char_infos@[cx]]
            0 <= cx < ctx.char_infos@.len() && (ctx.simple_protect_top_n == 0 || ctx.simple_is_topn@[cx])
                && keys_of_parts(ctx.char_infos@[cx].parts@, a) == core;
        assert(codes[cx] == code && crate::protection::guarded(ctx, cx));
        assert(crate::protection::protected(ctx, codes, code));
    }
    if crate::protection::protected(ctx, codes, code) {
        let cx = choose|cx: int|
            0 <= cx < ctx.n() && #[trigger] codes[cx] == code && crate::protection::guarded(ctx, cx);
        let info = ctx.char_infos@[cx];
    }
}

/// On a level without commit keys, those who have a code and the fixed codes that take it up fill its
/// room and do not go beyond: together they are at most as many as may share it, unless the fixed codes
/// alone are more; and somebody goes without only where the room is taken, or a protected character has
/// the keys for its full code.
pub proof fn room_without_commit_keys(
    ctx: &OptContext,
    scheme: Scheme,
    entries: Seq<(char, String)>,
    s: &SimpleEvaluator,
    li: int,
    core: Seq<u8>,
)
    requires
        ctx.wf_full(),
        ctx.wf_simple(),
        built(ctx, scheme, entries),
        s.inv(ctx),
        0 <= li < ctx.simple_config.levels@.len(),
        ctx.simple_config.levels@[li].commit_keys@.len() == 0,
        short_keys(core),
    ensures
        ({
            let number = sum(having(ctx, s, li, core));
            let fixed = sum(fixed_at(ctx.simple_fixed_codes@, li, core));
            let most = ctx.simple_config.levels@[li].code_num;
            &&& number == 0 || number + fixed <= most
            &&& kept_by_protected(ctx, s.at@, core) ==> number == 0
            &&& forall|cj: int|
                0 <= cj < ctx.char_infos@.len() && #[trigger] contends(ctx, s, li, cj) && core_of(
                    ctx,
                    s.at@,
                    cj,
                    li,
                ) == core && !s.sel.levels@[li].selected@[cj] ==> kept_by_protected(ctx, s.at@, core)
                    || number + fixed >= most
        }),
{
    let code = encode(core) as u32;
    let m = bucket_of(ctx, s, li, core);
    let terms = terms_for(ctx, s.at@);
    let quota = terms.quota(ctx, li, code);
    taken_up(ctx, scheme, entries, li, core, 0);
    blocked_told(ctx, s.at@, core);
    let g = having(ctx, s, li, core);
    assert forall|ci: int| 0 <= ci < g.len() && #[trigger] g[ci] != 0 implies m.contains(ci as u32) by {
        simple_codes_go_to_contenders(ctx, s, ci);
        assert(s.sel.levels@[li].selected@[ci]);
    }
    sum_over_bucket(ctx, m, g);
    let picked = Seq::new(m.len(), |i: int| g[m[i] as int]);
    let first = Seq::new(m.len(), |i: int| if i < quota { 1int } else { 0 });
    assert(picked =~= first) by {
        assert forall|i: int| 0 <= i < m.len() implies picked[i] == first[i] by {
            let x = m[i];
        }
    }
    sum_nonnegative(fixed_at(ctx.simple_fixed_codes@, li, core));
    assert(quota >= 0);
    count_first(m.len(), quota);
    assert forall|cj: int|
        0 <= cj < ctx.char_infos@.len() && #[trigger] contends(ctx, s, li, cj) && core_of(ctx, s.at@, cj, li)
            == core && !s.sel.levels@[li].selected@[cj] implies quota < m.len() by {
        let i = m.index_of(cj as u32);
        assert(m[i] == cj as u32);
    }
}

/// On a level with commit keys, those who have a code with one of them and the fixed codes that take
/// it up fill its room and do not go beyond: together they are at most as many as may share it, unless
/// the fixed codes alone are more; and somebody goes without only where the room is taken, the key is
/// left out, or a protected character has the keys for its full code. Nobody has a key that is left
/// out.
pub proof fn room_with_commit_key(
    ctx: &OptContext,
    scheme: Scheme,
    entries: Seq<(char, String)>,
    s: &SimpleEvaluator,
    li: int,
    core: Seq<u8>,
    k: u8,
)
    requires
        ctx.wf_full(),
        ctx.wf_simple(),
        built(ctx, scheme, entries),
        s.inv(ctx),
        0 <= li < ctx.simple_config.levels@.len(),
        ctx.simple_config.levels@[li].commit_keys@.len() > 0,
        short_keys(core),
        commit_choices(ctx, li, core).no_duplicates(),
        commit_choices(ctx, li, core).contains(k),
    ensures
        ({
            let number = sum(having_with(ctx, s, li, core, k));
            let fixed = sum(fixed_with(ctx.simple_fixed_codes@, li, core, k));
            let most = ctx.simple_config.levels@[li].code_num;
            &&& number == 0 || number + fixed <= most
            &&& kept_by_protected(ctx, s.at@, core) || left_out_after(ctx, li, core, k) ==> number == 0
            &&& forall|cj: int|
                0 <= cj < ctx.char_infos@.len() && #[trigger] contends(ctx, s, li, cj) && core_of(
                    ctx,
                    s.at@,
                    cj,
                    li,
                ) == core && !s.sel.levels@[li].selected@[cj] ==> kept_by_protected(ctx, s.at@, core)
                    || left_out_after(ctx, li, core, k) || number + fixed >= most
        }),
{
    let code = encode(core) as u32;
    short_code_fits(core);
    let level = ctx.simple_config.levels@[li];
    let m = bucket_of(ctx, s, li, core);
    let terms = terms_for(ctx, s.at@);
    let quota = terms.quota(ctx, li, code);
    choices_told(ctx, li, core, k);
    taken_up(ctx, scheme, entries, li, core, k);
    blocked_told(ctx, s.at@, core);
    let seq = ctx.commit_sequence(li, code, level.code_num as nat);
    ctx.commit_keys_match_slots(li, code);
    handed_out(ctx, li, code, level.code_num as nat, k);
    let g = having_with(ctx, s, li, core, k);
    assert forall|ci: int| 0 <= ci < g.len() && #[trigger] g[ci] != 0 implies m.contains(ci as u32) by {
        simple_codes_go_to_contenders(ctx, s, ci);
        assert(s.sel.levels@[li].selected@[ci]);
        keys_begin_with_core(ctx, s, li, ci);
        assert(core.push(k).drop_last() =~= core);
    }
    sum_over_bucket(ctx, m, g);
    sum_nonnegative(fixed_with(ctx.simple_fixed_codes@, li, core, k));
    let picked = Seq::new(m.len(), |i: int| g[m[i] as int]);
    if terms.blocked.contains(code) {
        assert forall|i: int| 0 <= i < m.len() implies picked[i] == 0 by {
            let x = m[i];
        }
        sum_zero(picked);
    } else {
        assert(quota == seq.len());
        let first = Seq::new(m.len(), |i: int| if i < seq.len() && seq[i] == k { 1int } else { 0 });
        assert(picked =~= first) by {
            assert forall|i: int| 0 <= i < m.len() implies picked[i] == first[i] by {
                let x = m[i];
                if i < quota {
                    assert(ctx.commit_key(li, code, i) == Some(seq[i]));
                    if core.push(seq[i]) == core.push(k) {
                        assert(core.push(seq[i]).last() == core.push(k).last());
                    }
                }
            }
        }
        count_first_key(seq, m.len(), k);
        assert forall|cj: int|
            0 <= cj < ctx.char_infos@.len() && #[trigger] contends(ctx, s, li, cj) && core_of(ctx, s.at@, cj, li)
                == core && !s.sel.levels@[li].selected@[cj] implies quota < m.len() by {
            let i = m.index_of(cj as u32);
            assert(m[i] == cj as u32);
        }
    }
}

/// The commit keys to choose from are told by the last key.
pub(crate) proof fn choices_told(ctx: &OptContext, li: int, core: Seq<u8>, k: u8)
    requires
        ctx.wf_full(),
        ctx.wf_simple(),
        0 <= li < ctx.n_levels(),
        short_keys(core),
    ensures
        ctx.preference(li, encode(core) as u32) == commit_choices(ctx, li, core),
        commit_choices(ctx, li, core).contains(k) ==> k < 31 && ctx.same_hand(li, encode(core) as u32, k)
            == left_out_after(ctx, li, core, k),
{
    short_code_fits(core);
    let last = core[core.len() - 1];
    assert(ctx.layout.hand_of(last) == ctx.layout.hands@[last as int]);
    assert(OptContext::level_ok(ctx.simple_config.levels@[li]));
    let pref = commit_choices(ctx, li, core);
    if pref.contains(k) {
        let i = pref.index_of(k);
        assert(pref[i] < 31);
        assert(ctx.layout.hand_of(k) == ctx.layout.hands@[k as int]);
    }
}

/// The keys of whoever has a simple code are those that its instructions pick, followed, on a level with
/// commit keys, by one of those to choose from that is not left out.
pub proof fn keys_begin_with_core(ctx: &OptContext, s: &SimpleEvaluator, li: int, ci: int)
    requires
        ctx.wf_full(),
        ctx.wf_simple(),
        s.inv(ctx),
        0 <= li < ctx.simple_config.levels@.len(),
        0 <= ci < ctx.char_infos@.len(),
        s.sel.levels@[li].selected@[ci],
    ensures
        ({
            let keys = s.sel.levels@[li].sel_keys@[ci]@;
            let core = core_of(ctx, s.at@, ci, li);
            if ctx.simple_config.levels@[li].commit_keys@.len() > 0 {
                &&& keys.len() == core.len() + 1
                &&& keys.drop_last() == core
                &&& commit_choices(ctx, li, core).contains(keys.last())
                &&& !left_out_after(ctx, li, core, keys.last())
            } else {
                keys == core
            }
        }),
{
    simple_codes_go_to_contenders(ctx, s, ci);
    contenders_told(ctx, s, li, ci);
    let core = core_of(ctx, s.at@, ci, li);
    let x = ctx.char_infos@[ci];
    assert(short_keys(core)) by {
        assert forall|i: int| 0 <= i < core.len() implies (#[trigger] core[i]) < 31 by {}
    }
    let code = encode(core) as u32;
    let m = bucket_of(ctx, s, li, core);
    let i = m.index_of(ci as u32);
    assert(m.contains(ci as u32));
    assert(m[i] == ci as u32);
    let level = ctx.simple_config.levels@[li];
    let keys = s.sel.levels@[li].sel_keys@[ci]@;
    let terms = terms_for(ctx, s.at@);
    assert(i < terms.quota(ctx, li, code));
    if level.commit_keys@.len() > 0 {
        ctx.commit_keys_match_slots(li, code);
        let seq = ctx.commit_sequence(li, code, level.code_num as nat);
        assert(ctx.commit_key(li, code, i) == Some(seq[i]));
        assert(keys.drop_last() =~= core);
        from_choices(ctx, li, code, level.code_num as nat, i);
        choices_told(ctx, li, core, seq[i]);
    }
}

/// What is handed out is to choose from and has room.
proof fn from_choices(ctx: &OptContext, li: int, code: u32, rounds: nat, i: int)
    requires
        0 <= i < ctx.commit_sequence(li, code, rounds).len(),
    ensures
        ({
            let k = ctx.commit_sequence(li, code, rounds)[i];
            ctx.preference(li, code).contains(k) && ctx.key_room(li, code, k) > 0
        }),
    decreases rounds,
{
    if rounds > 0 {
        let before = (rounds - 1) as nat;
        let front = ctx.commit_sequence(li, code, before);
        if i < front.len() {
            from_choices(ctx, li, code, before, i);
        } else {
            let pref = ctx.preference(li, code);
            let keeps = |x: u8| ctx.key_room(li, code, x) > rounds - 1;
            let now = pref.filter(keeps);
            assert(ctx.round_keys(li, code, rounds - 1) == now);
            let k = now[i - front.len()];
            assert(now.contains(k));
            pref.lemma_filter_contains_rev(keeps, k);
        }
    }
}

} // verus!
