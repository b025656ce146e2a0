//! In which order the commit keys of a level are handed out to those who share a simple code.

use vstd::prelude::*;

use crate::codes::encode;
use crate::context::OptContext;
use crate::room_laws::{
    bucket_of, choices_told, commit_choices, handed_out, key_count_both, key_count_grows,
    key_count_of_front, short_code_fits, short_keys, sum_over_bucket,
};
use crate::simple_evaluator::{terms_for, SimpleEvaluator};
use crate::simple_laws::{core_of, rank_told, ranks_before, simple_codes_go_to_contenders};
use crate::sums::sum;
use crate::totals::key_count;

verus! {

/// One for each character that has a simple code of the given keys at a level, committed with a key, and
/// goes before a character.
pub open spec fn served_before(
    ctx: &OptContext,
    s: &SimpleEvaluator,
    li: int,
    core: Seq<u8>,
    k: u8,
    ci: int,
) -> Seq<int> {
    Seq::new(
        ctx.char_infos@.len(),
        |cx: int|
            if s.sel.levels@[li].selected@[cx] && s.sel.levels@[li].sel_keys@[cx]@ == core.push(k)
                && ranks_before(ctx, s, li, cx, ci) {
                1int
            } else {
                0
            },
    )
}

/// A filtered list keeps the order.
proof fn filter_keeps_order(x: Seq<u8>, keeps: spec_fn(u8) -> bool, p: int, q: int)
    requires
        x.no_duplicates(),
        0 <= p < q < x.filter(keeps).len(),
    ensures
        x.index_of(x.filter(keeps)[p]) < x.index_of(x.filter(keeps)[q]),
        x.filter(keeps)[p] != x.filter(keeps)[q],
    decreases x.len(),
{
    reveal(Seq::filter);
    if x.len() > 0 {
        let front = x.drop_last();
        let kept = front.filter(keeps);
        assert(front.no_duplicates());
        assert(x.filter(keeps) == if keeps(x.last()) {
            kept.push(x.last())
        } else {
            kept
        });
        assert forall|r: int| 0 <= r < kept.len() implies x.index_of(#[trigger] kept[r]) == front.index_of(
            kept[r],
        ) && front.index_of(kept[r]) < front.len() && x.filter(keeps)[r] == kept[r] by {
            let k = kept[r];
            assert(kept.contains(k));
            front.lemma_filter_contains_rev(keeps, k);
            let i = front.index_of(k);
            assert(front[i] == k && x[i] == k);
            assert(x.contains(k));
            let j = x.index_of(k);
            assert(x[j] == k);
        }
        if q < kept.len() {
            filter_keeps_order(front, keeps, p, q);
            let (a, b) = (kept[p], kept[q]);
        } else {
            let (a, l) = (kept[p], x[x.len() - 1]);
            assert(x.filter(keeps)[q] == l);
            assert(x.contains(l));
            let j = x.index_of(l);
            assert(x[j] == l);
            assert(j == x.len() - 1);
        }
    }
}

/// How many keys like the one at a place come before it: fewer than there are rounds, and as many as
/// there were rounds before the last where it is handed out in the last.
proof fn turn_told(ctx: &OptContext, li: int, code: u32, rounds: nat, p: int)
    requires
        ctx.preference(li, code).no_duplicates(),
        rounds > 0,
        0 <= p < ctx.commit_sequence(li, code, rounds).len(),
    ensures
        ({
            let all = ctx.commit_sequence(li, code, rounds);
            let front = ctx.commit_sequence(li, code, (rounds - 1) as nat);
            let turn = key_count(all.take(p), all[p] as int);
            if p < front.len() {
                turn < rounds - 1 && turn == key_count(front.take(p), front[p] as int) && all[p] == front[p]
            } else {
                turn == rounds - 1
            }
        }),
{
    let all = ctx.commit_sequence(li, code, rounds);
    let before = (rounds - 1) as nat;
    let front = ctx.commit_sequence(li, code, before);
    let now = ctx.round_keys(li, code, rounds - 1);
    let k = all[p];
    handed_out(ctx, li, code, before, k);
    assert(all == front + now);
    if p < front.len() {
        assert(all.take(p) =~= front.take(p));
        assert(front.take(p + 1).drop_last() =~= front.take(p));
        assert(front.take(p + 1).last() == k);
        key_count_grows(front, p + 1, k);
    } else {
        let r = p - front.len();
        let pref = ctx.preference(li, code);
        let keeps = |x: u8| ctx.key_room(li, code, x) > rounds - 1;
        assert(now == pref.filter(keeps));
        assert(now[r] == k);
        assert(now.contains(k));
        pref.lemma_filter_contains_rev(keeps, k);
        pref.lemma_filter_pred(keeps, r);
        assert(all.take(p) =~= front + now.take(r));
        key_count_both(front, now.take(r), k);
        absent_before(pref, keeps, r, r);
    }
}

/// A key of a filtered list without repetitions does not occur before.
proof fn absent_before(pref: Seq<u8>, keeps: spec_fn(u8) -> bool, r: int, i: int)
    requires
        pref.no_duplicates(),
        0 <= i <= r < pref.filter(keeps).len(),
    ensures
        key_count(pref.filter(keeps).take(i), pref.filter(keeps)[r] as int) == 0,
    decreases i,
{
    let now = pref.filter(keeps);
    if i > 0 {
        absent_before(pref, keeps, r, i - 1);
        assert(now.take(i).drop_last() =~= now.take(i - 1));
        filter_keeps_order(pref, keeps, i - 1, r);
    }
}

/// The keys come in rounds, and in each round in order of preference.
proof fn in_rounds(ctx: &OptContext, li: int, code: u32, rounds: nat, p: int, q: int)
    requires
        ctx.preference(li, code).no_duplicates(),
        0 <= p < q < ctx.commit_sequence(li, code, rounds).len(),
    ensures
        ({
            let all = ctx.commit_sequence(li, code, rounds);
            let pref = ctx.preference(li, code);
            let a = key_count(all.take(p), all[p] as int);
            let b = key_count(all.take(q), all[q] as int);
            a < b || (a == b && pref.index_of(all[p]) < pref.index_of(all[q]))
        }),
    decreases rounds,
{
    if rounds > 0 {
        let all = ctx.commit_sequence(li, code, rounds);
        let before = (rounds - 1) as nat;
        let front = ctx.commit_sequence(li, code, before);
        turn_told(ctx, li, code, rounds, p);
        turn_told(ctx, li, code, rounds, q);
        if q < front.len() {
            in_rounds(ctx, li, code, before, p, q);
        } else if p >= front.len() {
            let pref = ctx.preference(li, code);
            let keeps = |x: u8| ctx.key_room(li, code, x) > rounds - 1;
            assert(ctx.round_keys(li, code, rounds - 1) == pref.filter(keeps));
            filter_keeps_order(pref, keeps, p - front.len(), q - front.len());
        }
    }
}

/// How many of those who have a code with a key go before a member of the bucket.
proof fn served_told(ctx: &OptContext, s: &SimpleEvaluator, li: int, core: Seq<u8>, m: Seq<u32>, i: int, k: u8)
    requires
        ctx.wf_full(),
        ctx.wf_simple(),
        s.inv(ctx),
        0 <= li < ctx.n_levels(),
        ctx.simple_config.levels@[li].commit_keys@.len() > 0,
        short_keys(core),
        0 <= i < m.len(),
        i < terms_for(ctx, s.at@).quota(ctx, li, encode(core) as u32),
        m.no_duplicates(),
        forall|i: int|
            #![trigger m[i]]
            0 <= i < m.len() ==> {
                &&& m[i] < ctx.n()
                &&& crate::simple_laws::contends(ctx, s, li, m[i] as int)
                &&& core_of(ctx, s.at@, m[i] as int, li) == core
                &&& s.sel.levels@[li].selected@[m[i] as int] == (i < terms_for(ctx, s.at@).quota(
                    ctx,
                    li,
                    encode(core) as u32,
                ))
                &&& i < terms_for(ctx, s.at@).quota(ctx, li, encode(core) as u32)
                    ==> s.sel.levels@[li].sel_keys@[m[i] as int]@ == match ctx.commit_key(
                    li,
                    encode(core) as u32,
                    i,
                ) {
                    Some(k) => core.push(k),
                    None => core,
                }
            },
        forall|ci: int|
            0 <= ci < ctx.n() && #[trigger] crate::simple_laws::contends(ctx, s, li, ci) && core_of(
                ctx,
                s.at@,
                ci,
                li,
            ) == core ==> m.contains(ci as u32),
        forall|i: int, j: int|
            #![trigger m[i], m[j]]
            0 <= i < j < m.len() ==> terms_for(ctx, s.at@).rank_key(ctx, li, m[i] as int).before(
                terms_for(ctx, s.at@).rank_key(ctx, li, m[j] as int),
            ),
    ensures
        ({
            let seq = ctx.commit_sequence(
                li,
                encode(core) as u32,
                ctx.simple_config.levels@[li].code_num as nat,
            );
            &&& i < seq.len()
            &&& sum(served_before(ctx, s, li, core, k, m[i] as int)) == key_count(seq.take(i), k as int)
        }),
{
    let code = encode(core) as u32;
    let seq = ctx.commit_sequence(li, code, ctx.simple_config.levels@[li].code_num as nat);
    ctx.commit_keys_match_slots(li, code);
    let g = served_before(ctx, s, li, core, k, m[i] as int);
    assert forall|ci: int| 0 <= ci < g.len() && #[trigger] g[ci] != 0 implies m.contains(ci as u32) by {
        simple_codes_go_to_contenders(ctx, s, ci);
        assert(s.sel.levels@[li].selected@[ci]);
        crate::room_laws::keys_begin_with_core(ctx, s, li, ci);
        assert(core.push(k).drop_last() =~= core);
    }
    sum_over_bucket(ctx, m, g);
    let part = seq.take(i);
    let picked = Seq::new(m.len(), |j: int| g[m[j] as int]);
    let first = Seq::new(m.len(), |j: int| if j < part.len() && part[j] == k { 1int } else { 0 });
    assert(picked =~= first) by {
        assert forall|j: int| 0 <= j < m.len() implies picked[j] == first[j] by {
            let (x, y) = (m[i], m[j]);
            rank_told(ctx, s, li, m[j] as int, m[i] as int);
            rank_told(ctx, s, li, m[i] as int, m[j] as int);
            if j < terms_for(ctx, s.at@).quota(ctx, li, code) {
                assert(ctx.commit_key(li, code, j) == Some(seq[j]));
                if core.push(seq[j]) == core.push(k) {
                    assert(core.push(seq[j]).last() == core.push(k).last());
                }
            }
        }
    }
    key_count_of_front(part, m.len(), k);
}

/// The commit keys of a code are handed out in rounds, those who go before others first, and in each
/// round in order of preference. Of two who have the code, the one who goes before the other was served
/// in an earlier round, or in the same with a key that is preferred to the other's. The round is told
/// by those who have the same key and go before.
pub proof fn commit_keys_in_turn(
    ctx: &OptContext,
    s: &SimpleEvaluator,
    li: int,
    core: Seq<u8>,
    ci: int,
    cj: int,
)
    requires
        ctx.wf_full(),
        ctx.wf_simple(),
        s.inv(ctx),
        0 <= li < ctx.simple_config.levels@.len(),
        ctx.simple_config.levels@[li].commit_keys@.len() > 0,
        short_keys(core),
        commit_choices(ctx, li, core).no_duplicates(),
        0 <= ci < ctx.char_infos@.len(),
        0 <= cj < ctx.char_infos@.len(),
        s.sel.levels@[li].selected@[ci],
        s.sel.levels@[li].selected@[cj],
        core_of(ctx, s.at@, ci, li) == core,
        core_of(ctx, s.at@, cj, li) == core,
        ranks_before(ctx, s, li, ci, cj),
    ensures
        ({
            let pref = commit_choices(ctx, li, core);
            let k = s.sel.levels@[li].sel_keys@[ci]@.last();
            let l = s.sel.levels@[li].sel_keys@[cj]@.last();
            let a = sum(served_before(ctx, s, li, core, k, ci));
            let b = sum(served_before(ctx, s, li, core, l, cj));
            a < b || (a == b && pref.index_of(k) < pref.index_of(l))
        }),
{
    let code = encode(core) as u32;
    short_code_fits(core);
    let k = s.sel.levels@[li].sel_keys@[ci]@.last();
    let l = s.sel.levels@[li].sel_keys@[cj]@.last();
    choices_told(ctx, li, core, k);
    let m = bucket_of(ctx, s, li, core);
    simple_codes_go_to_contenders(ctx, s, ci);
    simple_codes_go_to_contenders(ctx, s, cj);
    assert(m.contains(ci as u32) && m.contains(cj as u32));
    let i = m.index_of(ci as u32);
    let j = m.index_of(cj as u32);
    assert(m[i] == ci as u32 && m[j] == cj as u32);
    rank_told(ctx, s, li, ci, cj);
    rank_told(ctx, s, li, cj, ci);
    assert(i < j);
    let rounds = ctx.simple_config.levels@[li].code_num as nat;
    let seq = ctx.commit_sequence(li, code, rounds);
    served_told(ctx, s, li, core, m, i, k);
    served_told(ctx, s, li, core, m, j, l);
    assert(ctx.commit_key(li, code, i) == Some(seq[i]));
    assert(ctx.commit_key(li, code, j) == Some(seq[j]));
    assert(core.push(seq[i]).last() == seq[i] && core.push(seq[j]).last() == seq[j]);
    in_rounds(ctx, li, code, rounds, i, j);
}

} // verus!
