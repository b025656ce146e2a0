//! What full codes, their collisions and the key strokes are, told by the parts of the characters and
//! the assignment alone.

use vstd::arithmetic::div_mod::lemma_div_denominator;
use vstd::arithmetic::power::{lemma_pow0, lemma_pow1, lemma_pow_adds, lemma_pow_positive, pow};
use vstd::prelude::*;

use crate::codes::{encode, part_keys, part_keys_are_keys};
use crate::collisions::{
    counts, excess, excess_by_code, hidden_by_code, hidden_freq, max_of_unique, nobody, ones, sum_by_code,
    total_excess, total_hidden, values_at, weights,
};
use crate::context::OptContext;
use crate::evaluator::Evaluator;
use crate::key_usage::{usage, usage_terms};
use crate::sums::{sum, sum_at_least, sum_constant, sum_plus, sum_update, sum_zero};
use crate::totals::{key_count, COVERED, PRESSES};
use crate::types::{CharInfo, GROUP_MARKER};

verus! {

/// A sum is what adding up the elements from the left gives.
pub proof fn sum_adds_up(s: Seq<int>)
    ensures
        sum(s) == s.fold_left(0int, |acc: int, x: int| acc + x),
    decreases s.len(),
{
    reveal_with_fuel(Seq::fold_left, 2);
    if s.len() > 0 {
        sum_adds_up(s.drop_last());
    }
}

/// The keys that a character's parts stand for: a key stands for itself, a group for the key that it
/// is on.
pub open spec fn keys_of_parts(parts: Seq<u16>, a: Seq<u8>) -> Seq<u8> {
    parts.map_values(
        |p: u16|
            if p < GROUP_MARKER {
                p as u8
            } else {
                a[p - GROUP_MARKER]
            },
    )
}

/// The keys of a full code are those that its parts stand for.
pub(crate) proof fn full_keys_by_parts(ctx: &OptContext, a: Seq<u8>, ci: int)
    ensures
        ctx.full_keys(a, ci) == keys_of_parts(ctx.char_infos@[ci].parts@, a),
{
    assert(part_keys(ctx.parts(ci), a) =~= keys_of_parts(ctx.char_infos@[ci].parts@, a));
}

/// The digits of a code, in base 32, are the keys plus one.
pub(crate) proof fn digits_of_code(keys: Seq<u8>, i: int)
    requires
        forall|j: int| 0 <= j < keys.len() ==> (#[trigger] keys[j]) < 31,
        0 <= i < keys.len(),
    ensures
        (encode(keys) as int / pow(32, (keys.len() - 1 - i) as nat)) % 32 == keys[i] + 1,
    decreases keys.len(),
{
    let front = keys.drop_last();
    let e = encode(front) as int;
    let d = keys.last() as int + 1;
    assert(keys[keys.len() - 1] < 31);
    let m = (keys.len() - 1 - i) as nat;
    lemma_pow0(32);
    lemma_pow1(32);
    if i == keys.len() - 1 {
        assert((e * 32 + d) % 32 == d) by (nonlinear_arith)
            requires
                0 <= d < 32,
        ;
        assert((e * 32 + d) / 1 == e * 32 + d);
    } else {
        assert forall|j: int| 0 <= j < front.len() implies (#[trigger] front[j]) < 31 by {
            assert(front[j] == keys[j]);
        }
        digits_of_code(front, i);
        let k = (m - 1) as nat;
        lemma_pow_adds(32, 1, k);
        lemma_pow_positive(32, k);
        lemma_div_denominator(e * 32 + d, 32, pow(32, k));
        assert((e * 32 + d) / 32 == e) by (nonlinear_arith)
            requires
                0 <= d < 32,
        ;
    }
}

/// A full code is a numeral in base 32 with a digit for each part: the key that the part stands for,
/// plus one. There is no further digit, so no two sequences of keys have the same code.
pub proof fn full_code_digits(ctx: &OptContext, a: Seq<u8>, e: &Evaluator, ci: int)
    requires
        ctx.wf_full(),
        e.in_step(ctx, a),
        0 <= ci < ctx.char_infos@.len(),
    ensures
        ({
            let keys = keys_of_parts(ctx.char_infos@[ci].parts@, a);
            let code = e.full.current_codes@[ci] as int;
            &&& keys.len() == ctx.char_infos@[ci].parts@.len()
            &&& code < pow(32, keys.len())
            &&& forall|i: int|
                #![trigger keys[i]]
                0 <= i < keys.len() ==> (code / pow(32, (keys.len() - 1 - i) as nat)) % 32 == keys[i] + 1
        }),
{
    let keys = keys_of_parts(ctx.char_infos@[ci].parts@, a);
    full_keys_by_parts(ctx, a, ci);
    ctx.full_code_bound(a, ci);
    let info = ctx.char_infos@[ci];
    part_keys_are_keys(ctx.parts(ci), a);
    crate::codes::encode_bound(keys);
    lemma_pow_positive(32, keys.len());
    assert(e.full.current_codes@[ci] == ctx.full_code(a, ci));
    assert forall|i: int| #![trigger keys[i]] 0 <= i < keys.len() implies (e.full.current_codes@[ci] as int
        / pow(32, (keys.len() - 1 - i) as nat)) % 32 == keys[i] + 1 by {
        digits_of_code(keys, i);
    }
}

/// Whether a character goes before another where both have one code: it is more frequent, or as
/// frequent and earlier.
pub open spec fn goes_before(infos: Seq<CharInfo>, ci: int, cj: int) -> bool {
    infos[ci].frequency > infos[cj].frequency || (infos[ci].frequency == infos[cj].frequency && ci < cj)
}

/// Whether a character stands behind another one: both count, have the same code, and the other one
/// goes before it.
pub open spec fn stands_behind(infos: Seq<CharInfo>, codes: Seq<u32>, left_out: Seq<bool>, ci: int) -> bool {
    !left_out[ci] && exists|cj: int|
        #![trigger codes[cj]]
        0 <= cj < infos.len() && codes[cj] == codes[ci] && !left_out[cj] && goes_before(infos, cj, ci)
}

/// Who is marked as shown first: nobody with the same code goes before.
pub proof fn first_is_behind_nobody(ctx: &OptContext, a: Seq<u8>, e: &Evaluator, ci: int)
    requires
        e.in_step(ctx, a),
        e.simple_active,
        0 <= ci < ctx.char_infos@.len(),
    ensures
        e.full.is_first_candidate@[ci] <==> forall|cj: int|
            #![trigger e.full.current_codes@[cj]]
            0 <= cj < ctx.char_infos@.len() && e.full.current_codes@[cj] == e.full.current_codes@[ci]
                ==> !goes_before(ctx.char_infos@, cj, ci),
{
    let codes = e.full.current_codes@;
    assert(e.full.is_first_candidate@[ci] == crate::full_codes::is_best(ctx, codes, ci));
}

/// Of those who count with a code among the first `k`, one goes before all others.
proof fn leader(ctx: &OptContext, codes: Seq<u32>, left_out: Seq<bool>, c: u32, k: int) -> (l: int)
    requires
        0 <= k <= ctx.n(),
        exists|ci: int| 0 <= ci < k && counts(codes, left_out, c, ci),
    ensures
        0 <= l < k,
        counts(codes, left_out, c, l),
        forall|cj: int|
            #![trigger codes[cj]]
            0 <= cj < k && counts(codes, left_out, c, cj) && cj != l ==> goes_before(
                ctx.char_infos@,
                l,
                cj,
            ),
    decreases k,
{
    let last = k - 1;
    if exists|ci: int| 0 <= ci < last && counts(codes, left_out, c, ci) {
        let l = leader(ctx, codes, left_out, c, last);
        if counts(codes, left_out, c, last) && goes_before(ctx.char_infos@, last, l) {
            last
        } else {
            l
        }
    } else {
        last
    }
}

/// What those behind others with a code add up to is what the code hides.
proof fn behind_with_code(ctx: &OptContext, codes: Seq<u32>, left_out: Seq<bool>, c: u32)
    requires
        codes.len() == ctx.n(),
        left_out.len() == ctx.n(),
    ensures
        sum(
            Seq::new(
                ctx.n(),
                |ci: int|
                    if codes[ci] == c && stands_behind(ctx.char_infos@, codes, left_out, ci) {
                        1int
                    } else {
                        0
                    },
            ),
        ) == excess(ctx, codes, left_out, c),
        sum(
            Seq::new(
                ctx.n(),
                |ci: int|
                    if codes[ci] == c && stands_behind(ctx.char_infos@, codes, left_out, ci) {
                        ctx.char_infos@[ci].frequency as int
                    } else {
                        0
                    },
            ),
        ) == hidden_freq(ctx, codes, left_out, c),
{
    let infos = ctx.char_infos@;
    let n = ctx.n();
    let one = ones(ctx, codes, left_out, c);
    let weight = weights(ctx, codes, left_out, c);
    let b1 = Seq::new(
        n,
        |ci: int|
            if codes[ci] == c && stands_behind(infos, codes, left_out, ci) {
                1int
            } else {
                0
            },
    );
    let bf = Seq::new(
        n,
        |ci: int|
            if codes[ci] == c && stands_behind(infos, codes, left_out, ci) {
                infos[ci].frequency as int
            } else {
                0
            },
    );
    if exists|ci: int| 0 <= ci < n && counts(codes, left_out, c, ci) {
        let l = leader(ctx, codes, left_out, c, n as int);
        assert forall|ci: int| 0 <= ci < n implies (codes[ci] == c && stands_behind(
            infos,
            codes,
            left_out,
            ci,
        ) <==> counts(codes, left_out, c, ci) && ci != l) by {
            if counts(codes, left_out, c, ci) && ci != l {
                let x = codes[ci];
                let y = codes[l];
                assert(goes_before(infos, l, ci));
            }
        }
        assert(b1 =~= one.update(l, 0));
        assert(bf =~= weight.update(l, 0));
        sum_update(one, l, 0);
        sum_update(weight, l, 0);
        sum_at_least(one, l);
        assert forall|i: int| 0 <= i < weight.len() implies #[trigger] weight[i] <= weight[l] by {
            let x = codes[i];
        }
        assert(weight[l] == ctx.freq(l));
        max_of_unique(weight, weight[l]);
    } else {
        assert forall|ci: int| 0 <= ci < n implies b1[ci] == 0 && bf[ci] == 0 by {
            assert(!counts(codes, left_out, c, ci));
        }
        sum_zero(one);
        sum_zero(weight);
        sum_zero(b1);
        sum_zero(bf);
        max_of_unique(weight, 0);
    }
}

/// What is hidden under all codes is what those behind others add up to.
pub(crate) proof fn totals_by_behind(ctx: &OptContext, codes: Seq<u32>, left_out: Seq<bool>)
    requires
        ctx.wf_full(),
        codes.len() == ctx.n(),
        left_out.len() == ctx.n(),
        forall|i: int| 0 <= i < codes.len() ==> (#[trigger] codes[i]) < ctx.code_space,
    ensures
        total_excess(ctx, codes, left_out) == sum(
            Seq::new(
                ctx.char_infos@.len(),
                |ci: int|
                    if stands_behind(ctx.char_infos@, codes, left_out, ci) {
                        1int
                    } else {
                        0
                    },
            ),
        ),
        total_hidden(ctx, codes, left_out) == sum(
            Seq::new(
                ctx.char_infos@.len(),
                |ci: int|
                    if stands_behind(ctx.char_infos@, codes, left_out, ci) {
                        ctx.char_infos@[ci].frequency as int
                    } else {
                        0
                    },
            ),
        ),
{
    let infos = ctx.char_infos@;
    let n = ctx.n();
    let one = Seq::new(n, |ci: int| if stands_behind(infos, codes, left_out, ci) { 1int } else { 0 });
    let freq = Seq::new(
        n,
        |ci: int|
            if stands_behind(infos, codes, left_out, ci) {
                infos[ci].frequency as int
            } else {
                0
            },
    );
    let space = ctx.code_space as nat;
    sum_by_code(codes, one, space);
    sum_by_code(codes, freq, space);
    crate::codes::space_monotone(ctx.max_parts as nat, 6);
    crate::codes::space_values();
    assert(excess_by_code(ctx, codes, left_out) =~= Seq::new(
        space,
        |c: int| sum(values_at(codes, one, c)),
    )) by {
        assert forall|c: int| 0 <= c < space implies excess(ctx, codes, left_out, c as u32) == sum(
            #[trigger] values_at(codes, one, c),
        ) by {
            behind_with_code(ctx, codes, left_out, c as u32);
            let b = Seq::new(
                n,
                |ci: int|
                    if codes[ci] == c as u32 && stands_behind(infos, codes, left_out, ci) {
                        1int
                    } else {
                        0
                    },
            );
            assert(values_at(codes, one, c) =~= b);
        }
    }
    assert(hidden_by_code(ctx, codes, left_out) =~= Seq::new(
        space,
        |c: int| sum(values_at(codes, freq, c)),
    )) by {
        assert forall|c: int| 0 <= c < space implies hidden_freq(ctx, codes, left_out, c as u32) == sum(
            #[trigger] values_at(codes, freq, c),
        ) by {
            behind_with_code(ctx, codes, left_out, c as u32);
            let b = Seq::new(
                n,
                |ci: int|
                    if codes[ci] == c as u32 && stands_behind(infos, codes, left_out, ci) {
                        infos[ci].frequency as int
                    } else {
                        0
                    },
            );
            assert(values_at(codes, freq, c) =~= b);
        }
    }
}

/// Counting the numbers of a set one by one counts the set.
proof fn set_counted(s: Set<u32>, space: nat)
    requires
        s.finite(),
        space <= u32::MAX,
        forall|c: u32| #[trigger] s.contains(c) ==> c < space,
    ensures
        sum(Seq::new(space, |c: int| if s.contains(c as u32) { 1int } else { 0 })) == s.len(),
    decreases space,
{
    let d = Seq::new(space, |c: int| if s.contains(c as u32) { 1int } else { 0 });
    if space == 0 {
        assert(s =~= Set::empty());
    } else {
        let last = (space - 1) as u32;
        let rest = s.remove(last);
        let before = (space - 1) as nat;
        assert forall|c: u32| #[trigger] rest.contains(c) implies c < before by {
            assert(s.contains(c));
        }
        set_counted(rest, before);
        assert(d.drop_last() =~= Seq::new(
            before,
            |c: int| if rest.contains(c as u32) { 1int } else { 0 },
        ));
        if !s.contains(last) {
            assert(rest =~= s);
        }
    }
}

/// The collisions of an assignment are the characters that stand behind another one with the same full
/// code: as many as there are characters beyond the number of different codes. Their frequency is
/// what collides.
pub proof fn collisions_are_those_behind(ctx: &OptContext, a: Seq<u8>, e: &Evaluator)
    requires
        ctx.wf_full(),
        e.in_step(ctx, a),
    ensures
        ({
            let infos = ctx.char_infos@;
            let codes = e.full.current_codes@;
            let behind = |ci: int|
                exists|cj: int|
                    #![trigger codes[cj]]
                    0 <= cj < infos.len() && codes[cj] == codes[ci] && goes_before(infos, cj, ci);
            &&& e.full.total_collisions == infos.len() - codes.to_set().len()
            &&& e.full.total_collisions == sum(
                Seq::new(infos.len(), |ci: int| if behind(ci) { 1int } else { 0 }),
            )
            &&& e.full.collision_frequency == sum(
                Seq::new(infos.len(), |ci: int| if behind(ci) { infos[ci].frequency as int } else { 0 }),
            )
        }),
{
    let infos = ctx.char_infos@;
    let codes = e.full.current_codes@;
    let n = ctx.n();
    let out = nobody(n);
    let behind = |ci: int|
        exists|cj: int|
            #![trigger codes[cj]]
            0 <= cj < infos.len() && codes[cj] == codes[ci] && goes_before(infos, cj, ci);
    assert forall|i: int| 0 <= i < codes.len() implies (#[trigger] codes[i]) < ctx.code_space by {
        ctx.full_code_bound(a, i);
    }
    totals_by_behind(ctx, codes, out);
    assert forall|ci: int| 0 <= ci < n implies behind(ci) == stands_behind(infos, codes, out, ci) by {
        if behind(ci) {
            let cj = choose|cj: int|
                #![trigger codes[cj]]
                0 <= cj < infos.len() && codes[cj] == codes[ci] && goes_before(infos, cj, ci);
            let x = codes[cj];
        }
    }
    assert(Seq::new(infos.len(), |ci: int| if behind(ci) { 1int } else { 0 }) =~= Seq::new(
        n,
        |ci: int| if stands_behind(infos, codes, out, ci) { 1int } else { 0 },
    ));
    assert(Seq::new(infos.len(), |ci: int| if behind(ci) { infos[ci].frequency as int } else { 0 })
        =~= Seq::new(
        n,
        |ci: int| if stands_behind(infos, codes, out, ci) { infos[ci].frequency as int } else { 0 },
    ));
    distinct_codes(ctx, codes);
}

/// The characters beyond the number of different codes are those that share one.
proof fn distinct_codes(ctx: &OptContext, codes: Seq<u32>)
    requires
        ctx.wf_full(),
        codes.len() == ctx.n(),
        forall|i: int| 0 <= i < codes.len() ==> (#[trigger] codes[i]) < ctx.code_space,
    ensures
        total_excess(ctx, codes, nobody(ctx.n())) == ctx.n() - codes.to_set().len(),
{
    let n = ctx.n();
    let out = nobody(n);
    let space = ctx.code_space as nat;
    crate::codes::space_monotone(ctx.max_parts as nat, 6);
    crate::codes::space_values();
    let one = Seq::new(n, |i: int| 1int);
    sum_constant(n, 1);
    sum_by_code(codes, one, space);
    let all = Seq::new(space, |c: int| sum(values_at(codes, one, c)));
    let x = excess_by_code(ctx, codes, out);
    let d = Seq::new(space, |c: int| if codes.to_set().contains(c as u32) { 1int } else { 0 });
    vstd::seq_lib::seq_to_set_is_finite(codes);
    set_counted(codes.to_set(), space);
    assert forall|c: int| 0 <= c < space implies #[trigger] all[c] == x[c] + d[c] by {
        let o = ones(ctx, codes, out, c as u32);
        assert(values_at(codes, one, c) =~= o);
        if codes.contains(c as u32) {
            let i = codes.index_of(c as u32);
            assert(o[i] == 1);
            sum_at_least(o, i);
        } else {
            assert forall|i: int| 0 <= i < o.len() implies o[i] == 0 by {
                if codes[i] == c as u32 {
                    assert(codes.contains(c as u32));
                }
            }
            sum_zero(o);
        }
    }
    assert(all =~= Seq::new(x.len(), |c: int| x[c] + d[c]));
    sum_plus(x, d);
}

/// A key occurs as often as the keys equal to it are many.
pub(crate) proof fn key_count_occurs(keys: Seq<u8>, k: u8)
    ensures
        key_count(keys, k as int) == keys.to_multiset().count(k),
    decreases keys.len(),
{
    broadcast use vstd::seq_lib::group_to_multiset_ensures;

    if keys.len() > 0 {
        key_count_occurs(keys.drop_last(), k);
        assert(keys =~= keys.drop_last().push(keys.last()));
    } else {
        assert(!keys.contains(k));
    }
}

/// The occurrences of all keys are the keys.
proof fn all_keys_counted(keys: Seq<u8>)
    requires
        forall|j: int| 0 <= j < keys.len() ==> (#[trigger] keys[j]) < 31,
    ensures
        sum(Seq::new(31, |k: int| key_count(keys, k))) == keys.len(),
    decreases keys.len(),
{
    let s = Seq::new(31, |k: int| key_count(keys, k));
    if keys.len() == 0 {
        sum_zero(s);
    } else {
        let front = keys.drop_last();
        assert forall|j: int| 0 <= j < front.len() implies (#[trigger] front[j]) < 31 by {
            assert(front[j] == keys[j]);
        }
        all_keys_counted(front);
        let t = Seq::new(31, |k: int| key_count(front, k));
        let x = keys[keys.len() - 1] as int;
        assert(s =~= t.update(x, t[x] + 1));
        sum_update(t, x, t[x] + 1);
    }
}

/// What characters with keys add to the keys, each weighted, is what they add to the strokes.
pub(crate) proof fn strokes_are_all_keys(freqs: Seq<int>, keys: Seq<Seq<u8>>)
    requires
        freqs.len() == keys.len(),
        forall|ci: int, j: int|
            #![trigger keys[ci][j]]
            0 <= ci < keys.len() && freqs[ci] != 0 && 0 <= j < keys[ci].len() ==> keys[ci][j] < 31,
    ensures
        sum(
            Seq::new(
                31,
                |k: int| sum(Seq::new(freqs.len(), |ci: int| freqs[ci] * key_count(keys[ci], k))),
            ),
        ) == sum(Seq::new(freqs.len(), |ci: int| freqs[ci] * keys[ci].len())),
    decreases freqs.len(),
{
    let by_key = Seq::new(
        31,
        |k: int| sum(Seq::new(freqs.len(), |ci: int| freqs[ci] * key_count(keys[ci], k))),
    );
    let strokes = Seq::new(freqs.len(), |ci: int| freqs[ci] * keys[ci].len());
    if freqs.len() == 0 {
        assert forall|k: int| 0 <= k < 31 implies by_key[k] == 0 by {
            sum_zero(Seq::new(freqs.len(), |ci: int| freqs[ci] * key_count(keys[ci], k)));
        }
        sum_zero(by_key);
        sum_zero(strokes);
    } else {
        let (f1, k1) = (freqs.drop_last(), keys.drop_last());
        let (f, ks) = (freqs.last(), keys.last());
        let l = freqs.len() - 1;
        assert forall|ci: int, j: int|
            #![trigger k1[ci][j]]
            0 <= ci < k1.len() && f1[ci] != 0 && 0 <= j < k1[ci].len() implies k1[ci][j] < 31 by {
            assert(keys[ci][j] == k1[ci][j]);
        }
        strokes_are_all_keys(f1, k1);
        let by_key1 = Seq::new(
            31,
            |k: int| sum(Seq::new(f1.len(), |ci: int| f1[ci] * key_count(k1[ci], k))),
        );
        let units = Seq::new(31, |k: int| key_count(ks, k));
        let more = Seq::new(31, |k: int| f * units[k]);
        assert forall|k: int| 0 <= k < 31 implies #[trigger] by_key[k] == by_key1[k] + more[k] by {
            let s = Seq::new(freqs.len(), |ci: int| freqs[ci] * key_count(keys[ci], k));
            assert(s.drop_last() =~= Seq::new(f1.len(), |ci: int| f1[ci] * key_count(k1[ci], k)));
            assert(s.last() == f * key_count(ks, k));
        }
        assert(by_key =~= Seq::new(by_key1.len(), |k: int| by_key1[k] + more[k]));
        sum_plus(by_key1, more);
        assert(more =~= Seq::new(units.len(), |k: int| f * units[k]));
        crate::sums::sum_scaled(units, f);
        if f != 0 {
            assert forall|j: int| 0 <= j < ks.len() implies (#[trigger] ks[j]) < 31 by {
                assert(keys[l][j] == ks[j]);
            }
            all_keys_counted(ks);
        } else {
            assert(f * sum(units) == 0 && f * ks.len() == 0) by (nonlinear_arith)
                requires
                    f == 0,
            ;
        }
        assert(strokes.drop_last() =~= Seq::new(f1.len(), |ci: int| f1[ci] * k1[ci].len()));
        assert(strokes.last() == f * ks.len());
    }
}

/// The cells of the keys, added up.
pub open spec fn key_cells(cells: Seq<u128>) -> Seq<int> {
    Seq::new(31, |k: int| cells[k] as int)
}

/// The key strokes of the full codes: each key is pressed, for each character, as often as it occurs
/// among the keys that the parts stand for, times the frequency; and all strokes together are those
/// of all keys, that is one for each part of each character. Every character counts once as covered.
pub proof fn strokes_of_full_codes(ctx: &OptContext, a: Seq<u8>, e: &Evaluator)
    requires
        ctx.wf_full(),
        e.in_step(ctx, a),
    ensures
        ({
            let infos = ctx.char_infos@;
            let cells = e.key_weighted_usage.cells@;
            &&& cells[PRESSES as int] == sum(key_cells(cells))
            &&& cells[PRESSES as int] == sum(
                Seq::new(infos.len(), |ci: int| infos[ci].frequency * infos[ci].parts@.len()),
            )
            &&& cells[COVERED as int] == sum(Seq::new(infos.len(), |ci: int| infos[ci].frequency as int))
            &&& forall|k: u8|
                #![trigger cells[k as int]]
                k < 31 ==> cells[k as int] == sum(
                    Seq::new(
                        infos.len(),
                        |ci: int|
                            infos[ci].frequency * keys_of_parts(
                                infos[ci].parts@,
                                a,
                            ).to_multiset().count(k),
                    ),
                )
        }),
{
    let infos = ctx.char_infos@;
    let n = ctx.n();
    let t = e.key_weighted_usage;
    let cells = t.cells@;
    let freqs = ctx.freqs();
    let keys = Seq::new(n, |ci: int| ctx.full_keys(a, ci));
    assert forall|ci: int, j: int|
        #![trigger keys[ci][j]]
        0 <= ci < keys.len() && 0 <= j < keys[ci].len() implies keys[ci][j] < 31 by {
        let info = infos[ci];
        part_keys_are_keys(ctx.parts(ci), a);
    }
    strokes_are_all_keys(freqs, keys);
    assert(cells[PRESSES as int] == usage(ctx, a, PRESSES as int));
    assert(cells[COVERED as int] == usage(ctx, a, COVERED as int));
    assert(usage_terms(ctx, a, PRESSES as int) =~= Seq::new(n, |ci: int| freqs[ci] * keys[ci].len()));
    assert(usage_terms(ctx, a, PRESSES as int) =~= Seq::new(
        infos.len(),
        |ci: int| infos[ci].frequency * infos[ci].parts@.len(),
    ));
    assert(usage_terms(ctx, a, COVERED as int) =~= Seq::new(
        infos.len(),
        |ci: int| infos[ci].frequency as int,
    )) by {
        assert forall|ci: int| 0 <= ci < n implies ctx.freq(ci) * 1 == ctx.freq(ci) by {}
    }
    let by_key = Seq::new(
        31,
        |k: int| sum(Seq::new(freqs.len(), |ci: int| freqs[ci] * key_count(keys[ci], k))),
    );
    assert forall|k: int| 0 <= k < 31 implies #[trigger] cells[k] == by_key[k] by {
        assert(cells[k] == usage(ctx, a, k));
        assert(usage_terms(ctx, a, k) =~= Seq::new(
            freqs.len(),
            |ci: int| freqs[ci] * key_count(keys[ci], k),
        ));
    }
    assert(key_cells(cells) =~= by_key);
    assert forall|k: u8| #![trigger cells[k as int]] k < 31 implies cells[k as int] == sum(
        Seq::new(
            infos.len(),
            |ci: int|
                infos[ci].frequency * keys_of_parts(infos[ci].parts@, a).to_multiset().count(k),
        ),
    ) by {
        assert(cells[k as int] == usage(ctx, a, k as int));
        let s = Seq::new(
            infos.len(),
            |ci: int|
                infos[ci].frequency * keys_of_parts(infos[ci].parts@, a).to_multiset().count(k),
        );
        assert forall|ci: int| 0 <= ci < n implies usage_terms(ctx, a, k as int)[ci] == s[ci] by {
            full_keys_by_parts(ctx, a, ci);
            let ks = keys_of_parts(infos[ci].parts@, a);
            key_count_occurs(ks, k);
            assert(usage_terms(ctx, a, k as int)[ci] == ctx.freq(ci) * key_count(ks, k as int));
        }
        assert(usage_terms(ctx, a, k as int) =~= s);
    }
}

} // verus!
