//! Collisions: how many characters share a code with a better one, and how frequent they are.

use vstd::prelude::*;

use crate::context::OptContext;
use crate::sums::{sum, sum_at_least, sum_le, sum_nonnegative, sum_prefix, sum_update, sum_zero};

verus! {

/// The largest element, 0 where all are smaller.
pub open spec fn max_of(s: Seq<int>) -> int
    decreases s.len(),
{
    if s.len() == 0 {
        0
    } else {
        let rest = max_of(s.drop_last());
        if s.last() > rest {
            s.last()
        } else {
            rest
        }
    }
}

/// The maximum bounds every element and is reached, unless it is 0.
pub proof fn max_of_bounds(s: Seq<int>)
    ensures
        max_of(s) >= 0,
        forall|i: int| 0 <= i < s.len() ==> #[trigger] s[i] <= max_of(s),
        max_of(s) == 0 || exists|i: int| 0 <= i < s.len() && #[trigger] s[i] == max_of(s),
    decreases s.len(),
{
    if s.len() > 0 {
        let shorter = s.drop_last();
        max_of_bounds(shorter);
        assert forall|i: int| 0 <= i < s.len() implies #[trigger] s[i] <= max_of(s) by {
            if i < s.len() - 1 {
                assert(shorter[i] == s[i]);
            }
        }
        if s.last() <= max_of(shorter) && max_of(shorter) != 0 {
            let i = choose|i: int| 0 <= i < shorter.len() && #[trigger] shorter[i] == max_of(shorter);
            assert(s[i] == max_of(s));
        }
    }
}

/// A bound that is reached is the maximum.
pub proof fn max_of_unique(s: Seq<int>, m: int)
    requires
        m >= 0,
        forall|i: int| 0 <= i < s.len() ==> #[trigger] s[i] <= m,
        m == 0 || exists|i: int| 0 <= i < s.len() && #[trigger] s[i] == m,
    ensures
        max_of(s) == m,
{
    max_of_bounds(s);
}

/// A maximum of non-negative elements is at most their sum.
pub proof fn max_of_le_sum(s: Seq<int>)
    requires
        forall|i: int| 0 <= i < s.len() ==> #[trigger] s[i] >= 0,
    ensures
        max_of(s) <= sum(s),
{
    max_of_bounds(s);
    sum_nonnegative(s);
    if max_of(s) != 0 {
        let i = choose|i: int| 0 <= i < s.len() && #[trigger] s[i] == max_of(s);
        sum_at_least(s, i);
    }
}

/// Whether a character counts in the bucket of a code: it has the code and is not left out.
pub open spec fn counts(codes: Seq<u32>, left_out: Seq<bool>, c: u32, ci: int) -> bool {
    codes[ci] == c && !left_out[ci]
}

/// One for every character that counts.
pub open spec fn ones(ctx: &OptContext, codes: Seq<u32>, left_out: Seq<bool>, c: u32) -> Seq<int> {
    Seq::new(ctx.n(), |ci: int| if counts(codes, left_out, c, ci) { 1int } else { 0 })
}

/// The frequency of every character that counts, 0 for the others.
pub open spec fn weights(ctx: &OptContext, codes: Seq<u32>, left_out: Seq<bool>, c: u32) -> Seq<int> {
    Seq::new(ctx.n(), |ci: int| if counts(codes, left_out, c, ci) { ctx.freq(ci) } else { 0 })
}

/// How many characters share code `c` with a better one.
pub open spec fn excess(ctx: &OptContext, codes: Seq<u32>, left_out: Seq<bool>, c: u32) -> int {
    let k = sum(ones(ctx, codes, left_out, c));
    if k >= 1 {
        k - 1
    } else {
        0
    }
}

/// The frequency of the characters that share code `c` with a better one.
pub open spec fn hidden_freq(ctx: &OptContext, codes: Seq<u32>, left_out: Seq<bool>, c: u32) -> int {
    sum(weights(ctx, codes, left_out, c)) - max_of(weights(ctx, codes, left_out, c))
}

/// Collisions by code.
pub open spec fn excess_by_code(ctx: &OptContext, codes: Seq<u32>, left_out: Seq<bool>) -> Seq<int> {
    Seq::new(ctx.code_space as nat, |c: int| excess(ctx, codes, left_out, c as u32))
}

/// Colliding frequency by code.
pub open spec fn hidden_by_code(ctx: &OptContext, codes: Seq<u32>, left_out: Seq<bool>) -> Seq<int> {
    Seq::new(ctx.code_space as nat, |c: int| hidden_freq(ctx, codes, left_out, c as u32))
}

/// How many characters share a code with a better one.
pub open spec fn total_excess(ctx: &OptContext, codes: Seq<u32>, left_out: Seq<bool>) -> int {
    sum(excess_by_code(ctx, codes, left_out))
}

/// The frequency of the characters that share a code with a better one.
pub open spec fn total_hidden(ctx: &OptContext, codes: Seq<u32>, left_out: Seq<bool>) -> int {
    sum(hidden_by_code(ctx, codes, left_out))
}

/// Nobody is left out.
pub open spec fn nobody(n: nat) -> Seq<bool> {
    Seq::new(n, |ci: int| false)
}

/// Whether `members` lists the characters with code `c`, each once.
pub open spec fn enumerates(members: Seq<u32>, codes: Seq<u32>, c: u32) -> bool {
    &&& members.no_duplicates()
    &&& forall|j: int|
        0 <= j < members.len() ==> (#[trigger] members[j]) < codes.len() && codes[members[j] as int]
            == c
    &&& forall|ci: int| 0 <= ci < codes.len() && #[trigger] codes[ci] == c ==> members.contains(ci as u32)
}

/// Summing over a list of distinct indices that covers all non-zero entries sums everything.
pub proof fn sum_over_members(members: Seq<u32>, g: Seq<int>)
    requires
        members.no_duplicates(),
        forall|j: int| 0 <= j < members.len() ==> (#[trigger] members[j]) < g.len(),
        forall|i: int| 0 <= i < g.len() && #[trigger] g[i] != 0 ==> members.contains(i as u32),
        g.len() <= u32::MAX,
    ensures
        sum(Seq::new(members.len(), |j: int| g[members[j] as int])) == sum(g),
    decreases members.len(),
{
    let picked = Seq::new(members.len(), |j: int| g[members[j] as int]);
    if members.len() == 0 {
        sum_zero(g);
    } else {
        let x = members.last();
        let fewer = members.drop_last();
        let g1 = g.update(x as int, 0);
        assert forall|i: int| 0 <= i < g1.len() && #[trigger] g1[i] != 0 implies fewer.contains(
            i as u32,
        ) by {
            assert(g[i] != 0);
            let j = members.index_of(i as u32);
            assert(members[j] == i as u32);
            assert(fewer[j] == i as u32);
        }
        sum_over_members(fewer, g1);
        sum_update(g, x as int, 0);
        assert(picked.drop_last() =~= Seq::new(fewer.len(), |j: int| g1[fewer[j] as int]));
    }
}

/// The maximum over a list of indices that covers all non-zero entries is the maximum of all.
pub proof fn max_over_members(members: Seq<u32>, g: Seq<int>)
    requires
        forall|j: int| 0 <= j < members.len() ==> (#[trigger] members[j]) < g.len(),
        forall|i: int| 0 <= i < g.len() && #[trigger] g[i] != 0 ==> members.contains(i as u32),
        g.len() <= u32::MAX,
    ensures
        max_of(Seq::new(members.len(), |j: int| g[members[j] as int])) == max_of(g),
{
    let picked = Seq::new(members.len(), |j: int| g[members[j] as int]);
    max_of_bounds(g);
    assert forall|j: int| 0 <= j < picked.len() implies #[trigger] picked[j] <= max_of(g) by {
        assert(members[j] < g.len());
    }
    if max_of(g) != 0 {
        let i = choose|i: int| 0 <= i < g.len() && #[trigger] g[i] == max_of(g);
        let j = members.index_of(i as u32);
        assert(picked[j] == max_of(g));
    }
    max_of_unique(picked, max_of(g));
}

/// What a bucket adds to the collisions, its members in any order, those left out not counted.
pub(crate) fn bucket_collision_contrib_of(
    ctx: &OptContext,
    members: &Vec<u32>,
    assigned: &Vec<bool>,
    Ghost(codes): Ghost<Seq<u32>>,
    Ghost(c): Ghost<u32>,
) -> (r: (usize, u64))
    requires
        ctx.wf_full(),
        codes.len() == ctx.n(),
        assigned@.len() == ctx.n(),
        enumerates(members@, codes, c),
    ensures
        r.0 == excess(ctx, codes, assigned@, c),
        r.1 == hidden_freq(ctx, codes, assigned@, c),
{
    let ghost one = ones(ctx, codes, assigned@, c);
    let ghost weight = weights(ctx, codes, assigned@, c);
    let ghost one_m = Seq::new(members@.len(), |j: int| one[members@[j] as int]);
    let ghost weight_m = Seq::new(members@.len(), |j: int| weight[members@[j] as int]);
    proof {
        assert forall|i: int| 0 <= i < one.len() && #[trigger] one[i] != 0 implies members@.contains(
            i as u32,
        ) by {
            assert(codes[i] == c);
        }
        assert forall|i: int| 0 <= i < weight.len() && #[trigger] weight[i] != 0 implies members@.contains(
            i as u32,
        ) by {
            assert(codes[i] == c);
        }
        sum_over_members(members@, one);
        sum_over_members(members@, weight);
        max_over_members(members@, weight);
        sum_le(weight, ctx.freqs());
        assert(one_m.take(0) =~= Seq::<int>::empty());
        assert(weight_m.take(0) =~= Seq::<int>::empty());
    }
    let mut n: usize = 0;
    let mut max_freq: u64 = 0;
    let mut sum_freq: u64 = 0;
    let mut i: usize = 0;
    while i < members.len()
        invariant
            i <= members@.len(),
            ctx.wf_full(),
            codes.len() == ctx.n(),
            assigned@.len() == ctx.n(),
            enumerates(members@, codes, c),
            one == ones(ctx, codes, assigned@, c),
            weight == weights(ctx, codes, assigned@, c),
            one_m == Seq::new(members@.len(), |j: int| one[members@[j] as int]),
            weight_m == Seq::new(members@.len(), |j: int| weight[members@[j] as int]),
            sum(weight_m) <= u64::MAX,
            n == sum(one_m.take(i as int)),
            n <= i,
            sum_freq == sum(weight_m.take(i as int)),
            max_freq == max_of(weight_m.take(i as int)),
        decreases members@.len() - i,
    {
        let ci = members[i] as usize;
        proof {
            assert(members@[i as int] < codes.len());
            assert(one_m.take(i + 1).drop_last() =~= one_m.take(i as int));
            assert(weight_m.take(i + 1).drop_last() =~= weight_m.take(i as int));
            sum_prefix(weight_m, i + 1);
            max_of_bounds(weight_m.take(i as int));
        }
        if !assigned[ci] {
            let f = ctx.char_infos[ci].frequency;
            sum_freq = sum_freq + f;
            if f > max_freq {
                max_freq = f;
            }
            n = n + 1;
        }
        i = i + 1;
    }
    assert(one_m.take(one_m.len() as int) =~= one_m);
    assert(weight_m.take(weight_m.len() as int) =~= weight_m);
    proof {
        max_of_le_sum(weight_m);
    }
    if n >= 2 {
        (n - 1, sum_freq - max_freq)
    } else {
        proof {
            if n == 1 {
                only_one(one_m, weight_m);
            } else {
                none_at_all(one_m, weight_m);
            }
        }
        (0, 0)
    }
}

/// Where one element counts, nothing is hidden behind it.
proof fn only_one(one: Seq<int>, weight: Seq<int>)
    requires
        one.len() == weight.len(),
        sum(one) == 1,
        forall|i: int| 0 <= i < one.len() ==> (#[trigger] one[i] == 0 || one[i] == 1),
        forall|i: int| 0 <= i < one.len() ==> #[trigger] weight[i] >= 0,
        forall|i: int| 0 <= i < one.len() && #[trigger] one[i] == 0 ==> weight[i] == 0,
    ensures
        sum(weight) == max_of(weight),
    decreases one.len(),
{
    if one.len() > 0 {
        let (o, w) = (one.drop_last(), weight.drop_last());
        assert forall|i: int| 0 <= i < o.len() implies (#[trigger] o[i] == 0 || o[i] == 1) by {
            assert(o[i] == one[i]);
        }
        assert forall|i: int| 0 <= i < o.len() implies #[trigger] w[i] >= 0 by {
            assert(w[i] == weight[i]);
        }
        assert forall|i: int| 0 <= i < o.len() && #[trigger] o[i] == 0 implies w[i] == 0 by {
            assert(o[i] == one[i]);
        }
        sum_nonnegative(o);
        max_of_bounds(w);
        assert(weight.last() >= 0);
        if one.last() == 1 {
            none_at_all(o, w);
        } else {
            assert(one.last() == 0);
            only_one(o, w);
        }
    }
}

/// Where no element counts, there is no frequency.
proof fn none_at_all(one: Seq<int>, weight: Seq<int>)
    requires
        one.len() == weight.len(),
        sum(one) == 0,
        forall|i: int| 0 <= i < one.len() ==> (#[trigger] one[i] == 0 || one[i] == 1),
        forall|i: int| 0 <= i < one.len() && #[trigger] one[i] == 0 ==> weight[i] == 0,
    ensures
        sum(weight) == 0,
        max_of(weight) == 0,
{
    assert forall|i: int| 0 <= i < weight.len() implies #[trigger] weight[i] == 0 by {
        sum_at_least(one, i);
    }
    sum_zero(weight);
    max_of_unique(weight, 0);
}

/// The values of the characters with code `c`, 0 for the others.
pub open spec fn values_at(codes: Seq<u32>, values: Seq<int>, c: int) -> Seq<int> {
    Seq::new(codes.len(), |i: int| if codes[i] == c { values[i] } else { 0 })
}

/// Summing code by code sums everything.
pub proof fn sum_by_code(codes: Seq<u32>, values: Seq<int>, space: nat)
    requires
        codes.len() == values.len(),
        forall|i: int| 0 <= i < codes.len() ==> (#[trigger] codes[i]) < space,
    ensures
        sum(Seq::new(space, |c: int| sum(values_at(codes, values, c)))) == sum(values),
    decreases codes.len(),
{
    let by_code = Seq::new(space, |c: int| sum(values_at(codes, values, c)));
    if codes.len() == 0 {
        sum_zero(by_code);
    } else {
        let (codes1, values1) = (codes.drop_last(), values.drop_last());
        let last = codes.last() as int;
        assert(last == codes[codes.len() - 1]);
        assert forall|i: int| 0 <= i < codes1.len() implies (#[trigger] codes1[i]) < space by {
            assert(codes1[i] == codes[i]);
        }
        sum_by_code(codes1, values1, space);
        let by_code1 = Seq::new(space, |c: int| sum(values_at(codes1, values1, c)));
        assert forall|c: int| 0 <= c < space implies #[trigger] by_code[c] == by_code1[c] + if c
            == last {
            values.last()
        } else {
            0
        } by {
            assert(values_at(codes, values, c).drop_last() =~= values_at(codes1, values1, c));
        }
        assert(by_code =~= by_code1.update(last, by_code1[last] + values.last()));
        sum_update(by_code1, last, by_code1[last] + values.last());
    }
}

/// There are at most as many collisions as characters, with at most their frequency.
pub proof fn totals_bound(ctx: &OptContext, codes: Seq<u32>, left_out: Seq<bool>)
    requires
        ctx.wf_full(),
        codes.len() == ctx.n(),
        left_out.len() == ctx.n(),
        forall|i: int| 0 <= i < codes.len() ==> (#[trigger] codes[i]) < ctx.code_space,
    ensures
        0 <= total_excess(ctx, codes, left_out) <= ctx.n(),
        0 <= total_hidden(ctx, codes, left_out) <= ctx.total_frequency,
        forall|c: u32| #[trigger] excess(ctx, codes, left_out, c) >= 0,
        forall|c: u32| #[trigger] hidden_freq(ctx, codes, left_out, c) >= 0,
{
    let n = ctx.n();
    let one = Seq::new(n, |ci: int| if left_out[ci] { 0int } else { 1 });
    let weight = Seq::new(n, |ci: int| if left_out[ci] { 0 } else { ctx.freq(ci) });
    sum_by_code(codes, one, ctx.code_space as nat);
    sum_by_code(codes, weight, ctx.code_space as nat);
    let ones_by_code = Seq::new(ctx.code_space as nat, |c: int| sum(values_at(codes, one, c)));
    let weights_by_code = Seq::new(ctx.code_space as nat, |c: int| sum(values_at(codes, weight, c)));
    assert forall|c: u32| #[trigger] excess(ctx, codes, left_out, c) >= 0 by {}
    assert forall|c: u32| #[trigger] hidden_freq(ctx, codes, left_out, c) >= 0 by {
        max_of_le_sum(weights(ctx, codes, left_out, c));
    }
    crate::codes::space_monotone(ctx.max_parts as nat, 6);
    crate::codes::space_values();
    assert forall|c: int| 0 <= c < ctx.code_space implies #[trigger] excess_by_code(
        ctx,
        codes,
        left_out,
    )[c] <= ones_by_code[c] by {
        assert(values_at(codes, one, c) =~= ones(ctx, codes, left_out, c as u32));
        sum_nonnegative(values_at(codes, one, c));
    }
    assert forall|c: int| 0 <= c < ctx.code_space implies #[trigger] hidden_by_code(
        ctx,
        codes,
        left_out,
    )[c] <= weights_by_code[c] by {
        assert(values_at(codes, weight, c) =~= weights(ctx, codes, left_out, c as u32));
        max_of_bounds(values_at(codes, weight, c));
    }
    sum_le(excess_by_code(ctx, codes, left_out), ones_by_code);
    sum_le(hidden_by_code(ctx, codes, left_out), weights_by_code);
    sum_nonnegative(excess_by_code(ctx, codes, left_out));
    sum_nonnegative(hidden_by_code(ctx, codes, left_out));
    crate::sums::sum_constant(n, 1);
    sum_le(one, Seq::new(n, |i: int| 1int));
    sum_le(weight, ctx.freqs());
}

/// What giving one character another code does to the characters counted under each code.
pub proof fn recode_one(
    ctx: &OptContext,
    codes: Seq<u32>,
    left_out: Seq<bool>,
    ci: int,
    new_code: u32,
    c: u32,
)
    requires
        codes.len() == ctx.n(),
        left_out.len() == ctx.n(),
        0 <= ci < ctx.n(),
        codes[ci] != new_code,
        !left_out[ci],
    ensures
        ones(ctx, codes.update(ci, new_code), left_out, c) == if c == codes[ci] {
            ones(ctx, codes, left_out, c).update(ci, 0)
        } else if c == new_code {
            ones(ctx, codes, left_out, c).update(ci, 1)
        } else {
            ones(ctx, codes, left_out, c)
        },
        weights(ctx, codes.update(ci, new_code), left_out, c) == if c == codes[ci] {
            weights(ctx, codes, left_out, c).update(ci, 0)
        } else if c == new_code {
            weights(ctx, codes, left_out, c).update(ci, ctx.freq(ci))
        } else {
            weights(ctx, codes, left_out, c)
        },
        c == codes[ci] ==> ones(ctx, codes, left_out, c)[ci] == 1 && weights(
            ctx,
            codes,
            left_out,
            c,
        )[ci] == ctx.freq(ci),
        c == new_code ==> ones(ctx, codes, left_out, c)[ci] == 0 && weights(
            ctx,
            codes,
            left_out,
            c,
        )[ci] == 0,
{
    let codes2 = codes.update(ci, new_code);
    let o = ones(ctx, codes, left_out, c);
    let w = weights(ctx, codes, left_out, c);
    if c == codes[ci] {
        assert(ones(ctx, codes2, left_out, c) =~= o.update(ci, 0));
        assert(weights(ctx, codes2, left_out, c) =~= w.update(ci, 0));
    } else if c == new_code {
        assert(ones(ctx, codes2, left_out, c) =~= o.update(ci, 1));
        assert(weights(ctx, codes2, left_out, c) =~= w.update(ci, ctx.freq(ci)));
    } else {
        assert(ones(ctx, codes2, left_out, c) =~= o);
        assert(weights(ctx, codes2, left_out, c) =~= w);
    }
}

/// What giving one character another code does to the totals.
pub proof fn recode_totals(
    ctx: &OptContext,
    codes: Seq<u32>,
    left_out: Seq<bool>,
    ci: int,
    new_code: u32,
)
    requires
        ctx.wf_full(),
        codes.len() == ctx.n(),
        left_out.len() == ctx.n(),
        0 <= ci < ctx.n(),
        codes[ci] != new_code,
        !left_out[ci],
        codes[ci] < ctx.code_space,
        new_code < ctx.code_space,
    ensures
        ({
            let codes2 = codes.update(ci, new_code);
            let (a, b) = (codes[ci], new_code);
            let (x, y) = (
                excess_by_code(ctx, codes, left_out),
                hidden_by_code(ctx, codes, left_out),
            );
            &&& total_excess(ctx, codes2, left_out) == total_excess(ctx, codes, left_out) - x[a as int]
                - x[b as int] + excess(ctx, codes2, left_out, a) + excess(ctx, codes2, left_out, b)
            &&& total_hidden(ctx, codes2, left_out) == total_hidden(ctx, codes, left_out) - y[a as int]
                - y[b as int] + hidden_freq(ctx, codes2, left_out, a) + hidden_freq(
                ctx,
                codes2,
                left_out,
                b,
            )
        }),
{
    let codes2 = codes.update(ci, new_code);
    let (a, b) = (codes[ci] as int, new_code as int);
    let (x, y) = (excess_by_code(ctx, codes, left_out), hidden_by_code(ctx, codes, left_out));
    let (x2, y2) = (excess_by_code(ctx, codes2, left_out), hidden_by_code(ctx, codes2, left_out));
    crate::codes::space_monotone(ctx.max_parts as nat, 6);
    crate::codes::space_values();
    assert forall|c: int| 0 <= c < ctx.code_space && c != a && c != b implies x2[c] == x[c] && y2[c]
        == y[c] by {
        recode_one(ctx, codes, left_out, ci, new_code, c as u32);
    }
    assert(x2 =~= x.update(a, x2[a]).update(b, x2[b]));
    assert(y2 =~= y.update(a, y2[a]).update(b, y2[b]));
    sum_update(x, a, x2[a]);
    sum_update(x.update(a, x2[a]), b, x2[b]);
    sum_update(y, a, y2[a]);
    sum_update(y.update(a, y2[a]), b, y2[b]);
}

} // verus!
