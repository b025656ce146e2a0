//! How fixed codes change who is a candidate for a simple code: they take their own characters out,
//! and change nothing else.

use vstd::prelude::*;

use crate::builder::{
    built, built_candidates, built_fixed, by_frequency, covered, covering, covering_len, infos_freqs,
    lesser, unmarked,
};
use crate::context::OptContext;
use crate::fixed::fixed_terms;
use crate::lists::sorted_lists_equal;
use crate::scheme::Scheme;
use crate::sums::sum;
use crate::totals::COVERED;
use crate::types::CharInfo;

verus! {

/// The frequencies of the characters with fixed codes.
pub open spec fn fixed_freqs(ctx: &OptContext) -> Seq<int> {
    Seq::new(ctx.simple_fixed_codes@.len(), |j: int| ctx.freq(ctx.simple_fixed_codes@[j].ci as int))
}

/// Whether two tables hold characters that are equally frequent.
spec fn equally_frequent(a: Seq<CharInfo>, b: Seq<CharInfo>) -> bool {
    &&& a.len() == b.len()
    &&& forall|ci: int|
        #![trigger a[ci]]
        #![trigger b[ci]]
        0 <= ci < a.len() ==> a[ci].frequency == b[ci].frequency
}

/// A list of everybody by frequency holds everybody.
pub(crate) proof fn order_holds_everybody(infos: Seq<CharInfo>, order: Seq<usize>)
    requires
        by_frequency(infos, order),
        infos.len() <= usize::MAX,
    ensures
        forall|x: usize| #[trigger] order.contains(x) <==> x < infos.len(),
{
    let n = infos.len() as int;
    let ids = order.map_values(|x: usize| x as int);
    let all = vstd::set_lib::set_int_range(0, n);
    assert(ids.no_duplicates());
    ids.unique_seq_to_set();
    vstd::set_lib::lemma_int_range(0, n);
    assert(ids.to_set().subset_of(all)) by {
        assert forall|x: int| ids.to_set().contains(x) implies all.contains(x) by {
            let i = ids.index_of(x);
            assert(ids[i] == x && ids[i] == order[i] as int);
        }
    }
    vstd::seq_lib::seq_to_set_is_finite(ids);
    vstd::set_lib::lemma_subset_equality(ids.to_set(), all);
    assert forall|x: usize| #[trigger] order.contains(x) <==> x < infos.len() by {
        if order.contains(x) {
            let i = order.index_of(x);
            assert(order[i] == x);
        }
        if x < infos.len() {
            assert(all.contains(x as int));
            assert(ids.to_set().contains(x as int));
            let i = ids.index_of(x as int);
            assert(ids[i] == x as int);
            assert(order[i] == x);
        }
    }
}

/// There is one list of everybody by frequency.
proof fn one_order(a: Seq<CharInfo>, b: Seq<CharInfo>, s: Seq<usize>, t: Seq<usize>)
    requires
        equally_frequent(a, b),
        a.len() <= usize::MAX,
        by_frequency(a, s),
        by_frequency(b, t),
    ensures
        s == t,
{
    order_holds_everybody(a, s);
    order_holds_everybody(b, t);
    let before = |x: usize, y: usize|
        {
            let (f, g) = (a[x as int].frequency, a[y as int].frequency);
            f > g || (f == g && x < y)
        };
    assert forall|i: int, j: int| #![trigger s[i], s[j]] 0 <= i < j < s.len() implies before(s[i], s[j]) by {}
    assert forall|i: int, j: int| #![trigger t[i], t[j]] 0 <= i < j < t.len() implies before(t[i], t[j]) by {
        let x = a[t[i] as int];
        let y = a[t[j] as int];
    }
    sorted_lists_equal(s, t, before);
}

/// How much the first of a list cover goes by the frequencies.
proof fn covered_by_frequency(a: Seq<CharInfo>, b: Seq<CharInfo>, order: Seq<usize>, q: int)
    requires
        equally_frequent(a, b),
        by_frequency(a, order),
        0 <= q <= order.len(),
    ensures
        covered(a, order, q) == covered(b, order, q),
{
    assert(Seq::new(q as nat, |i: int| a[order[i] as int].frequency as int) =~= Seq::new(
        q as nat,
        |i: int| b[order[i] as int].frequency as int,
    )) by {
        assert forall|i: int| 0 <= i < q implies a[order[i] as int].frequency == b[order[i] as int].frequency by {
            let x = a[order[i] as int];
        }
    }
}

/// How many cover what is asked for goes by the frequencies.
proof fn covering_len_by_frequency(
    a: Seq<CharInfo>,
    b: Seq<CharInfo>,
    order: Seq<usize>,
    asked: Option<u64>,
    q: nat,
)
    requires
        equally_frequent(a, b),
        by_frequency(a, order),
        q <= order.len(),
    ensures
        covering_len(a, order, asked, q) == covering_len(b, order, asked, q),
        covering_len(a, order, asked, q) <= order.len(),
    decreases order.len() - q,
{
    covered_by_frequency(a, b, order, q as int);
    if q < order.len() {
        covering_len_by_frequency(a, b, order, asked, q + 1);
    }
}

/// Who covers what is asked for goes by the frequencies.
proof fn covering_by_frequency(a: Seq<CharInfo>, b: Seq<CharInfo>, order: Seq<usize>, asked: Option<u64>)
    requires
        equally_frequent(a, b),
        by_frequency(a, order),
    ensures
        covering(a, order, asked) == covering(b, order, asked),
        covered(a, covering(a, order, asked), covering(a, order, asked).len() as int) == covered(
            b,
            covering(b, order, asked),
            covering(b, order, asked).len() as int,
        ),
        forall|i: int| 0 <= i < covering(a, order, asked).len() ==> (#[trigger] covering(a, order, asked)[i]) < a.len(),
{
    assert(infos_freqs(a) =~= infos_freqs(b));
    covering_len_by_frequency(a, b, order, asked, 0);
    let list = covering(a, order, asked);
    assert(Seq::new(list.len(), |i: int| a[list[i] as int].frequency as int) =~= Seq::new(
        list.len(),
        |i: int| b[list[i] as int].frequency as int,
    )) by {
        assert forall|i: int| 0 <= i < list.len() implies a[list[i] as int].frequency
            == b[list[i] as int].frequency by {
            let x = order[i];
            let y = a[order[i] as int];
        }
    }
    assert forall|i: int| 0 <= i < list.len() implies (#[trigger] list[i]) < a.len() by {
        let x = order[i];
    }
}

/// Where nobody is marked, nobody is dropped.
proof fn nobody_marked(list: Seq<usize>, marks: Seq<bool>)
    requires
        forall|i: int| 0 <= i < list.len() ==> !marks[(#[trigger] list[i]) as int],
    ensures
        unmarked(list, marks) == list,
    decreases list.len(),
{
    if list.len() > 0 {
        assert forall|i: int| 0 <= i < list.drop_last().len() implies !marks[(
        #[trigger] list.drop_last()[i]) as int] by {
            let x = list[i];
        }
        nobody_marked(list.drop_last(), marks);
        let x = list[list.len() - 1];
        assert(list.drop_last().push(list.last()) =~= list);
    }
}

/// A context with fixed codes has the candidates of the context without, less the characters with
/// fixed codes, in the same order; what the coverage selected is as frequent in both; and what the
/// fixed codes cover is the frequency of their characters, none of whom is a candidate.
pub proof fn fixed_codes_only_drop(a: &OptContext, b: &OptContext, scheme: Scheme, entries: Seq<(char, String)>)
    requires
        a.wf_full(),
        a.wf_simple(),
        b.wf_simple(),
        built(a, scheme, entries),
        built(b, scheme, Seq::empty()),
    ensures
        a.simple_candidate_chars@ == unmarked(b.simple_candidate_chars@, a.simple_fixed_assigned@),
        a.simple_output_candidate_chars@ == unmarked(
            b.simple_output_candidate_chars@,
            a.simple_fixed_assigned@,
        ),
        a.simple_active_frequency == b.simple_active_frequency,
        a.fixed_covered_freq == sum(fixed_freqs(a)),
        forall|j: int|
            #![trigger a.simple_fixed_codes@[j]]
            0 <= j < a.simple_fixed_codes@.len() ==> {
                let ci = a.simple_fixed_codes@[j].ci;
                &&& !a.simple_candidate_chars@.contains(ci)
                &&& !a.simple_output_candidate_chars@.contains(ci)
            },
{
    let (ia, ib) = (a.char_infos@, b.char_infos@);
    assert(equally_frequent(ia, ib)) by {
        assert forall|ci: int|
            #![trigger ia[ci]]
            #![trigger ib[ci]]
            0 <= ci < ia.len() implies ia[ci].frequency == ib[ci].frequency by {
            assert(a.freq(ci) == scheme.freq(ci) && b.freq(ci) == scheme.freq(ci));
        }
    }
    let oa = choose|order: Seq<usize>| #[trigger] built_candidates(a, scheme, order);
    let ob = choose|order: Seq<usize>| #[trigger] built_candidates(b, scheme, order);
    one_order(ia, ib, oa, ob);
    let asked = lesser(scheme.active_coverage, scheme.output_coverage);
    covering_by_frequency(ia, ib, oa, asked);
    covering_by_frequency(ia, ib, oa, scheme.output_coverage);
    let lens = choose|lens: Seq<usize>| #[trigger] built_fixed(b, scheme, lens, Seq::empty());
    assert(b.simple_fixed_codes@.len() == 0);
    assert forall|ci: int| 0 <= ci < b.n() implies !#[trigger] b.simple_fixed_assigned@[ci] by {}
    if scheme.enable_simple_code {
        let active = covering(ia, oa, asked);
        let output = covering(ia, oa, scheme.output_coverage);
        assert forall|i: int| 0 <= i < active.len() implies !b.simple_fixed_assigned@[(
        #[trigger] active[i]) as int] by {
            let x = active[i];
        }
        assert forall|i: int| 0 <= i < output.len() implies !b.simple_fixed_assigned@[(
        #[trigger] output[i]) as int] by {
            let x = output[i];
        }
        nobody_marked(active, b.simple_fixed_assigned@);
        nobody_marked(output, b.simple_fixed_assigned@);
    } else {
        nobody_marked(Seq::empty(), b.simple_fixed_assigned@);
    }
    let lens_a = choose|lens: Seq<usize>| #[trigger] built_fixed(a, scheme, lens, entries);
    assert(fixed_terms(ia, a.simple_fixed_codes@, COVERED as int) =~= fixed_freqs(a));
    assert forall|j: int|
        #![trigger a.simple_fixed_codes@[j]]
        0 <= j < a.simple_fixed_codes@.len() implies {
        let ci = a.simple_fixed_codes@[j].ci;
        &&& !a.simple_candidate_chars@.contains(ci)
        &&& !a.simple_output_candidate_chars@.contains(ci)
    } by {
        let ci = a.simple_fixed_codes@[j].ci;
        assert(a.simple_fixed_assigned@[ci as int]);
        if a.simple_candidate_chars@.contains(ci) {
            let i = a.simple_candidate_chars@.index_of(ci);
            assert(a.simple_candidate_chars@[i] == ci);
        }
        if a.simple_output_candidate_chars@.contains(ci) {
            let i = a.simple_output_candidate_chars@.index_of(ci);
            assert(a.simple_output_candidate_chars@[i] == ci);
        }
    }
}

} // verus!
