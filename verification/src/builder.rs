//! Working out, before the search starts, what every part of it reads.

use vstd::prelude::*;

use crate::codes::{mentions, part_group, parts_ok, pow_base, space, space_monotone};
use crate::context::{affected_covers, lists_ascending, OptContext};
use crate::fixed::{
    accepted_codes, counts_occupants, desc_of, entry_counts, fixed_terms, empty_occupancy, occupancy_table,
    all_occupants, sift_fixed_codes, table_entries, taken, FixedCodes, FixedDesc,
};
use crate::order::rank_descending;
use crate::scheme::{
    count_parts_of, has_part_of, parts_from_roots, roots_parts_ok, rules_ok, simple_info_ok, steps_ok, Scheme,
};
use crate::space_codes::space_misplaced;
use crate::sums::{sum, sum_constant, sum_le, sum_prefix};
use crate::totals::{COVERED, PRESSES};
use crate::types::{
    CharInfo, CharSimpleInfo, FixedSimpleCode, SimpleCodeLevel, EQUIV_TABLE_SIZE, GROUP_MARKER, MAX_CODE_LEN,
};

verus! {

/// The frequencies of characters.
pub open spec fn infos_freqs(infos: Seq<CharInfo>) -> Seq<int> {
    Seq::new(infos.len(), |ci: int| infos[ci].frequency as int)
}

/// The length of the longest full code.
pub open spec fn longest_code(infos: Seq<CharInfo>) -> nat
    decreases infos.len(),
{
    if infos.len() == 0 {
        0
    } else {
        let front = longest_code(infos.drop_last());
        if infos.last().parts@.len() > front {
            infos.last().parts@.len()
        } else {
            front
        }
    }
}

/// The parts and frequency of every character.
fn char_table(scheme: &Scheme) -> (infos: Vec<CharInfo>)
    requires
        scheme.ok_full(),
    ensures
        infos@.len() == scheme.n(),
        forall|ci: int|
            #![trigger infos@[ci]]
            0 <= ci < scheme.n() ==> infos@[ci].parts@ == scheme.parts(ci) && infos@[ci].frequency
                == scheme.freq(ci) && parts_ok(infos@[ci].parts@, scheme.groups@.len())
                && infos@[ci].parts@.len() <= MAX_CODE_LEN,
{
    let mut infos: Vec<CharInfo> = Vec::new();
    let mut ci: usize = 0;
    while ci < scheme.splits.len()
        invariant
            ci <= scheme.splits@.len() == scheme.n(),
            scheme.ok_full(),
            infos@.len() == ci,
            forall|i: int|
                #![trigger infos@[i]]
                0 <= i < ci ==> infos@[i].parts@ == scheme.parts(i) && infos@[i].frequency == scheme.freq(
                    i,
                ) && parts_ok(infos@[i].parts@, scheme.groups@.len()) && infos@[i].parts@.len()
                    <= MAX_CODE_LEN,
        decreases scheme.splits@.len() - ci,
    {
        let split = &scheme.splits[ci];
        let parts = parts_from_roots(&scheme.fixed_roots, &scheme.groups, &split.1);
        proof {
            roots_parts_ok(scheme.fixed_roots@, scheme.groups@, split.1@);
            let x = scheme.splits@[ci as int];
        }
        infos.push(CharInfo { parts, frequency: split.2 });
        ci = ci + 1;
    }
    infos
}

/// The length of the longest full code.
fn longest(infos: &Vec<CharInfo>) -> (r: usize)
    requires
        forall|ci: int| #![trigger infos@[ci]] 0 <= ci < infos@.len() ==> infos@[ci].parts@.len() <= MAX_CODE_LEN,
    ensures
        r == longest_code(infos@),
        r <= MAX_CODE_LEN,
        forall|ci: int| #![trigger infos@[ci]] 0 <= ci < infos@.len() ==> infos@[ci].parts@.len() <= r,
{
    let mut r: usize = 0;
    let mut ci: usize = 0;
    assert(infos@.take(0) =~= Seq::<CharInfo>::empty());
    while ci < infos.len()
        invariant
            ci <= infos@.len(),
            forall|i: int| #![trigger infos@[i]] 0 <= i < infos@.len() ==> infos@[i].parts@.len() <= MAX_CODE_LEN,
            r == longest_code(infos@.take(ci as int)),
            r <= MAX_CODE_LEN,
            forall|i: int| #![trigger infos@[i]] 0 <= i < ci ==> infos@[i].parts@.len() <= r,
        decreases infos@.len() - ci,
    {
        assert(infos@.take(ci + 1).drop_last() =~= infos@.take(ci as int));
        let len = infos[ci].parts.len();
        if len > r {
            r = len;
        }
        ci = ci + 1;
    }
    assert(infos@.take(infos@.len() as int) =~= infos@);
    r
}

/// The powers of the code base.
fn power_table(max_parts: usize) -> (powers: Vec<usize>)
    requires
        max_parts <= MAX_CODE_LEN,
    ensures
        powers@.len() == max_parts + 1,
        forall|i: int| 0 <= i <= max_parts ==> #[trigger] powers@[i] == space(i as nat),
{
    let mut powers: Vec<usize> = Vec::new();
    let mut i: usize = 0;
    while i <= max_parts
        invariant
            i <= max_parts + 1,
            max_parts <= MAX_CODE_LEN,
            powers@.len() == i,
            forall|j: int| 0 <= j < i ==> #[trigger] powers@[j] == space(j as nat),
        decreases max_parts + 1 - i,
    {
        powers.push(pow_base(i));
        i = i + 1;
    }
    powers
}

/// The sum of all frequencies.
fn total_of(infos: &Vec<CharInfo>) -> (total: u64)
    requires
        sum(infos_freqs(infos@)) <= u64::MAX,
    ensures
        total == sum(infos_freqs(infos@)),
{
    let ghost s = infos_freqs(infos@);
    let mut total: u64 = 0;
    let mut ci: usize = 0;
    assert(s.take(0) =~= Seq::<int>::empty());
    while ci < infos.len()
        invariant
            ci <= infos@.len(),
            s == infos_freqs(infos@),
            sum(s) <= u64::MAX,
            total == sum(s.take(ci as int)),
        decreases infos@.len() - ci,
    {
        proof {
            sum_prefix(s, ci + 1);
            assert(s.take(ci + 1).drop_last() =~= s.take(ci as int));
        }
        total = total + infos[ci].frequency;
        ci = ci + 1;
    }
    assert(s.take(s.len() as int) =~= s);
    total
}

/// The characters with a part of a group, ascending.
fn chars_of_group(infos: &Vec<CharInfo>, g: usize) -> (list: Vec<usize>)
    requires
        GROUP_MARKER + g < 65536,
    ensures
        lists_ascending(list@, infos@.len(), |ci: int| mentions(infos@[ci].parts@, g as int)),
{
    let ghost p = |ci: int| mentions(infos@[ci].parts@, g as int);
    let mut list: Vec<usize> = Vec::new();
    let mut ci: usize = 0;
    while ci < infos.len()
        invariant
            ci <= infos@.len(),
            GROUP_MARKER + g < 65536,
            p == (|ci: int| mentions(infos@[ci].parts@, g as int)),
            forall|i: int, j: int|
                0 <= i < j < list@.len() ==> (#[trigger] list@[i]) < (#[trigger] list@[j]),
            forall|i: int| 0 <= i < list@.len() ==> (#[trigger] list@[i]) < ci && p(list@[i] as int),
            forall|x: int| 0 <= x < ci && #[trigger] p(x) ==> list@.contains(x as usize),
        decreases infos@.len() - ci,
    {
        let ghost list0 = list@;
        if has_part_of(&infos[ci].parts, g) {
            list.push(ci);
            assert(p(ci as int));
        }
        proof {
            assert forall|x: int| 0 <= x < ci + 1 && #[trigger] p(x) implies list@.contains(x as usize) by {
                if x < ci {
                    let i = list0.index_of(x as usize);
                    assert(list@[i] == x as usize);
                } else {
                    assert(list@.last() == x as usize);
                }
            }
        }
        ci = ci + 1;
    }
    list
}

/// The frequency that the parts of a group carry.
pub open spec fn carried(infos: Seq<CharInfo>, g: int) -> Seq<int> {
    Seq::new(
        infos.len(),
        |ci: int| infos[ci].frequency as int * OptContext::part_count(infos[ci].parts@, g),
    )
}

/// The frequency that the parts of a group carry.
fn weight_of_group(infos: &Vec<CharInfo>, g: usize) -> (w: u128)
    requires
        GROUP_MARKER + g < 65536,
        infos@.len() <= u32::MAX,
        forall|ci: int| #![trigger infos@[ci]] 0 <= ci < infos@.len() ==> infos@[ci].parts@.len() <= MAX_CODE_LEN,
    ensures
        w == sum(carried(infos@, g as int)),
{
    let ghost s = carried(infos@, g as int);
    let mut w: u128 = 0;
    let mut ci: usize = 0;
    assert(s.take(0) =~= Seq::<int>::empty());
    while ci < infos.len()
        invariant
            ci <= infos@.len() <= u32::MAX,
            GROUP_MARKER + g < 65536,
            forall|i: int| #![trigger infos@[i]] 0 <= i < infos@.len() ==> infos@[i].parts@.len() <= MAX_CODE_LEN,
            s == carried(infos@, g as int),
            w == sum(s.take(ci as int)),
            w <= ci * 0x6_0000_0000_0000_0000,
        decreases infos@.len() - ci,
    {
        let count = count_parts_of(&infos[ci].parts, g);
        let freq = infos[ci].frequency;
        proof {
            let x = infos@[ci as int];
            assert(s.take(ci + 1).drop_last() =~= s.take(ci as int));
            assert(0 <= freq * count <= 0x6_0000_0000_0000_0000) by (nonlinear_arith)
                requires
                    0 <= freq <= 0x1_0000_0000_0000_0000,
                    0 <= count <= 6,
            ;
        }
        w = w + freq as u128 * count as u128;
        ci = ci + 1;
    }
    assert(s.take(s.len() as int) =~= s);
    w
}

/// The characters of every group, and the frequency that its parts carry.
fn group_tables(infos: &Vec<CharInfo>, num_groups: usize) -> (r: (Vec<Vec<usize>>, Vec<u128>))
    requires
        GROUP_MARKER + num_groups <= 65536,
        infos@.len() <= u32::MAX,
        forall|ci: int| #![trigger infos@[ci]] 0 <= ci < infos@.len() ==> infos@[ci].parts@.len() <= MAX_CODE_LEN,
    ensures
        r.0@.len() == num_groups,
        r.1@.len() == num_groups,
        forall|g: int|
            0 <= g < num_groups ==> lists_ascending(
                (#[trigger] r.0@[g])@,
                infos@.len(),
                |ci: int| mentions(infos@[ci].parts@, g),
            ),
        forall|g: int| 0 <= g < num_groups ==> #[trigger] r.1@[g] == sum(carried(infos@, g)),
{
    let mut lists: Vec<Vec<usize>> = Vec::new();
    let mut weights: Vec<u128> = Vec::new();
    let mut g: usize = 0;
    while g < num_groups
        invariant
            g <= num_groups,
            GROUP_MARKER + num_groups <= 65536,
            infos@.len() <= u32::MAX,
            forall|ci: int|
                #![trigger infos@[ci]]
                0 <= ci < infos@.len() ==> infos@[ci].parts@.len() <= MAX_CODE_LEN,
            lists@.len() == g,
            weights@.len() == g,
            forall|i: int|
                0 <= i < g ==> lists_ascending(
                    (#[trigger] lists@[i])@,
                    infos@.len(),
                    |ci: int| mentions(infos@[ci].parts@, i),
                ),
            forall|i: int| 0 <= i < g ==> #[trigger] weights@[i] == sum(carried(infos@, i)),
        decreases num_groups - g,
    {
        lists.push(chars_of_group(infos, g));
        weights.push(weight_of_group(infos, g));
        g = g + 1;
    }
    (lists, weights)
}

/// Whether a list holds everybody once, the most frequent first, and of equally frequent ones the
/// first.
pub open spec fn by_frequency(infos: Seq<CharInfo>, order: Seq<usize>) -> bool {
    &&& order.len() == infos.len()
    &&& order.no_duplicates()
    &&& forall|i: int| 0 <= i < order.len() ==> (#[trigger] order[i]) < infos.len()
    &&& forall|i: int, j: int|
        #![trigger order[i], order[j]]
        0 <= i < j < order.len() ==> {
            let (a, b) = (infos[order[i] as int].frequency, infos[order[j] as int].frequency);
            a > b || (a == b && order[i] < order[j])
        }
}

/// Everybody, the most frequent first.
fn frequency_order(infos: &Vec<CharInfo>) -> (order: Vec<usize>)
    ensures
        by_frequency(infos@, order@),
{
    let mut values: Vec<u64> = Vec::new();
    let mut ci: usize = 0;
    while ci < infos.len()
        invariant
            ci <= infos@.len(),
            values@.len() == ci,
            forall|i: int| 0 <= i < ci ==> #[trigger] values@[i] == infos@[i].frequency,
        decreases infos@.len() - ci,
    {
        values.push(infos[ci].frequency);
        ci = ci + 1;
    }
    let order = rank_descending(&values);
    proof {
        assert forall|i: int, j: int|
            #![trigger order@[i], order@[j]]
            0 <= i < j < order@.len() implies {
            let (a, b) = (infos@[order@[i] as int].frequency, infos@[order@[j] as int].frequency);
            a > b || (a == b && order@[i] < order@[j])
        } by {
            let (x, y) = (values@[order@[i] as int], values@[order@[j] as int]);
        }
    }
    order
}

/// The frequency of the first `q` of a list.
pub open spec fn covered(infos: Seq<CharInfo>, order: Seq<usize>, q: int) -> int {
    sum(Seq::new(q as nat, |i: int| infos[order[i] as int].frequency as int))
}

/// Whether a frequency is enough to cover what is asked for. Everything is asked for where no number
/// is given.
pub open spec fn enough(asked: Option<u64>, frequency: int) -> bool {
    asked matches Some(t) && frequency >= t
}

/// How many of a list, from the `q`-th on, are needed to cover what is asked for.
pub open spec fn covering_len(infos: Seq<CharInfo>, order: Seq<usize>, asked: Option<u64>, q: nat) -> nat
    decreases order.len() - q,
{
    if q >= order.len() || enough(asked, covered(infos, order, q as int)) {
        q
    } else {
        covering_len(infos, order, asked, q + 1)
    }
}

/// The fewest most frequent characters that cover what is asked for; nobody where no character
/// ever occurs.
pub open spec fn covering(infos: Seq<CharInfo>, order: Seq<usize>, asked: Option<u64>) -> Seq<usize> {
    if sum(infos_freqs(infos)) == 0 {
        Seq::empty()
    } else {
        order.take(covering_len(infos, order, asked, 0) as int)
    }
}

/// A covering prefix is the shortest that covers what is asked for: every shorter one does not, and
/// it does itself unless everybody is needed.
pub proof fn covering_is_least(infos: Seq<CharInfo>, order: Seq<usize>, asked: Option<u64>, q: nat)
    requires
        q <= order.len(),
    ensures
        q <= covering_len(infos, order, asked, q) <= order.len(),
        forall|p: int|
            q <= p < covering_len(infos, order, asked, q) ==> !enough(
                asked,
                #[trigger] covered(infos, order, p),
            ),
        covering_len(infos, order, asked, q) < order.len() ==> enough(
            asked,
            covered(infos, order, covering_len(infos, order, asked, q) as int),
        ),
    decreases order.len() - q,
{
    if !(q >= order.len() || enough(asked, covered(infos, order, q as int))) {
        covering_is_least(infos, order, asked, q + 1);
    }
}

/// The smaller of two askings.
pub open spec fn lesser(a: Option<u64>, b: Option<u64>) -> Option<u64> {
    match (a, b) {
        (Some(x), Some(y)) => if x <= y {
            Some(x)
        } else {
            Some(y)
        },
        (Some(x), None) => Some(x),
        (None, b) => b,
    }
}

/// Asking for less takes a part of the list.
pub proof fn covering_monotone(
    infos: Seq<CharInfo>,
    order: Seq<usize>,
    active: Option<u64>,
    output: Option<u64>,
)
    ensures
        covering(infos, order, lesser(active, output)).is_prefix_of(covering(infos, order, output)),
{
    covering_is_least(infos, order, lesser(active, output), 0);
    covering_is_least(infos, order, output, 0);
    let a = covering_len(infos, order, lesser(active, output), 0);
    let b = covering_len(infos, order, output, 0);
    if a > b {
        assert(!enough(lesser(active, output), covered(infos, order, b as int)));
    }
    assert(order.take(b as int).take(a as int) =~= order.take(a as int));
}

fn lesser_of(a: Option<u64>, b: Option<u64>) -> (r: Option<u64>)
    ensures
        r == lesser(a, b),
{
    match a {
        Some(x) => match b {
            Some(y) => if x <= y {
                Some(x)
            } else {
                Some(y)
            },
            None => Some(x),
        },
        None => b,
    }
}

/// The fewest most frequent characters that cover what is asked for, and their frequency.
fn covering_prefix(infos: &Vec<CharInfo>, order: &Vec<usize>, asked: Option<u64>, total: u64) -> (r: (
    Vec<usize>,
    u64,
))
    requires
        by_frequency(infos@, order@),
        total == sum(infos_freqs(infos@)),
    ensures
        r.0@ == covering(infos@, order@, asked),
        r.0@.no_duplicates(),
        forall|i: int| 0 <= i < r.0@.len() ==> (#[trigger] r.0@[i]) < infos@.len(),
        r.1 == covered(infos@, r.0@, r.0@.len() as int),
{
    let mut list: Vec<usize> = Vec::new();
    let mut cum: u64 = 0;
    assert(Seq::new(0, |i: int| infos@[list@[i] as int].frequency as int) =~= Seq::<int>::empty());
    if total == 0 {
        return (list, cum);
    }
    let mut q: usize = 0;
    assert(Seq::new(0, |i: int| infos@[order@[i] as int].frequency as int) =~= Seq::<int>::empty());
    while q < order.len()
        invariant_except_break
            covering_len(infos@, order@, asked, 0) == covering_len(infos@, order@, asked, q as nat),
        invariant
            q <= order@.len(),
            by_frequency(infos@, order@),
            sum(infos_freqs(infos@)) <= u64::MAX,
            list@ == order@.take(q as int),
            cum == covered(infos@, order@, q as int),
        ensures
            covering_len(infos@, order@, asked, 0) == q,
        decreases order@.len() - q,
    {
        let done = match asked {
            Some(t) => cum >= t,
            None => false,
        };
        if done {
            break;
        }
        let ci = order[q];
        proof {
            assert(order@[q as int] < infos@.len());
            covered_step(infos@, order@, q as int);
        }
        list.push(ci);
        cum = cum + infos[ci].frequency;
        assert(order@.take(q as int).push(order@[q as int]) =~= order@.take(q + 1));
        q = q + 1;
    }
    proof {
        assert forall|i: int| 0 <= i < list@.len() implies (#[trigger] list@[i]) < infos@.len() by {
            assert(order@[i] < infos@.len());
        }
        assert(Seq::new(q as nat, |i: int| infos@[list@[i] as int].frequency as int) =~= Seq::new(
            q as nat,
            |i: int| infos@[order@[i] as int].frequency as int,
        ));
    }
    (list, cum)
}

/// One more of a list covers as much more as that one occurs, and no more than all together.
proof fn covered_step(infos: Seq<CharInfo>, order: Seq<usize>, q: int)
    requires
        by_frequency(infos, order),
        0 <= q < order.len(),
    ensures
        covered(infos, order, q + 1) == covered(infos, order, q) + infos[order[q] as int].frequency,
        covered(infos, order, q + 1) <= sum(infos_freqs(infos)),
{
    let s = Seq::new((q + 1) as nat, |i: int| infos[order[i] as int].frequency as int);
    assert(s.drop_last() =~= Seq::new(q as nat, |i: int| infos[order[i] as int].frequency as int));
    let all = Seq::new(order.len(), |i: int| infos[order[i] as int].frequency as int);
    let g = infos_freqs(infos);
    permuted_sum(g, order);
    assert forall|i: int| 0 <= i < order.len() implies all[i] == g[order[i] as int] by {
        assert(order[i] < infos.len());
    }
    assert(all =~= Seq::new(order.len(), |i: int| g[order[i] as int]));
    sum_prefix(all, q + 1);
    assert(all.take(q + 1) =~= s);
}

/// Summing over everybody once, in any order, sums everything.
proof fn permuted_sum(g: Seq<int>, order: Seq<usize>)
    requires
        order.no_duplicates(),
        forall|i: int| 0 <= i < order.len() ==> (#[trigger] order[i]) < g.len(),
        forall|i: int| 0 <= i < g.len() ==> #[trigger] g[i] >= 0,
    ensures
        sum(Seq::new(order.len(), |i: int| g[order[i] as int])) <= sum(g),
    decreases order.len(),
{
    let picked = Seq::new(order.len(), |i: int| g[order[i] as int]);
    if order.len() == 0 {
        crate::sums::sum_nonnegative(g);
    } else {
        let x = order.last();
        let fewer = order.drop_last();
        let g1 = g.update(x as int, 0);
        assert(order[order.len() - 1] < g.len());
        assert forall|i: int| 0 <= i < fewer.len() implies (#[trigger] fewer[i]) < g1.len() by {
            assert(order[i] < g.len());
        }
        assert forall|i: int| 0 <= i < g1.len() implies #[trigger] g1[i] >= 0 by {
            let y = g[i];
        }
        assert(fewer.no_duplicates());
        permuted_sum(g1, fewer);
        crate::sums::sum_update(g, x as int, 0);
        assert forall|i: int| 0 <= i < fewer.len() implies picked.drop_last()[i] == g1[fewer[i] as int] by {
            assert(order[i] != order[order.len() - 1]);
        }
        assert(picked.drop_last() =~= Seq::new(fewer.len(), |i: int| g1[fewer[i] as int]));
    }
}

/// The marks of those on a list.
fn marks_of(list: &Vec<usize>, count: usize, n: usize) -> (marks: Vec<bool>)
    requires
        count <= list@.len(),
        forall|i: int| 0 <= i < list@.len() ==> (#[trigger] list@[i]) < n,
    ensures
        marks@.len() == n,
        forall|ci: int|
            0 <= ci < n ==> (#[trigger] marks@[ci] <==> list@.take(count as int).contains(ci as usize)),
{
    let mut marks: Vec<bool> = Vec::new();
    while marks.len() < n
        invariant
            marks@.len() <= n,
            forall|ci: int| 0 <= ci < marks@.len() ==> !#[trigger] marks@[ci],
        decreases n - marks@.len(),
    {
        marks.push(false);
    }
    let mut i: usize = 0;
    assert(list@.take(0) =~= Seq::<usize>::empty());
    while i < count
        invariant
            i <= count <= list@.len(),
            marks@.len() == n,
            forall|j: int| 0 <= j < list@.len() ==> (#[trigger] list@[j]) < n,
            forall|ci: int|
                0 <= ci < n ==> (#[trigger] marks@[ci] <==> list@.take(i as int).contains(ci as usize)),
        decreases count - i,
    {
        let ci = list[i];
        let ghost before = marks@;
        assert(list@[i as int] < n);
        marks.set(ci, true);
        proof {
            let front = list@.take(i as int);
            let front2 = list@.take(i + 1);
            assert forall|cj: int| 0 <= cj < n implies (#[trigger] marks@[cj] <==> front2.contains(cj as usize)) by {
                let x = before[cj];
                if front2.contains(cj as usize) {
                    let j = front2.index_of(cj as usize);
                    if j < i {
                        assert(front[j] == cj as usize);
                    }
                }
                if front.contains(cj as usize) {
                    let j = front.index_of(cj as usize);
                    assert(front2[j] == cj as usize);
                }
                if cj == ci {
                    assert(front2[i as int] == cj as usize);
                }
            }
        }
        i = i + 1;
    }
    marks
}

/// Those on a list who have no mark.
pub open spec fn unmarked(list: Seq<usize>, marks: Seq<bool>) -> Seq<usize>
    decreases list.len(),
{
    if list.len() == 0 {
        Seq::empty()
    } else {
        let front = unmarked(list.drop_last(), marks);
        if marks[list.last() as int] {
            front
        } else {
            front.push(list.last())
        }
    }
}

/// Those on a list who have no mark are on the list, in the same order.
proof fn unmarked_members(list: Seq<usize>, marks: Seq<bool>)
    requires
        list.no_duplicates(),
    ensures
        unmarked(list, marks).no_duplicates(),
        forall|x: usize| #[trigger]
            unmarked(list, marks).contains(x) <==> list.contains(x) && !marks[x as int],
    decreases list.len(),
{
    if list.len() > 0 {
        let fewer = list.drop_last();
        let last = list.last();
        assert(fewer.no_duplicates());
        unmarked_members(fewer, marks);
        let front = unmarked(fewer, marks);
        let all = unmarked(list, marks);
        assert forall|x: usize| #[trigger] all.contains(x) <==> list.contains(x) && !marks[x as int] by {
            if list.contains(x) {
                let i = list.index_of(x);
                if i < list.len() - 1 {
                    assert(fewer[i] == x);
                    assert(fewer.contains(x));
                }
            }
            if fewer.contains(x) {
                let i = fewer.index_of(x);
                assert(list[i] == x);
            }
            assert(list[list.len() - 1] == last);
            if all.contains(x) {
                let i = all.index_of(x);
                if i < front.len() {
                    assert(front[i] == x);
                    assert(front.contains(x));
                }
            }
            if front.contains(x) {
                let i = front.index_of(x);
                assert(all[i] == x);
            }
            if x == last && !marks[last as int] {
                assert(all[all.len() - 1] == x);
            }
        }
        assert(all.no_duplicates()) by {
            if !marks[last as int] {
                assert forall|i: int, j: int|
                    0 <= i < all.len() && 0 <= j < all.len() && i != j implies all[i] != all[j] by {
                    assert(!fewer.contains(last)) by {
                        if fewer.contains(last) {
                            let k = fewer.index_of(last);
                            assert(list[k] == list[list.len() - 1]);
                        }
                    }
                    assert(!front.contains(last));
                    if i < front.len() && j < front.len() {
                        assert(front[i] != front[j]);
                    } else if i < front.len() {
                        assert(front.contains(front[i]));
                    } else if j < front.len() {
                        assert(front.contains(front[j]));
                    }
                }
            }
        }
    }
}

/// Drops those with a mark from a list.
fn drop_marked(list: &Vec<usize>, marks: &Vec<bool>) -> (r: Vec<usize>)
    requires
        list@.no_duplicates(),
        forall|i: int| 0 <= i < list@.len() ==> (#[trigger] list@[i]) < marks@.len(),
    ensures
        r@ == unmarked(list@, marks@),
        r@.no_duplicates(),
        forall|i: int| 0 <= i < r@.len() ==> (#[trigger] r@[i]) < marks@.len() && !marks@[r@[i] as int],
{
    let mut r: Vec<usize> = Vec::new();
    let mut i: usize = 0;
    assert(list@.take(0) =~= Seq::<usize>::empty());
    while i < list.len()
        invariant
            i <= list@.len(),
            forall|j: int| 0 <= j < list@.len() ==> (#[trigger] list@[j]) < marks@.len(),
            r@ == unmarked(list@.take(i as int), marks@),
        decreases list@.len() - i,
    {
        let ci = list[i];
        assert(list@[i as int] < marks@.len());
        assert(list@.take(i + 1).drop_last() =~= list@.take(i as int));
        if !marks[ci] {
            r.push(ci);
        }
        i = i + 1;
    }
    proof {
        assert(list@.take(list@.len() as int) =~= list@);
        unmarked_members(list@, marks@);
        assert forall|j: int| 0 <= j < r@.len() implies (#[trigger] r@[j]) < marks@.len() && !marks@[r@[j] as int] by {
            assert(r@.contains(r@[j]));
            let k = list@.index_of(r@[j]);
            assert(list@[k] == r@[j]);
        }
    }
    r
}

/// The number of keys of a character's simple code at a level.
fn count_steps(ctx: &OptContext, ci: usize, li: usize) -> (r: usize)
    requires
        ctx.instructions_ok(),
        ci < ctx.n(),
        li < ctx.n_levels(),
    ensures
        r == ctx.step_count(ci as int, li as int),
        r <= MAX_CODE_LEN,
{
    let rows = &ctx.char_simple_infos[ci].level_instructions;
    if li < rows.len() {
        match &rows[li] {
            Some(steps) => steps.len(),
            None => 0,
        }
    } else {
        0
    }
}

/// The number of keys of a simple code at a level, without a commit key.
pub open spec fn steps_at(info: CharSimpleInfo, li: int) -> nat {
    if 0 <= li < info.level_instructions@.len() {
        match info.level_instructions@[li] {
            Some(steps) => steps@.len(),
            None => 0,
        }
    } else {
        0
    }
}

/// The length of the longest simple code of the first `k` characters at a level.
pub open spec fn longest_steps(infos: Seq<CharSimpleInfo>, li: int, k: nat) -> nat
    decreases k,
{
    if k == 0 {
        0
    } else {
        let front = longest_steps(infos, li, (k - 1) as nat);
        if steps_at(infos[k - 1], li) > front {
            steps_at(infos[k - 1], li)
        } else {
            front
        }
    }
}

/// The lengths of the longest simple codes, level by level.
pub open spec fn are_level_lens(lens: Seq<usize>, infos: Seq<CharSimpleInfo>, n_levels: nat) -> bool {
    &&& lens.len() == n_levels
    &&& forall|li: int| 0 <= li < n_levels ==> #[trigger] lens[li] == longest_steps(infos, li, infos.len())
}

/// The length of the longest simple code at a level.
fn level_len(infos: &Vec<CharSimpleInfo>, li: usize) -> (len: usize)
    ensures
        len == longest_steps(infos@, li as int, infos@.len()),
{
    let mut len: usize = 0;
    let mut ci: usize = 0;
    while ci < infos.len()
        invariant
            ci <= infos@.len(),
            len == longest_steps(infos@, li as int, ci as nat),
        decreases infos@.len() - ci,
    {
        let rows = &infos[ci].level_instructions;
        if li < rows.len() {
            match &rows[li] {
                Some(steps) => {
                    if steps.len() > len {
                        len = steps.len();
                    }
                },
                None => {},
            }
        }
        ci = ci + 1;
    }
    len
}

/// The lengths of the longest simple codes, level by level.
pub fn level_lens(infos: &Vec<CharSimpleInfo>, n_levels: usize) -> (lens: Vec<usize>)
    ensures
        are_level_lens(lens@, infos@, n_levels as nat),
{
    let mut lens: Vec<usize> = Vec::new();
    while lens.len() < n_levels
        invariant
            lens@.len() <= n_levels,
            forall|l: int|
                0 <= l < lens@.len() ==> #[trigger] lens@[l] == longest_steps(infos@, l, infos@.len()),
        decreases n_levels - lens@.len(),
    {
        let len = level_len(infos, lens.len());
        lens.push(len);
    }
    lens
}

/// The longest simple code is as long as one of them, and no shorter than any.
proof fn longest_steps_range(ctx: &OptContext, li: int, k: nat)
    requires
        ctx.instructions_ok(),
        k <= ctx.n(),
    ensures
        longest_steps(ctx.char_simple_infos@, li, k) <= MAX_CODE_LEN,
        forall|ci: int|
            0 <= ci < k ==> #[trigger] ctx.step_count(ci, li) <= longest_steps(ctx.char_simple_infos@, li, k),
    decreases k,
{
    if k > 0 {
        longest_steps_range(ctx, li, (k - 1) as nat);
        let x = ctx.instructions(k - 1, li);
        assert(ctx.step_count(k - 1, li) == steps_at(ctx.char_simple_infos@[k - 1], li));
    }
}

/// The number of codes of each level, by the lengths of its longest codes.
fn level_capacities(ctx: &OptContext, lens: &Vec<usize>) -> (r: Vec<usize>)
    requires
        ctx.instructions_ok(),
        are_level_lens(lens@, ctx.char_simple_infos@, ctx.n_levels()),
    ensures
        r@.len() == ctx.n_levels(),
        forall|li: int| 0 <= li < ctx.n_levels() ==> #[trigger] r@[li] == space(lens@[li] as nat),
{
    let mut capacities: Vec<usize> = Vec::new();
    let mut li: usize = 0;
    while li < lens.len()
        invariant
            li <= lens@.len() == ctx.n_levels(),
            ctx.instructions_ok(),
            are_level_lens(lens@, ctx.char_simple_infos@, ctx.n_levels()),
            capacities@.len() == li,
            forall|l: int| 0 <= l < li ==> #[trigger] capacities@[l] == space(lens@[l] as nat),
        decreases lens@.len() - li,
    {
        proof {
            longest_steps_range(ctx, li as int, ctx.n());
        }
        capacities.push(pow_base(lens[li]));
        li = li + 1;
    }
    capacities
}

/// What each simple code saves, and whether it is shorter than the full code.
fn saving_tables(ctx: &OptContext) -> (r: (Vec<Vec<i64>>, Vec<Vec<bool>>))
    requires
        ctx.wf_full(),
        ctx.instructions_ok(),
        ctx.enable_simple_code,
    ensures
        r.0@.len() == ctx.n(),
        r.1@.len() == ctx.n(),
        forall|ci: int| #![trigger r.0@[ci]] 0 <= ci < ctx.n() ==> r.0@[ci]@.len() == ctx.n_levels(),
        forall|ci: int| #![trigger r.1@[ci]] 0 <= ci < ctx.n() ==> r.1@[ci]@.len() == ctx.n_levels(),
        forall|ci: int, li: int|
            #![trigger r.0@[ci]@[li]]
            0 <= ci < ctx.n() && 0 <= li < ctx.n_levels() ==> r.0@[ci]@[li] == ctx.saving(ci, li),
        forall|ci: int, li: int|
            #![trigger r.1@[ci]@[li]]
            0 <= ci < ctx.n() && 0 <= li < ctx.n_levels() ==> r.1@[ci]@[li] == ctx.eligible(ci, li),
{
    let n = ctx.char_infos.len();
    let n_levels = ctx.simple_config.levels.len();
    let mut savings: Vec<Vec<i64>> = Vec::new();
    let mut eligible: Vec<Vec<bool>> = Vec::new();
    let mut ci: usize = 0;
    while ci < n
        invariant
            ci <= n == ctx.n(),
            n_levels == ctx.n_levels(),
            ctx.wf_full(),
            ctx.instructions_ok(),
            ctx.enable_simple_code,
            savings@.len() == ci,
            eligible@.len() == ci,
            forall|i: int| #![trigger savings@[i]] 0 <= i < ci ==> savings@[i]@.len() == ctx.n_levels(),
            forall|i: int| #![trigger eligible@[i]] 0 <= i < ci ==> eligible@[i]@.len() == ctx.n_levels(),
            forall|i: int, l: int|
                #![trigger savings@[i]@[l]]
                0 <= i < ci && 0 <= l < ctx.n_levels() ==> savings@[i]@[l] == ctx.saving(i, l),
            forall|i: int, l: int|
                #![trigger eligible@[i]@[l]]
                0 <= i < ci && 0 <= l < ctx.n_levels() ==> eligible@[i]@[l] == ctx.eligible(i, l),
        decreases n - ci,
    {
        let mut saving_row: Vec<i64> = Vec::new();
        let mut eligible_row: Vec<bool> = Vec::new();
        let full_len = ctx.char_infos[ci].parts.len();
        let mut li: usize = 0;
        proof {
            let x = ctx.char_infos@[ci as int];
        }
        while li < n_levels
            invariant
                li <= n_levels == ctx.n_levels(),
                ci < ctx.n(),
                ctx.instructions_ok(),
                ctx.enable_simple_code,
                full_len == ctx.parts(ci as int).len(),
                full_len <= MAX_CODE_LEN,
                saving_row@.len() == li,
                eligible_row@.len() == li,
                forall|l: int| 0 <= l < li ==> #[trigger] saving_row@[l] == ctx.saving(ci as int, l),
                forall|l: int| 0 <= l < li ==> #[trigger] eligible_row@[l] == ctx.eligible(ci as int, l),
            decreases n_levels - li,
        {
            let steps = count_steps(ctx, ci, li);
            let commit: i64 = if ctx.simple_config.levels[li].has_commit() {
                1
            } else {
                0
            };
            saving_row.push(full_len as i64 - steps as i64 - commit);
            eligible_row.push(steps > 0 && steps < full_len);
            li = li + 1;
        }
        savings.push(saving_row);
        eligible.push(eligible_row);
        ci = ci + 1;
    }
    (savings, eligible)
}

/// Whether an instruction picks a part of a group.
pub open spec fn picks(info: CharSimpleInfo, step: (usize, usize), g: int) -> bool {
    &&& step.0 < info.logical_roots@.len()
    &&& step.1 < info.logical_roots@[step.0 as int].full_code_parts@.len()
    &&& part_group(info.logical_roots@[step.0 as int].full_code_parts@[step.1 as int]) == Some(g)
}

/// Whether one of the instructions picks a part of a group.
pub open spec fn steps_pick(info: CharSimpleInfo, steps: Seq<(usize, usize)>, g: int) -> bool {
    exists|i: int| 0 <= i < steps.len() && picks(info, #[trigger] steps[i], g)
}

/// Whether the simple code of some level picks a part of a group.
pub open spec fn levels_pick(info: CharSimpleInfo, n_levels: nat, g: int) -> bool {
    exists|li: int|
        0 <= li < n_levels && li < info.level_instructions@.len() && (
        #[trigger] info.level_instructions@[li] matches Some(steps) && steps_pick(info, steps@, g))
}

/// Whether a rule that a character can follow picks a part of a group.
pub open spec fn rules_pick(info: CharSimpleInfo, rules: Seq<Vec<(usize, usize)>>, g: int) -> bool {
    exists|k: int| 0 <= k < rules.len() && steps_pick(info, (#[trigger] rules[k])@, g)
}

/// Whether a character's simple codes are tied to a group.
pub open spec fn tied(
    info: CharSimpleInfo,
    rules: Seq<Vec<(usize, usize)>>,
    n_levels: nat,
    g: int,
) -> bool {
    rules_pick(info, rules, g) || levels_pick(info, n_levels, g)
}

/// Whether a list holds the characters tied to a group, ascending.
pub open spec fn lists_tied(
    infos: Seq<CharSimpleInfo>,
    rules: Seq<Vec<Vec<(usize, usize)>>>,
    n_levels: nat,
    g: int,
    list: Seq<usize>,
) -> bool {
    lists_ascending(list, infos.len(), |ci: int| tied(infos[ci], rules[ci]@, n_levels, g))
}

/// Whether a list holds the marked characters tied to a group, ascending.
pub open spec fn lists_tied_marked(
    infos: Seq<CharSimpleInfo>,
    rules: Seq<Vec<Vec<(usize, usize)>>>,
    n_levels: nat,
    g: int,
    marks: Seq<bool>,
    list: Seq<usize>,
) -> bool {
    lists_ascending(
        list,
        infos.len(),
        |ci: int| tied(infos[ci], rules[ci]@, n_levels, g) && marks[ci],
    )
}

/// Whether one of the instructions picks a part of a group.
fn do_steps_pick(info: &CharSimpleInfo, steps: &Vec<(usize, usize)>, g: usize) -> (r: bool)
    requires
        GROUP_MARKER + g < 65536,
        steps_ok(*info, steps@),
    ensures
        r == steps_pick(*info, steps@, g as int),
{
    let wanted = GROUP_MARKER + g as u16;
    let mut i: usize = 0;
    while i < steps.len()
        invariant
            i <= steps@.len(),
            wanted == GROUP_MARKER + g,
            steps_ok(*info, steps@),
            forall|j: int| 0 <= j < i ==> !picks(*info, #[trigger] steps@[j], g as int),
        decreases steps@.len() - i,
    {
        let (ri, pi) = steps[i];
        assert(steps@[i as int].0 < info.logical_roots@.len());
        let parts = &info.logical_roots[ri].full_code_parts;
        if pi < parts.len() && parts[pi] == wanted {
            assert(picks(*info, steps@[i as int], g as int));
            return true;
        }
        i = i + 1;
    }
    false
}

/// Whether a character's simple codes are tied to a group.
fn is_tied(
    info: &CharSimpleInfo,
    rules: &Vec<Vec<(usize, usize)>>,
    n_levels: usize,
    g: usize,
    Ghost(num_groups): Ghost<nat>,
) -> (r: bool)
    requires
        GROUP_MARKER + g < 65536,
        simple_info_ok(*info, num_groups, n_levels as nat),
        rules_ok(*info, rules@),
    ensures
        r == tied(*info, rules@, n_levels as nat, g as int),
{
    let mut k: usize = 0;
    while k < rules.len()
        invariant
            k <= rules@.len(),
            GROUP_MARKER + g < 65536,
            rules_ok(*info, rules@),
            forall|j: int| 0 <= j < k ==> !steps_pick(*info, (#[trigger] rules@[j])@, g as int),
        decreases rules@.len() - k,
    {
        assert(steps_ok(*info, rules@[k as int]@));
        if do_steps_pick(info, &rules[k], g) {
            assert(steps_pick(*info, rules@[k as int]@, g as int));
            return true;
        }
        k = k + 1;
    }
    let mut li: usize = 0;
    while li < n_levels && li < info.level_instructions.len()
        invariant
            li <= n_levels,
            li <= info.level_instructions@.len(),
            GROUP_MARKER + g < 65536,
            simple_info_ok(*info, num_groups, n_levels as nat),
            forall|l: int|
                0 <= l < li ==> !(#[trigger] info.level_instructions@[l] matches Some(steps) && steps_pick(
                    *info,
                    steps@,
                    g as int,
                )),
        decreases n_levels - li,
    {
        let ghost row = info.level_instructions@[li as int];
        match &info.level_instructions[li] {
            Some(steps) => {
                if do_steps_pick(info, steps, g) {
                    assert(info.level_instructions@[li as int] matches Some(s) && steps_pick(
                        *info,
                        s@,
                        g as int,
                    ));
                    return true;
                }
            },
            None => {},
        }
        li = li + 1;
    }
    false
}

/// The characters tied to a group, and the candidates among them, ascending.
fn tied_to_group(
    infos: &Vec<CharSimpleInfo>,
    rules: &Vec<Vec<Vec<(usize, usize)>>>,
    n_levels: usize,
    g: usize,
    candidate: &Vec<bool>,
    Ghost(num_groups): Ghost<nat>,
) -> (r: (Vec<usize>, Vec<usize>))
    requires
        GROUP_MARKER + g < 65536,
        rules@.len() == infos@.len(),
        candidate@.len() == infos@.len(),
        forall|ci: int|
            #![trigger infos@[ci]]
            0 <= ci < infos@.len() ==> simple_info_ok(infos@[ci], num_groups, n_levels as nat),
        forall|ci: int|
            #![trigger rules@[ci]]
            0 <= ci < infos@.len() ==> rules_ok(infos@[ci], rules@[ci]@),
    ensures
        lists_tied(infos@, rules@, n_levels as nat, g as int, r.0@),
        lists_tied_marked(infos@, rules@, n_levels as nat, g as int, candidate@, r.1@),
        r.0@.len() == 0 ==> r.1@.len() == 0,
{
    let ghost p = |ci: int| tied(infos@[ci], rules@[ci]@, n_levels as nat, g as int);
    let ghost q = |ci: int| tied(infos@[ci], rules@[ci]@, n_levels as nat, g as int) && candidate@[ci];
    let mut list: Vec<usize> = Vec::new();
    let mut chosen: Vec<usize> = Vec::new();
    let mut ci: usize = 0;
    while ci < infos.len()
        invariant
            ci <= infos@.len(),
            GROUP_MARKER + g < 65536,
            rules@.len() == infos@.len(),
            candidate@.len() == infos@.len(),
            forall|i: int|
                #![trigger infos@[i]]
                0 <= i < infos@.len() ==> simple_info_ok(infos@[i], num_groups, n_levels as nat),
            forall|i: int|
                #![trigger rules@[i]]
                0 <= i < infos@.len() ==> rules_ok(infos@[i], rules@[i]@),
            p == (|ci: int| tied(infos@[ci], rules@[ci]@, n_levels as nat, g as int)),
            q == (|ci: int|
                tied(infos@[ci], rules@[ci]@, n_levels as nat, g as int) && candidate@[ci]),
            forall|i: int, j: int|
                0 <= i < j < list@.len() ==> (#[trigger] list@[i]) < (#[trigger] list@[j]),
            forall|i: int| 0 <= i < list@.len() ==> (#[trigger] list@[i]) < ci && p(list@[i] as int),
            forall|x: int| 0 <= x < ci && #[trigger] p(x) ==> list@.contains(x as usize),
            forall|i: int, j: int|
                0 <= i < j < chosen@.len() ==> (#[trigger] chosen@[i]) < (#[trigger] chosen@[j]),
            forall|i: int| 0 <= i < chosen@.len() ==> (#[trigger] chosen@[i]) < ci && q(chosen@[i] as int),
            forall|x: int| 0 <= x < ci && #[trigger] q(x) ==> chosen@.contains(x as usize),
            list@.len() == 0 ==> chosen@.len() == 0,
        decreases infos@.len() - ci,
    {
        let ghost list0 = list@;
        let ghost chosen0 = chosen@;
        proof {
            let x = infos@[ci as int];
            let y = rules@[ci as int];
        }
        let t = is_tied(&infos[ci], &rules[ci], n_levels, g, Ghost(num_groups));
        assert(t == p(ci as int));
        if t {
            list.push(ci);
            if candidate[ci] {
                chosen.push(ci);
                assert(q(ci as int));
            }
        }
        proof {
            assert forall|x: int| 0 <= x < ci + 1 && #[trigger] p(x) implies list@.contains(x as usize) by {
                if x < ci {
                    let i = list0.index_of(x as usize);
                    assert(list@[i] == x as usize);
                } else {
                    assert(list@.last() == x as usize);
                }
            }
            assert forall|x: int| 0 <= x < ci + 1 && #[trigger] q(x) implies chosen@.contains(x as usize) by {
                if x < ci {
                    let i = chosen0.index_of(x as usize);
                    assert(chosen@[i] == x as usize);
                } else {
                    assert(p(x));
                    assert(chosen@.last() == x as usize);
                }
            }
        }
        ci = ci + 1;
    }
    (list, chosen)
}

/// Whether a context holds the characters and groups of a scheme.
pub open spec fn built_full(ctx: &OptContext, scheme: Scheme) -> bool {
    &&& ctx.layout == scheme.layout
    &&& ctx.groups == scheme.groups
    &&& ctx.n() == scheme.n()
    &&& forall|ci: int|
        #![trigger ctx.char_infos@[ci]]
        0 <= ci < ctx.n() ==> ctx.parts(ci) == scheme.parts(ci) && ctx.freq(ci) == scheme.freq(ci)
    &&& ctx.max_parts == longest_code(ctx.char_infos@)
}

/// Whether a context holds the simple-code levels of a scheme, and the candidates for simple codes
/// are the most frequent characters that cover what the scheme asks for, those with fixed codes left
/// out.
pub open spec fn built_candidates(ctx: &OptContext, scheme: Scheme, order: Seq<usize>) -> bool {
    let infos = ctx.char_infos@;
    let asked = lesser(scheme.active_coverage, scheme.output_coverage);
    let nobody = Seq::<usize>::empty();
    &&& by_frequency(infos, order)
    &&& ctx.simple_candidate_chars@ == unmarked(
        if scheme.enable_simple_code {
            covering(infos, order, asked)
        } else {
            nobody
        },
        ctx.simple_fixed_assigned@,
    )
    &&& ctx.simple_output_candidate_chars@ == unmarked(
        if scheme.enable_simple_code {
            covering(infos, order, scheme.output_coverage)
        } else {
            nobody
        },
        ctx.simple_fixed_assigned@,
    )
    &&& ctx.simple_active_frequency == if scheme.enable_simple_code {
        covered(infos, covering(infos, order, asked), covering(infos, order, asked).len() as int)
    } else {
        0
    }
    &&& ctx.simple_protect_top_n == scheme.simple_protect_top_n
    &&& scheme.enable_simple_code && scheme.simple_protect_top_n > 0 ==> forall|ci: int|
        0 <= ci < ctx.n() ==> (#[trigger] ctx.simple_is_topn@[ci] <==> order.take(
            if scheme.simple_protect_top_n <= order.len() {
                scheme.simple_protect_top_n as int
            } else {
                order.len() as int
            },
        ).contains(ci as usize))
}

/// The fixed codes that count: those given, or none where simple codes are not optimised.
pub open spec fn counting_codes(ctx: &OptContext, scheme: Scheme, lens: Seq<usize>, entries: Seq<(char, String)>) -> Seq<
    FixedDesc,
> {
    accepted_codes(
        ctx.layout,
        ctx.simple_config.levels@,
        ctx.char_infos@,
        scheme.splits@,
        lens,
        if scheme.enable_simple_code {
            entries
        } else {
            Seq::empty()
        },
    )
}

/// Whether a context holds the fixed codes that count, and what they take up.
pub open spec fn built_fixed(
    ctx: &OptContext,
    scheme: Scheme,
    lens: Seq<usize>,
    entries: Seq<(char, String)>,
) -> bool {
    let accepted = counting_codes(ctx, scheme, lens, entries);
    let codes = ctx.simple_fixed_codes@;
    let infos = ctx.char_infos@;
    &&& are_level_lens(lens, ctx.char_simple_infos@, ctx.n_levels())
    &&& scheme.enable_simple_code ==> forall|li: int|
        0 <= li < ctx.n_levels() ==> #[trigger] ctx.simple_level_capacity@[li] == space(
            lens[li] as nat,
        )
    &&& codes.len() == accepted.len()
    &&& forall|j: int| 0 <= j < accepted.len() ==> #[trigger] desc_of(codes[j]) == accepted[j]
    &&& ctx.simple_fixed_occupancy@.len() == if scheme.enable_simple_code && entries.len() > 0 {
        ctx.n_levels()
    } else {
        0
    }
    &&& counts_occupants(ctx.simple_fixed_occupancy@, codes, ctx.n_levels())
    &&& ctx.fixed_covered_freq == sum(fixed_terms(infos, codes, COVERED as int))
    &&& ctx.fixed_key_presses == sum(fixed_terms(infos, codes, PRESSES as int))
    &&& forall|k: int|
        0 <= k < EQUIV_TABLE_SIZE ==> #[trigger] ctx.fixed_key_usage@[k] == sum(
            fixed_terms(infos, codes, k),
        )
}

/// Whether a context names the characters whose simple codes are tied to each group.
pub open spec fn built_ties(ctx: &OptContext, scheme: Scheme) -> bool {
    forall|g: int|
        #![trigger ctx.group_to_simple_affected@[g]]
        0 <= g < ctx.num_groups() ==> if scheme.enable_simple_code {
            &&& lists_tied(
                ctx.char_simple_infos@,
                scheme.resolved_rules@,
                ctx.n_levels(),
                g,
                ctx.group_to_simple_affected@[g]@,
            )
            &&& lists_tied_marked(
                ctx.char_simple_infos@,
                scheme.resolved_rules@,
                ctx.n_levels(),
                g,
                ctx.simple_is_candidate@,
                ctx.group_to_simple_affected_candidate@[g]@,
            )
        } else {
            ctx.group_to_simple_affected@[g]@.len() == 0
                && ctx.group_to_simple_affected_candidate@[g]@.len() == 0
        }
}

/// Whether a context is the one of a scheme with fixed codes.
pub open spec fn built(ctx: &OptContext, scheme: Scheme, entries: Seq<(char, String)>) -> bool {
    &&& built_full(ctx, scheme)
    &&& ctx.enable_simple_code == scheme.enable_simple_code
    &&& ctx.simple_assign_mode == scheme.simple_assign_mode
    &&& ctx.simple_config == scheme.simple_config
    &&& ctx.char_simple_infos == scheme.char_simple_infos
    &&& exists|order: Seq<usize>| #[trigger] built_candidates(ctx, scheme, order)
    &&& exists|lens: Seq<usize>| #[trigger] built_fixed(ctx, scheme, lens, entries)
    &&& built_ties(ctx, scheme)
}

/// What full codes need does not depend on what is worked out for simple codes.
proof fn wf_full_frame(a: &OptContext, b: &OptContext)
    requires
        a.wf_full(),
        a.layout == b.layout,
        a.groups == b.groups,
        a.group_to_chars == b.group_to_chars,
        a.char_infos == b.char_infos,
        a.total_frequency == b.total_frequency,
        a.max_parts == b.max_parts,
        a.code_space == b.code_space,
        a.code_base_powers == b.code_base_powers,
        a.group_freq_sum == b.group_freq_sum,
    ensures
        b.wf_full(),
{
    assert(a.freqs() =~= b.freqs());
    assert forall|g: int| 0 <= g < b.num_groups() implies (#[trigger] b.group_freq_sum@[g])
        == b.group_weight(g) by {
        assert(a.group_freq_sum@[g] == a.group_weight(g));
        assert(Seq::new(a.n(), |ci: int| a.freq(ci) * OptContext::part_count(a.parts(ci), g)) =~= Seq::new(
            b.n(),
            |ci: int| b.freq(ci) * OptContext::part_count(b.parts(ci), g),
        ));
    }
    assert forall|g: int| 0 <= g < b.num_groups() implies lists_ascending(
        (#[trigger] b.group_to_chars@[g])@,
        b.n(),
        |ci: int| mentions(b.parts(ci), g),
    ) by {
        let list = b.group_to_chars@[g]@;
        let p = |ci: int| mentions(a.parts(ci), g);
        let q = |ci: int| mentions(b.parts(ci), g);
        assert(lists_ascending(a.group_to_chars@[g]@, a.n(), p));
        assert forall|x: int| 0 <= x < b.n() && #[trigger] q(x) implies list.contains(x as usize) by {
            assert(p(x));
        }
        assert forall|i: int| 0 <= i < list.len() implies (#[trigger] list[i]) < b.n() && q(list[i] as int) by {
            assert(p(list[i] as int));
        }
    }
    assert forall|ci: int| #![trigger b.char_infos@[ci]] 0 <= ci < b.n() implies parts_ok(
        b.parts(ci),
        b.num_groups(),
    ) && b.parts(ci).len() <= b.max_parts by {
        let x = a.char_infos@[ci];
    }
}

/// Sets up a context with the characters and groups of a scheme, and hands back what is left.
fn lay_out(scheme: Scheme) -> (r: (
    OptContext,
    Vec<(char, Vec<String>, u64)>,
    Vec<Vec<Vec<(usize, usize)>>>,
))
    requires
        scheme.ok_full(),
        scheme.ok_simple(),
    ensures
        r.0.wf_full(),
        r.0.instructions_ok(),
        built_full(&r.0, scheme),
        r.0.enable_simple_code == scheme.enable_simple_code,
        r.0.simple_assign_mode == scheme.simple_assign_mode,
        r.0.simple_protect_top_n == scheme.simple_protect_top_n,
        r.0.simple_config == scheme.simple_config,
        r.0.char_simple_infos == scheme.char_simple_infos,
        r.0.tables_empty(),
        r.1 == scheme.splits,
        r.2 == scheme.resolved_rules,
{
    let ghost scheme0 = scheme;
    let char_infos = char_table(&scheme);
    let max_parts = longest(&char_infos);
    let (group_to_chars, group_freq_sum) = group_tables(&char_infos, scheme.groups.len());
    proof {
        assert(infos_freqs(char_infos@) =~= scheme.freqs());
    }
    let total_frequency = total_of(&char_infos);
    let Scheme {
        splits,
        groups,
        layout,
        simple_config,
        char_simple_infos,
        resolved_rules,
        enable_simple_code,
        simple_assign_mode,
        simple_protect_top_n,
        ..
    } = scheme;
    let ctx = OptContext {
        enable_simple_code,
        layout,
        groups,
        group_to_chars,
        char_infos,
        total_frequency,
        max_parts,
        code_space: pow_base(max_parts),
        code_base_powers: power_table(max_parts),
        group_freq_sum,
        simple_config,
        char_simple_infos,
        group_to_simple_affected: Vec::new(),
        group_to_simple_affected_candidate: Vec::new(),
        simple_candidate_chars: Vec::new(),
        simple_is_candidate: Vec::new(),
        simple_output_candidate_chars: Vec::new(),
        simple_protect_top_n,
        simple_is_topn: Vec::new(),
        simple_active_frequency: 0,
        simple_base_saving: Vec::new(),
        simple_eligible: Vec::new(),
        simple_level_capacity: Vec::new(),
        simple_assign_mode,
        simple_fixed_assigned: Vec::new(),
        simple_fixed_occupancy: Vec::new(),
        fixed_covered_freq: 0,
        fixed_key_usage: Vec::new(),
        fixed_key_presses: 0,
        simple_fixed_codes: Vec::new(),
    };
    proof {
        assert(ctx.freqs() =~= infos_freqs(ctx.char_infos@));
        assert forall|g: int| 0 <= g < ctx.num_groups() implies (#[trigger] ctx.group_freq_sum@[g])
            == ctx.group_weight(g) by {
            assert(carried(ctx.char_infos@, g) =~= Seq::new(
                ctx.n(),
                |ci: int| ctx.freq(ci) * OptContext::part_count(ctx.parts(ci), g),
            ));
        }
        assert forall|g: int| 0 <= g < ctx.num_groups() implies lists_ascending(
            (#[trigger] ctx.group_to_chars@[g])@,
            ctx.n(),
            |ci: int| mentions(ctx.parts(ci), g),
        ) by {
            let list = ctx.group_to_chars@[g]@;
            let infos = ctx.char_infos@;
            let p = |ci: int| mentions(infos[ci].parts@, g);
            let q = |ci: int| mentions(ctx.parts(ci), g);
            assert(lists_ascending(list, ctx.n(), p));
            assert forall|x: int| 0 <= x < ctx.n() && #[trigger] q(x) implies list.contains(x as usize) by {
                assert(p(x));
            }
            assert forall|i: int| 0 <= i < list.len() implies (#[trigger] list[i]) < ctx.n() && q(list[i] as int) by {
                assert(p(list[i] as int));
            }
        }
        instructions_from_scheme(&ctx, scheme0);
    }
    (ctx, splits, resolved_rules)
}

/// The instructions of a scheme that is in order are in order.
proof fn instructions_from_scheme(ctx: &OptContext, scheme: Scheme)
    requires
        scheme.ok_simple(),
        ctx.n() == scheme.n(),
        ctx.groups == scheme.groups,
        ctx.simple_config == scheme.simple_config,
        ctx.char_simple_infos == scheme.char_simple_infos,
    ensures
        ctx.instructions_ok(),
{
    assert forall|ci: int, li: int|
        #![trigger ctx.instructions(ci, li)]
        0 <= ci < ctx.n() && 0 <= li < ctx.n_levels() implies match ctx.instructions(ci, li) {
        Some(steps) => {
            &&& steps.len() <= MAX_CODE_LEN
            &&& forall|i: int|
                0 <= i < steps.len() ==> (#[trigger] steps[i]).0
                    < ctx.char_simple_infos@[ci].logical_roots@.len()
        },
        None => true,
    } by {
        let info = scheme.char_simple_infos@[ci];
        assert(simple_info_ok(info, ctx.num_groups(), ctx.n_levels()));
        if li < info.level_instructions@.len() {
            let row = info.level_instructions@[li];
        }
    }
    assert forall|ci: int, ri: int|
        0 <= ci < ctx.n() && 0 <= ri < ctx.char_simple_infos@[ci].logical_roots@.len() implies parts_ok(
        (#[trigger] ctx.char_simple_infos@[ci].logical_roots@[ri]).full_code_parts@,
        ctx.num_groups(),
    ) by {
        let info = scheme.char_simple_infos@[ci];
        assert(simple_info_ok(info, ctx.num_groups(), ctx.n_levels()));
    }
}

/// The cells of the keys.
fn key_cells(totals: &crate::totals::Totals) -> (r: Vec<u128>)
    requires
        totals.wf(),
    ensures
        r@.len() == EQUIV_TABLE_SIZE,
        forall|k: int| 0 <= k < EQUIV_TABLE_SIZE ==> #[trigger] r@[k] == totals.cells@[k],
{
    let mut r: Vec<u128> = Vec::new();
    while r.len() < EQUIV_TABLE_SIZE
        invariant
            totals.wf(),
            r@.len() <= EQUIV_TABLE_SIZE,
            forall|k: int| 0 <= k < r@.len() ==> #[trigger] r@[k] == totals.cells@[k],
        decreases EQUIV_TABLE_SIZE - r@.len(),
    {
        let k = r.len();
        r.push(totals.cells[k]);
    }
    r
}

/// The frequency of the characters with fixed codes fits in a `u64`.
proof fn fixed_cover_bound(ctx: &OptContext, codes: Seq<FixedSimpleCode>)
    requires
        ctx.wf_full(),
        forall|j: int| 0 <= j < codes.len() ==> (#[trigger] codes[j]).ci < ctx.n(),
        forall|i: int, j: int|
            #![trigger codes[i], codes[j]]
            0 <= i < j < codes.len() ==> codes[i].ci != codes[j].ci,
    ensures
        sum(fixed_terms(ctx.char_infos@, codes, COVERED as int)) <= ctx.total_frequency,
{
    let order = Seq::new(codes.len(), |j: int| codes[j].ci);
    let g = ctx.freqs();
    let t = fixed_terms(ctx.char_infos@, codes, COVERED as int);
    assert forall|i: int| 0 <= i < order.len() implies (#[trigger] order[i]) < g.len() by {
        let x = codes[i];
    }
    assert(order.no_duplicates()) by {
        assert forall|i: int, j: int| 0 <= i < order.len() && 0 <= j < order.len() && i != j implies order[i]
            != order[j] by {
            let x = codes[i];
            let y = codes[j];
        }
    }
    permuted_sum(g, order);
    assert(t =~= Seq::new(order.len(), |i: int| g[order[i] as int])) by {
        assert forall|j: int| 0 <= j < t.len() implies t[j] == g[order[j] as int] by {
            let x = codes[j];
            let f = ctx.freq(x.ci as int);
            assert(f * 1 == f);
        }
    }
}

/// Nobody has two fixed codes.
proof fn accepted_distinct(
    layout: crate::types::KeyLayout,
    levels: Seq<SimpleCodeLevel>,
    infos: Seq<CharInfo>,
    splits: Seq<(char, Vec<String>, u64)>,
    lens: Seq<usize>,
    entries: Seq<(char, String)>,
)
    ensures
        ({
            let accepted = accepted_codes(layout, levels, infos, splits, lens, entries);
            forall|i: int, j: int|
                #![trigger accepted[i], accepted[j]]
                0 <= i < j < accepted.len() ==> accepted[i].ci != accepted[j].ci
        }),
    decreases entries.len(),
{
    if entries.len() > 0 {
        accepted_distinct(layout, levels, infos, splits, lens, entries.drop_last());
        let front = accepted_codes(layout, levels, infos, splits, lens, entries.drop_last());
        let accepted = accepted_codes(layout, levels, infos, splits, lens, entries);
        assert forall|i: int, j: int|
            #![trigger accepted[i], accepted[j]]
            0 <= i < j < accepted.len() implies accepted[i].ci != accepted[j].ci by {
            if j == front.len() {
                assert(front[i] == accepted[i]);
                assert(!taken(front, accepted[j].ci));
                assert(front[i].ci != accepted[j].ci);
            } else {
                assert(front[i] == accepted[i] && front[j] == accepted[j]);
            }
        }
    }
}

/// As many fixed codes at most take up a code as there are.
proof fn occupancy_bound(ctx: &OptContext, codes: Seq<FixedSimpleCode>)
    requires
        codes.len() <= u32::MAX,
        ctx.simple_fixed_occupancy@.len() <= ctx.n_levels(),
        counts_occupants(ctx.simple_fixed_occupancy@, codes, ctx.n_levels()),
    ensures
        forall|li: int, code: u32| #[trigger] ctx.occ_total(li, code) <= u32::MAX,
{
    assert forall|li: int, code: u32| #[trigger] ctx.occ_total(li, code) <= u32::MAX by {
        let entries = table_entries(ctx.simple_fixed_occupancy@, li, code);
        assert(entries == ctx.occ_entries(li, code));
        assert(entry_counts(entries) =~= Seq::new(entries.len(), |i: int| entries[i].1 as int));
        let s = all_occupants(codes, li, code);
        sum_constant(codes.len(), 1);
        sum_le(s, Seq::new(codes.len(), |i: int| 1int));
    }
}

/// The characters tied to each group, and the candidates among them.
fn tie_tables(ctx: &OptContext, rules: &Vec<Vec<Vec<(usize, usize)>>>) -> (r: (
    Vec<Vec<usize>>,
    Vec<Vec<usize>>,
))
    requires
        ctx.wf_full(),
        rules@.len() == ctx.n(),
        ctx.char_simple_infos@.len() == ctx.n(),
        ctx.simple_is_candidate@.len() == ctx.n(),
        forall|ci: int|
            #![trigger ctx.char_simple_infos@[ci]]
            0 <= ci < ctx.n() ==> simple_info_ok(
                ctx.char_simple_infos@[ci],
                ctx.num_groups(),
                ctx.n_levels(),
            ),
        forall|ci: int|
            #![trigger rules@[ci]]
            0 <= ci < ctx.n() ==> rules_ok(ctx.char_simple_infos@[ci], rules@[ci]@),
    ensures
        r.0@.len() == ctx.num_groups(),
        r.1@.len() == ctx.num_groups(),
        forall|g: int|
            #![trigger r.0@[g]]
            0 <= g < ctx.num_groups() ==> if ctx.enable_simple_code {
                &&& lists_tied(ctx.char_simple_infos@, rules@, ctx.n_levels(), g, r.0@[g]@)
                &&& lists_tied_marked(
                    ctx.char_simple_infos@,
                    rules@,
                    ctx.n_levels(),
                    g,
                    ctx.simple_is_candidate@,
                    r.1@[g]@,
                )
                &&& r.0@[g]@.len() == 0 ==> r.1@[g]@.len() == 0
            } else {
                r.0@[g]@.len() == 0 && r.1@[g]@.len() == 0
            },
{
    let num_groups = ctx.groups.len();
    let n_levels = ctx.simple_config.levels.len();
    let mut lists: Vec<Vec<usize>> = Vec::new();
    let mut chosen: Vec<Vec<usize>> = Vec::new();
    let mut g: usize = 0;
    while g < num_groups
        invariant
            g <= num_groups == ctx.num_groups(),
            n_levels == ctx.n_levels(),
            ctx.wf_full(),
            rules@.len() == ctx.n(),
            ctx.char_simple_infos@.len() == ctx.n(),
            ctx.simple_is_candidate@.len() == ctx.n(),
            forall|ci: int|
                #![trigger ctx.char_simple_infos@[ci]]
                0 <= ci < ctx.n() ==> simple_info_ok(
                    ctx.char_simple_infos@[ci],
                    ctx.num_groups(),
                    ctx.n_levels(),
                ),
            forall|ci: int|
                #![trigger rules@[ci]]
                0 <= ci < ctx.n() ==> rules_ok(ctx.char_simple_infos@[ci], rules@[ci]@),
            lists@.len() == g,
            chosen@.len() == g,
            forall|i: int|
                #![trigger lists@[i]]
                0 <= i < g ==> if ctx.enable_simple_code {
                    &&& lists_tied(ctx.char_simple_infos@, rules@, ctx.n_levels(), i, lists@[i]@)
                    &&& lists_tied_marked(
                        ctx.char_simple_infos@,
                        rules@,
                        ctx.n_levels(),
                        i,
                        ctx.simple_is_candidate@,
                        chosen@[i]@,
                    )
                    &&& lists@[i]@.len() == 0 ==> chosen@[i]@.len() == 0
                } else {
                    lists@[i]@.len() == 0 && chosen@[i]@.len() == 0
                },
        decreases num_groups - g,
    {
        if ctx.enable_simple_code {
            let (list, some) = tied_to_group(
                &ctx.char_simple_infos,
                rules,
                n_levels,
                g,
                &ctx.simple_is_candidate,
                Ghost(ctx.num_groups()),
            );
            lists.push(list);
            chosen.push(some);
        } else {
            lists.push(Vec::new());
            chosen.push(Vec::new());
        }
        g = g + 1;
    }
    (lists, chosen)
}

/// A context with the lists of [`tie_tables`] names the characters tied to each group.
proof fn ties_built(ctx: &OptContext, scheme: Scheme)
    requires
        ctx.enable_simple_code == scheme.enable_simple_code,
        forall|g: int|
            #![trigger ctx.group_to_simple_affected@[g]]
            0 <= g < ctx.num_groups() ==> if ctx.enable_simple_code {
                &&& lists_tied(
                    ctx.char_simple_infos@,
                    scheme.resolved_rules@,
                    ctx.n_levels(),
                    g,
                    ctx.group_to_simple_affected@[g]@,
                )
                &&& lists_tied_marked(
                    ctx.char_simple_infos@,
                    scheme.resolved_rules@,
                    ctx.n_levels(),
                    g,
                    ctx.simple_is_candidate@,
                    ctx.group_to_simple_affected_candidate@[g]@,
                )
            } else {
                ctx.group_to_simple_affected@[g]@.len() == 0
                    && ctx.group_to_simple_affected_candidate@[g]@.len() == 0
            },
    ensures
        built_ties(ctx, scheme),
{
}

/// The list of the candidates tied to a group covers all whose simple codes have a part of it.
proof fn ties_cover(ctx: &OptContext, scheme: Scheme, g: int)
    requires
        ctx.n() <= usize::MAX,
        ctx.instructions_ok(),
        ctx.simple_is_candidate@.len() == ctx.n(),
        0 <= g < ctx.num_groups(),
        built_ties(ctx, scheme),
        !scheme.enable_simple_code ==> forall|ci: int| 0 <= ci < ctx.n() ==> !#[trigger] ctx.simple_is_candidate@[ci],
    ensures
        affected_covers(ctx, ctx.group_to_simple_affected_candidate@[g]@, g),
{
    let list = ctx.group_to_simple_affected_candidate@[g]@;
    let x = ctx.group_to_simple_affected@[g];
    let infos = ctx.char_simple_infos@;
    let rules = scheme.resolved_rules@;
    let marks = ctx.simple_is_candidate@;
    let n_levels = ctx.n_levels();
    let q = |ci: int| tied(infos[ci], rules[ci]@, n_levels, g) && marks[ci];
    if scheme.enable_simple_code {
        assert(lists_ascending(list, ctx.n(), q));
        assert forall|i: int| 0 <= i < list.len() implies (#[trigger] list[i]) < ctx.n()
            && ctx.simple_is_candidate@[list[i] as int] by {
            assert(q(list[i] as int));
        }
    }
    assert forall|ci: int, li: int|
        #![trigger ctx.simple_parts(ci, li)]
        0 <= ci < ctx.n() && 0 <= li < ctx.n_levels() && ctx.simple_is_candidate@[ci] && ctx.simple_parts(
            ci,
            li,
        ) is Some && mentions(ctx.simple_parts(ci, li)->0, g) implies list.contains(ci as usize) by {
        let info = ctx.char_simple_infos@[ci];
        let steps = ctx.instructions(ci, li)->0;
        let parts = ctx.simple_parts(ci, li)->0;
        let i = choose|i: int| 0 <= i < parts.len() && part_group(#[trigger] parts[i]) == Some(g);
        assert(ctx.step_in_range(ci, steps[i]));
        assert(parts[i] == ctx.step_part(ci, steps[i]));
        assert(steps[i].0 < info.logical_roots@.len());
        assert(picks(info, steps[i], g));
        assert(steps_pick(info, steps, g));
        assert(info.level_instructions@[li] matches Some(v) && steps_pick(info, v@, g));
        assert(levels_pick(info, ctx.n_levels(), g));
        assert(q(ci));
    }
}

impl OptContext {
    /// Works out the context of a scheme without fixed codes.
    pub fn new(scheme: Scheme) -> (ctx: OptContext)
        requires
            scheme.ok_full(),
            scheme.ok_simple(),
        ensures
            ctx.wf_full(),
            ctx.wf_simple(),
            built(&ctx, scheme, Seq::empty()),
    {
        let none: Vec<(char, String)> = Vec::new();
        assert(none@ =~= Seq::<(char, String)>::empty());
        OptContext::new_with_fixed(scheme, &none)
    }

    /// Works out the context of a scheme with fixed codes: `fixed_simple_codes` names characters
    /// and the codes that they have whatever the assignment is. None of these may ask for the space
    /// key on a level that does not commit with it.
    #[verifier::rlimit(80)]
    #[verifier::spinoff_prover]
    pub fn new_with_fixed(scheme: Scheme, fixed_simple_codes: &Vec<(char, String)>) -> (ctx: OptContext)
        requires
            scheme.ok_full(),
            scheme.ok_simple(),
            fixed_simple_codes@.len() <= u32::MAX,
            forall|i: int|
                0 <= i < fixed_simple_codes@.len() ==> !space_misplaced(
                    scheme,
                    #[trigger] fixed_simple_codes@[i],
                ),
        ensures
            ctx.wf_full(),
            ctx.wf_simple(),
            built(&ctx, scheme, fixed_simple_codes@),
    {
        let ghost scheme0 = scheme;
        let active_coverage = scheme.active_coverage;
        let output_coverage = scheme.output_coverage;
        let (laid_out, splits, resolved_rules) = lay_out(scheme);
        let mut ctx = laid_out;
        let ghost ctx0 = ctx;
        let n = ctx.char_infos.len();
        let order = frequency_order(&ctx.char_infos);
        proof {
            assert(ctx.freqs() =~= infos_freqs(ctx.char_infos@));
        }
        let lens = level_lens(&ctx.char_simple_infos, ctx.simple_config.levels.len());
        let (active, active_frequency, output) = if ctx.enable_simple_code {
            let asked = lesser_of(active_coverage, output_coverage);
            let (active, active_frequency) = covering_prefix(
                &ctx.char_infos,
                &order,
                asked,
                ctx.total_frequency,
            );
            let (output, _all) = covering_prefix(
                &ctx.char_infos,
                &order,
                output_coverage,
                ctx.total_frequency,
            );
            (active, active_frequency, output)
        } else {
            (Vec::new(), 0, Vec::new())
        };
        if ctx.enable_simple_code {
            if ctx.simple_protect_top_n > 0 {
                let count = if ctx.simple_protect_top_n <= n {
                    ctx.simple_protect_top_n
                } else {
                    n
                };
                ctx.simple_is_topn = marks_of(&order, count, n);
            }
            proof {
                wf_full_frame(&ctx0, &ctx);
            }
            let (savings, eligible) = saving_tables(&ctx);
            ctx.simple_level_capacity = level_capacities(&ctx, &lens);
            ctx.simple_base_saving = savings;
            ctx.simple_eligible = eligible;
        }
        ctx.simple_active_frequency = active_frequency;
        proof {
            wf_full_frame(&ctx0, &ctx);
        }
        let none: Vec<(char, String)> = Vec::new();
        assert(none@ =~= Seq::<(char, String)>::empty());
        let entries = if ctx.enable_simple_code {
            fixed_simple_codes
        } else {
            &none
        };
        let fixed = sift_fixed_codes(&ctx, &splits, &lens, entries);
        proof {
            assert(fixed.right(&ctx, splits@, lens@, entries@));
            assert forall|j: int| 0 <= j < fixed.codes@.len() implies crate::codes::are_keys(
                (#[trigger] fixed.codes@[j]).keys@,
            ) && fixed.codes@[j].keys@.len() <= MAX_CODE_LEN && (fixed.codes@[j].li matches Some(li) ==> li
                < ctx.n_levels()) by {
                let x = ctx.char_infos@[fixed.codes@[j].ci as int];
            }
        }
        let occupancy = if entries.len() > 0 {
            occupancy_table(&fixed.codes, ctx.simple_config.levels.len())
        } else {
            Vec::new()
        };
        proof {
            if entries@.len() == 0 {
                assert(fixed.codes@ =~= Seq::<FixedSimpleCode>::empty());
                assert(occupancy@ =~= Seq::empty());
                empty_occupancy(ctx.n_levels());
            }
        }
        let ghost totals = fixed.totals;
        let ghost codes = fixed.codes@;
        proof {
            accepted_distinct(
                ctx.layout,
                ctx.simple_config.levels@,
                ctx.char_infos@,
                splits@,
                lens@,
                entries@,
            );
            let accepted = counting_codes(&ctx, scheme0, lens@, fixed_simple_codes@);
            assert forall|i: int, j: int|
                #![trigger codes[i], codes[j]]
                0 <= i < j < codes.len() implies codes[i].ci != codes[j].ci by {
                assert(desc_of(codes[i]) == accepted[i]);
                assert(desc_of(codes[j]) == accepted[j]);
            }
            fixed_cover_bound(&ctx, codes);
            let x = totals.cells@[COVERED as int];
        }
        ctx.fixed_covered_freq = fixed.totals.cells[COVERED] as u64;
        ctx.fixed_key_presses = fixed.totals.cells[PRESSES];
        ctx.fixed_key_usage = key_cells(&fixed.totals);
        let FixedCodes { codes: fixed_codes, assigned, .. } = fixed;
        ctx.simple_fixed_codes = fixed_codes;
        ctx.simple_fixed_assigned = assigned;
        ctx.simple_fixed_occupancy = occupancy;
        ctx.simple_candidate_chars = drop_marked(&active, &ctx.simple_fixed_assigned);
        ctx.simple_output_candidate_chars = drop_marked(&output, &ctx.simple_fixed_assigned);
        ctx.simple_is_candidate = marks_of(
            &ctx.simple_candidate_chars,
            ctx.simple_candidate_chars.len(),
            n,
        );
        proof {
            let list = ctx.simple_candidate_chars@;
            assert(list.take(list.len() as int) =~= list);
            wf_full_frame(&ctx0, &ctx);
        }
        let (tied_lists, candidate_lists) = tie_tables(&ctx, &resolved_rules);
        ctx.group_to_simple_affected = tied_lists;
        ctx.group_to_simple_affected_candidate = candidate_lists;
        proof {
            ties_built(&ctx, scheme0);
            wf_full_frame(&ctx0, &ctx);
            occupancy_bound(&ctx, codes);
            assert forall|ci: int, li: int|
                #![trigger ctx.step_count(ci, li)]
                ctx.enable_simple_code && 0 <= ci < ctx.n() && 0 <= li < ctx.n_levels() implies space(
                ctx.step_count(ci, li),
            ) <= ctx.simple_level_capacity@[li] by {
                longest_steps_range(&ctx, li, ctx.n());
                space_monotone(ctx.step_count(ci, li), lens@[li] as nat);
            }
            assert forall|g: int| 0 <= g < ctx.num_groups() implies affected_covers(
                &ctx,
                (#[trigger] ctx.group_to_simple_affected_candidate@[g])@,
                g,
            ) by {
                ties_cover(&ctx, scheme0, g);
            }
            assert forall|ci: int| 0 <= ci < ctx.n() implies (#[trigger] ctx.simple_fixed_assigned@[ci]
                <==> exists|i: int|
                0 <= i < ctx.simple_fixed_codes@.len() && (#[trigger] ctx.simple_fixed_codes@[i]).ci
                    == ci) by {
                let accepted = counting_codes(&ctx, scheme0, lens@, fixed_simple_codes@);
                if taken(accepted, ci) {
                    let j = choose|j: int| 0 <= j < accepted.len() && (#[trigger] accepted[j]).ci == ci;
                    assert(desc_of(ctx.simple_fixed_codes@[j]) == accepted[j]);
                }
                if exists|i: int|
                    0 <= i < ctx.simple_fixed_codes@.len() && (
                    #[trigger] ctx.simple_fixed_codes@[i]).ci == ci {
                    let j = choose|i: int|
                        0 <= i < ctx.simple_fixed_codes@.len() && (
                        #[trigger] ctx.simple_fixed_codes@[i]).ci == ci;
                    assert(desc_of(ctx.simple_fixed_codes@[j]) == accepted[j]);
                }
            }
            assert(built_candidates(&ctx, scheme0, order@));
            assert(built_fixed(&ctx, scheme0, lens@, fixed_simple_codes@));
            assert(built_full(&ctx, scheme0));
        }
        ctx
    }
}

} // verus!
