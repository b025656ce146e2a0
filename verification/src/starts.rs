//! First assignments of a search. Each puts every group on a key that the group may be put on.

use rand::rngs::ThreadRng;
use vstd::prelude::*;

use crate::context::OptContext;
use crate::dice::{below, shuffle};
use crate::order::{descending, rank_descending};
use crate::types::{KeyLayout, EQUIV_TABLE_SIZE};

verus! {

/// The highest key that a layout knows where it knows none of the characters asked for.
pub const DEFAULT_TOP_KEY: usize = 25;

impl OptContext {
    /// The keys that a group may be put on.
    pub open spec fn choices(&self, g: int) -> Seq<u8> {
        self.groups@[g].allowed_keys@
    }

    /// Every group may be put on some key, and on keys alone.
    pub open spec fn playable(&self) -> bool {
        forall|g: int|
            #![trigger self.groups@[g]]
            0 <= g < self.num_groups() ==> {
                &&& self.choices(g).len() > 0
                &&& forall|i: int|
                    0 <= i < self.choices(g).len() ==> (#[trigger] self.choices(g)[i]) < EQUIV_TABLE_SIZE
            }
    }

    /// An assignment puts every group on a key that the group may be put on.
    pub open spec fn permits(&self, assignment: Seq<u8>) -> bool {
        &&& self.assigns(assignment)
        &&& forall|g: int|
            0 <= g < assignment.len() ==> self.choices(g).contains(#[trigger] assignment[g])
    }

    /// The number of characters of each group.
    pub open spec fn sizes(&self) -> Seq<u64> {
        Seq::new(self.num_groups(), |g: int| self.group_to_chars@[g]@.len() as u64)
    }
}

/// The highest key among those of the characters of a text; `DEFAULT_TOP_KEY` where none of them
/// stands for a key.
pub open spec fn top_key(layout: KeyLayout, text: Seq<char>) -> int {
    match highest(layout, text) {
        Some(k) => k,
        None => DEFAULT_TOP_KEY as int,
    }
}

/// The highest key among those of the characters of a text.
pub open spec fn highest(layout: KeyLayout, text: Seq<char>) -> Option<int>
    decreases text.len(),
{
    if text.len() == 0 {
        None
    } else {
        let before = highest(layout, text.drop_last());
        match layout.key_of_char(text.last()) {
            None => before,
            Some(k) => match before {
                Some(b) if b >= k => before,
                _ => Some(k as int),
            },
        }
    }
}

/// The highest key among those of the characters of a text.
pub fn highest_allowed(layout: &KeyLayout, text: &Vec<char>) -> (k: usize)
    ensures
        k == top_key(*layout, text@),
{
    let mut best: Option<usize> = None;
    let mut i: usize = 0;
    assert(text@.take(0) =~= Seq::<char>::empty());
    while i < text.len()
        invariant
            i <= text@.len(),
            highest(*layout, text@.take(i as int)) == match best {
                Some(k) => Some(k as int),
                None => None::<int>,
            },
        decreases text@.len() - i,
    {
        assert(text@.take(i + 1).drop_last() =~= text@.take(i as int));
        assert(text@.take(i + 1).last() == text@[i as int]);
        match layout.char_to_key_index(text[i]) {
            Some(k) => {
                best = match best {
                    Some(b) => if b >= k {
                        Some(b)
                    } else {
                        Some(k)
                    },
                    None => Some(k),
                };
            },
            None => {},
        }
        i = i + 1;
    }
    assert(text@.take(text@.len() as int) =~= text@);
    match best {
        Some(k) => k,
        None => DEFAULT_TOP_KEY,
    }
}

/// How many of the first `i` groups of an order are on key `k`. Keys above `top` are not counted.
pub open spec fn uses(order: Seq<usize>, assignment: Seq<u8>, top: int, i: int, k: u8) -> nat
    decreases i,
{
    if i <= 0 || k > top {
        0
    } else {
        uses(order, assignment, top, i - 1, k) + if assignment[order[i - 1] as int] == k {
            1nat
        } else {
            0
        }
    }
}

/// Whether each group of an order, in turn, was put on a key that is least used so far.
pub open spec fn balanced(ctx: &OptContext, order: Seq<usize>, assignment: Seq<u8>, top: int) -> bool {
    forall|i: int, j: int|
        #![trigger order[i], ctx.choices(order[i] as int)[j]]
        0 <= i < order.len() && 0 <= j < ctx.choices(order[i] as int).len() ==> uses(
            order,
            assignment,
            top,
            i,
            assignment[order[i] as int],
        ) <= uses(order, assignment, top, i, ctx.choices(order[i] as int)[j])
}

/// Whether a key is among the given ones and no other of them has a lower count.
pub open spec fn least(allowed: Seq<u8>, counts: Seq<usize>, k: u8) -> bool {
    &&& allowed.contains(k)
    &&& forall|i: int| 0 <= i < allowed.len() ==> counts[k as int] <= counts[#[trigger] allowed[i] as int]
}

/// The keys with the lowest count, in order.
pub fn least_used(allowed: &Vec<u8>, counts: &Vec<usize>) -> (r: Vec<u8>)
    requires
        allowed@.len() > 0,
        forall|i: int| 0 <= i < allowed@.len() ==> (#[trigger] allowed@[i]) < counts@.len(),
    ensures
        r@ == allowed@.filter(|k: u8| least(allowed@, counts@, k)),
        r@.len() > 0,
        forall|i: int| 0 <= i < r@.len() ==> least(allowed@, counts@, #[trigger] r@[i]),
{
    let mut low: usize = counts[allowed[0] as usize];
    let ghost mut at: int = 0;
    let mut i: usize = 1;
    while i < allowed.len()
        invariant
            1 <= i <= allowed@.len(),
            0 <= at < i,
            forall|j: int| 0 <= j < allowed@.len() ==> (#[trigger] allowed@[j]) < counts@.len(),
            low == counts@[allowed@[at] as int],
            forall|j: int| 0 <= j < i ==> low <= counts@[#[trigger] allowed@[j] as int],
        decreases allowed@.len() - i,
    {
        if counts[allowed[i] as usize] < low {
            low = counts[allowed[i] as usize];
            proof {
                at = i as int;
            }
        }
        i = i + 1;
    }
    let ghost p = |k: u8| least(allowed@, counts@, k);
    let mut r: Vec<u8> = Vec::new();
    let mut j: usize = 0;
    assert(allowed@.take(0) =~= Seq::<u8>::empty());
    proof {
        reveal(Seq::filter);
        assert(p(allowed@[at]));
    }
    while j < allowed.len()
        invariant
            j <= allowed@.len(),
            0 <= at < allowed@.len(),
            forall|l: int| 0 <= l < allowed@.len() ==> (#[trigger] allowed@[l]) < counts@.len(),
            low == counts@[allowed@[at] as int],
            forall|l: int| 0 <= l < allowed@.len() ==> low <= counts@[#[trigger] allowed@[l] as int],
            p == (|k: u8| least(allowed@, counts@, k)),
            r@ == allowed@.take(j as int).filter(p),
            forall|l: int| 0 <= l < r@.len() ==> least(allowed@, counts@, #[trigger] r@[l]),
            at < j ==> r@.len() > 0,
        decreases allowed@.len() - j,
    {
        reveal(Seq::filter);
        assert(allowed@.take(j + 1).drop_last() =~= allowed@.take(j as int));
        let k = allowed[j];
        assert(allowed@.contains(k));
        assert(p(k) <==> counts@[k as int] == low) by {
            if p(k) {
                assert(counts@[k as int] <= counts@[allowed@[at] as int]);
            }
        }
        if counts[k as usize] == low {
            r.push(k);
        }
        j = j + 1;
    }
    assert(allowed@.take(allowed@.len() as int) =~= allowed@);
    r
}

/// The groups, those with the most characters first.
pub fn groups_by_size(ctx: &OptContext) -> (order: Vec<usize>)
    requires
        ctx.wf_full(),
    ensures
        descending(ctx.sizes(), order@),
{
    let mut values: Vec<u64> = Vec::new();
    let mut g: usize = 0;
    while g < ctx.groups.len()
        invariant
            ctx.wf_full(),
            g <= ctx.num_groups(),
            values@ == ctx.sizes().take(g as int),
        decreases ctx.num_groups() - g,
    {
        values.push(ctx.group_to_chars[g].len() as u64);
        assert(values@ =~= ctx.sizes().take(g + 1));
        g = g + 1;
    }
    assert(ctx.sizes().take(g as int) =~= ctx.sizes());
    rank_descending(&values)
}

/// Counts of earlier groups do not depend on groups that come later.
proof fn uses_frame(order: Seq<usize>, a: Seq<u8>, b: Seq<u8>, top: int, i: int, k: u8)
    requires
        0 <= i <= order.len(),
        forall|j: int| 0 <= j < i ==> a[#[trigger] order[j] as int] == b[order[j] as int],
    ensures
        uses(order, a, top, i, k) == uses(order, b, top, i, k),
    decreases i,
{
    if i > 0 {
        uses_frame(order, a, b, top, i - 1, k);
        let g = order[i - 1];
    }
}

proof fn uses_bound(order: Seq<usize>, a: Seq<u8>, top: int, i: int, k: u8)
    requires
        0 <= i,
    ensures
        uses(order, a, top, i, k) <= i,
    decreases i,
{
    if i > 0 {
        uses_bound(order, a, top, i - 1, k);
    }
}

/// Puts the groups, those with the most characters first, each on one of its least used keys. Use
/// is counted up to the highest key of the characters given. Ties are decided by chance.
pub fn greedy_balance_init(ctx: &OptContext, allowed: &Vec<char>, rng: &mut ThreadRng) -> (r: Vec<u8>)
    requires
        ctx.wf_full(),
        ctx.playable(),
    ensures
        ctx.permits(r@),
        exists|order: Seq<usize>| #[trigger]
            descending(ctx.sizes(), order) && balanced(ctx, order, r@, top_key(ctx.layout, allowed@)),
{
    let top = highest_allowed(&ctx.layout, allowed);
    let order = groups_by_size(ctx);
    let n = ctx.groups.len();
    let mut assignment: Vec<u8> = filled(n);
    let mut counts: Vec<usize> = zeros();
    let mut i: usize = 0;
    while i < order.len()
        invariant
            i <= order@.len(),
            ctx.wf_full(),
            ctx.playable(),
            n == ctx.num_groups(),
            descending(ctx.sizes(), order@),
            assignment@.len() == n,
            forall|g: int| 0 <= g < n ==> (#[trigger] assignment@[g]) < EQUIV_TABLE_SIZE,
            counts@.len() == EQUIV_TABLE_SIZE,
            forall|k: u8|
                k < EQUIV_TABLE_SIZE ==> #[trigger] counts@[k as int] == uses(
                    order@,
                    assignment@,
                    top as int,
                    i as int,
                    k,
                ),
            forall|j: int|
                0 <= j < i ==> ctx.choices(order@[j] as int).contains(
                    assignment@[#[trigger] order@[j] as int],
                ),
            forall|j: int, l: int|
                #![trigger order@[j], ctx.choices(order@[j] as int)[l]]
                0 <= j < i && 0 <= l < ctx.choices(order@[j] as int).len() ==> uses(
                    order@,
                    assignment@,
                    top as int,
                    j,
                    assignment@[order@[j] as int],
                ) <= uses(order@, assignment@, top as int, j, ctx.choices(order@[j] as int)[l]),
        decreases order@.len() - i,
    {
        let gi = order[i];
        let ghost before = assignment@;
        assert(gi < n);
        let choices = &ctx.groups[gi].allowed_keys;
        proof {
            assert forall|j: int| 0 <= j < choices@.len() implies (#[trigger] choices@[j])
                < counts@.len() by {
                assert(ctx.choices(gi as int)[j] == choices@[j]);
            }
        }
        let candidates = least_used(choices, &counts);
        let pick = below(rng, candidates.len());
        let best = candidates[pick];
        assert(least(choices@, counts@, best));
        proof {
            let at = choices@.index_of(best);
            assert(choices@[at] == best);
            assert(ctx.choices(gi as int)[at] == best);
        }
        assignment.set(gi, best);
        proof {
            assert forall|j: int, k: u8| 0 <= j <= i implies #[trigger] uses(
                order@,
                before,
                top as int,
                j,
                k,
            ) == uses(order@, assignment@, top as int, j, k) by {
                assert forall|l: int| 0 <= l < j implies before[#[trigger] order@[l] as int]
                    == assignment@[order@[l] as int] by {
                    assert(order@[l] != order@[i as int]);
                }
                uses_frame(order@, before, assignment@, top as int, j, k);
            }
            uses_bound(order@, assignment@, top as int, i as int, best);
        }
        let ghost counts0 = counts@;
        if (best as usize) <= top {
            assert(counts@[best as int] == uses(order@, before, top as int, i as int, best));
            counts.set(best as usize, counts[best as usize] + 1);
        }
        proof {
            assert forall|k: u8| k < EQUIV_TABLE_SIZE implies #[trigger] counts@[k as int] == uses(
                order@,
                assignment@,
                top as int,
                i + 1,
                k,
            ) by {
                assert(counts0[k as int] == uses(order@, before, top as int, i as int, k));
                assert(uses(order@, before, top as int, i as int, k) == uses(
                    order@,
                    assignment@,
                    top as int,
                    i as int,
                    k,
                ));
            }
            assert forall|j: int, l: int|
                #![trigger order@[j], ctx.choices(order@[j] as int)[l]]
                0 <= j < i + 1 && 0 <= l < ctx.choices(order@[j] as int).len() implies uses(
                order@,
                assignment@,
                top as int,
                j,
                assignment@[order@[j] as int],
            ) <= uses(order@, assignment@, top as int, j, ctx.choices(order@[j] as int)[l]) by {
                let k = ctx.choices(order@[j] as int)[l];
                let mine = assignment@[order@[j] as int];
                if j < i {
                    assert(order@[j] != order@[i as int]);
                    assert(uses(order@, before, top as int, j, mine) == uses(
                        order@,
                        assignment@,
                        top as int,
                        j,
                        mine,
                    ));
                    assert(uses(order@, before, top as int, j, k) == uses(
                        order@,
                        assignment@,
                        top as int,
                        j,
                        k,
                    ));
                } else {
                    assert(choices@[l] == k);
                    assert(counts0[best as int] <= counts0[choices@[l] as int]);
                    assert(counts0[best as int] == uses(order@, before, top as int, i as int, best));
                    assert(counts0[k as int] == uses(order@, before, top as int, i as int, k));
                    assert(uses(order@, before, top as int, i as int, best) == uses(
                        order@,
                        assignment@,
                        top as int,
                        i as int,
                        best,
                    ));
                    assert(uses(order@, before, top as int, i as int, k) == uses(
                        order@,
                        assignment@,
                        top as int,
                        i as int,
                        k,
                    ));
                }
            }
            assert forall|j: int| 0 <= j < i + 1 implies ctx.choices(order@[j] as int).contains(
                assignment@[#[trigger] order@[j] as int],
            ) by {
                if j < i {
                    assert(order@[j] != order@[i as int]);
                }
            }
        }
        i = i + 1;
    }
    proof {
        everyone_listed(order@, n as nat);
        assert forall|g: int| 0 <= g < assignment@.len() implies ctx.choices(g).contains(
            #[trigger] assignment@[g],
        ) by {
            assert(order@.contains(g as usize));
            let j = order@.index_of(g as usize);
            assert(order@[j] == g as usize);
        }
        assert(balanced(ctx, order@, assignment@, top as int));
    }
    assignment
}

/// A list of `n` distinct numbers below `n` holds all of them.
pub proof fn everyone_listed(order: Seq<usize>, n: nat)
    requires
        order.len() == n,
        order.no_duplicates(),
        forall|i: int| 0 <= i < order.len() ==> (#[trigger] order[i]) < n,
    ensures
        forall|x: usize| x < n ==> #[trigger] order.contains(x),
{
    let all = vstd::set_lib::set_int_range(0, n as int);
    vstd::set_lib::lemma_int_range(0, n as int);
    let listed = order.map_values(|x: usize| x as int).to_set();
    let ints = order.map_values(|x: usize| x as int);
    assert(ints.no_duplicates());
    ints.unique_seq_to_set();
    assert(listed.subset_of(all)) by {
        assert forall|x: int| listed.contains(x) implies all.contains(x) by {
            let i = ints.index_of(x);
            assert(ints[i] == x);
            assert(order[i] < n);
        }
    }
    vstd::set_lib::lemma_subset_equality(listed, all);
    assert forall|x: usize| x < n implies #[trigger] order.contains(x) by {
        assert(all.contains(x as int));
        assert(listed.contains(x as int));
        let i = ints.index_of(x as int);
        assert(ints[i] == x as int);
        assert(order[i] == x);
    }
}

/// `n` times key 0.
fn filled(n: usize) -> (r: Vec<u8>)
    ensures
        r@.len() == n,
        forall|i: int| 0 <= i < n ==> #[trigger] r@[i] == 0,
{
    let mut r: Vec<u8> = Vec::new();
    let mut i: usize = 0;
    while i < n
        invariant
            i <= n,
            r@.len() == i,
            forall|j: int| 0 <= j < i ==> #[trigger] r@[j] == 0,
        decreases n - i,
    {
        r.push(0);
        i = i + 1;
    }
    r
}

/// A zero for every key.
fn zeros() -> (r: Vec<usize>)
    ensures
        r@.len() == EQUIV_TABLE_SIZE,
        forall|i: int| 0 <= i < r@.len() ==> #[trigger] r@[i] == 0,
{
    let mut r: Vec<usize> = Vec::new();
    let mut i: usize = 0;
    while i < EQUIV_TABLE_SIZE
        invariant
            i <= EQUIV_TABLE_SIZE,
            r@.len() == i,
            forall|j: int| 0 <= j < i ==> #[trigger] r@[j] == 0,
        decreases EQUIV_TABLE_SIZE - i,
    {
        r.push(0);
        i = i + 1;
    }
    r
}

/// When key `k` was last used by the first `i` groups of an order, counted from one; 0 where it was
/// not.
pub open spec fn last_used(order: Seq<usize>, assignment: Seq<u8>, i: int, k: u8) -> int
    decreases i,
{
    if i <= 0 {
        0
    } else if assignment[order[i - 1] as int] == k {
        i
    } else {
        last_used(order, assignment, i - 1, k)
    }
}

proof fn last_used_frame(order: Seq<usize>, a: Seq<u8>, b: Seq<u8>, i: int, k: u8)
    requires
        0 <= i <= order.len(),
        forall|j: int| 0 <= j < i ==> a[#[trigger] order[j] as int] == b[order[j] as int],
    ensures
        last_used(order, a, i, k) == last_used(order, b, i, k),
    decreases i,
{
    if i > 0 {
        last_used_frame(order, a, b, i - 1, k);
        let g = order[i - 1];
    }
}

/// Whether a key is the first of those given whose last use is longest ago.
pub open spec fn stalest(allowed: Seq<u8>, used: spec_fn(u8) -> int, k: u8) -> bool {
    exists|at: int|
        {
            &&& 0 <= at < allowed.len()
            &&& #[trigger] allowed[at] == k
            &&& forall|j: int|
                #![trigger allowed[j]]
                0 <= j < allowed.len() ==> used(k) <= used(allowed[j])
            &&& forall|j: int| #![trigger allowed[j]] 0 <= j < at ==> used(k) < used(allowed[j])
        }
}

/// Whether each group of an order, in turn, was put on the first key whose last use is longest ago.
pub open spec fn spread(ctx: &OptContext, order: Seq<usize>, assignment: Seq<u8>) -> bool {
    forall|i: int|
        #![trigger order[i]]
        0 <= i < order.len() ==> stalest(
            ctx.choices(order[i] as int),
            |k: u8| last_used(order, assignment, i, k),
            assignment[order[i] as int],
        )
}

/// Whether a list holds the numbers below `n`, each once.
pub open spec fn is_order(order: Seq<usize>, n: nat) -> bool {
    &&& order.len() == n
    &&& order.no_duplicates()
    &&& forall|i: int| 0 <= i < order.len() ==> (#[trigger] order[i]) < n
}

/// The place of the first key whose last use is longest ago.
fn stalest_key(allowed: &Vec<u8>, used: &Vec<usize>) -> (at: usize)
    requires
        allowed@.len() > 0,
        forall|i: int| 0 <= i < allowed@.len() ==> (#[trigger] allowed@[i]) < used@.len(),
    ensures
        at < allowed@.len(),
        forall|j: int|
            #![trigger allowed@[j]]
            0 <= j < allowed@.len() ==> used@[allowed@[at as int] as int] <= used@[allowed@[j] as int],
        forall|j: int|
            #![trigger allowed@[j]]
            0 <= j < at ==> used@[allowed@[at as int] as int] < used@[allowed@[j] as int],
{
    let mut at: usize = 0;
    let mut i: usize = 1;
    while i < allowed.len()
        invariant
            at < i <= allowed@.len(),
            forall|j: int| 0 <= j < allowed@.len() ==> (#[trigger] allowed@[j]) < used@.len(),
            forall|j: int|
                #![trigger allowed@[j]]
                0 <= j < i ==> used@[allowed@[at as int] as int] <= used@[allowed@[j] as int],
            forall|j: int|
                #![trigger allowed@[j]]
                0 <= j < at ==> used@[allowed@[at as int] as int] < used@[allowed@[j] as int],
        decreases allowed@.len() - i,
    {
        if used[allowed[i] as usize] < used[allowed[at] as usize] {
            at = i;
        }
        i = i + 1;
    }
    at
}

/// Puts the groups, in the order given, each on the first of its keys whose last use is longest
/// ago.
pub fn spread_over(ctx: &OptContext, order: &Vec<usize>) -> (r: Vec<u8>)
    requires
        ctx.playable(),
        is_order(order@, ctx.num_groups()),
    ensures
        ctx.permits(r@),
        spread(ctx, order@, r@),
{
    let n = ctx.groups.len();
    let mut assignment: Vec<u8> = filled(n);
    let mut used: Vec<usize> = zeros();
    let mut i: usize = 0;
    while i < order.len()
        invariant
            i <= order@.len(),
            ctx.playable(),
            n == ctx.num_groups(),
            is_order(order@, n as nat),
            assignment@.len() == n,
            forall|g: int| 0 <= g < n ==> (#[trigger] assignment@[g]) < EQUIV_TABLE_SIZE,
            used@.len() == EQUIV_TABLE_SIZE,
            forall|k: u8|
                k < EQUIV_TABLE_SIZE ==> #[trigger] used@[k as int] == last_used(
                    order@,
                    assignment@,
                    i as int,
                    k,
                ),
            forall|j: int|
                #![trigger order@[j]]
                0 <= j < i ==> stalest(
                    ctx.choices(order@[j] as int),
                    |k: u8| last_used(order@, assignment@, j, k),
                    assignment@[order@[j] as int],
                ),
        decreases order@.len() - i,
    {
        let gi = order[i];
        let ghost before = assignment@;
        let ghost used0 = used@;
        assert(gi < n);
        let choices = &ctx.groups[gi].allowed_keys;
        proof {
            assert forall|j: int| 0 <= j < choices@.len() implies (#[trigger] choices@[j]) < used@.len() by {
                assert(ctx.choices(gi as int)[j] == choices@[j]);
            }
        }
        let at = stalest_key(choices, &used);
        let best = choices[at];
        assert(best < EQUIV_TABLE_SIZE);
        assignment.set(gi, best);
        used.set(best as usize, i + 1);
        proof {
            assert forall|j: int, k: u8| 0 <= j <= i implies #[trigger] last_used(order@, before, j, k)
                == last_used(order@, assignment@, j, k) by {
                assert forall|l: int| 0 <= l < j implies before[#[trigger] order@[l] as int]
                    == assignment@[order@[l] as int] by {
                    assert(order@[l] != order@[i as int]);
                }
                last_used_frame(order@, before, assignment@, j, k);
            }
            assert forall|k: u8| k < EQUIV_TABLE_SIZE implies #[trigger] used@[k as int] == last_used(
                order@,
                assignment@,
                i + 1,
                k,
            ) by {
                assert(used0[k as int] == last_used(order@, before, i as int, k));
            }
            assert forall|j: int| #![trigger order@[j]] 0 <= j < i + 1 implies stalest(
                ctx.choices(order@[j] as int),
                |k: u8| last_used(order@, assignment@, j, k),
                assignment@[order@[j] as int],
            ) by {
                let allowed = ctx.choices(order@[j] as int);
                let f = |k: u8| last_used(order@, before, j, k);
                let g = |k: u8| last_used(order@, assignment@, j, k);
                assert forall|k: u8| #[trigger] f(k) == g(k) by {
                    assert(last_used(order@, before, j, k) == last_used(order@, assignment@, j, k));
                }
                if j < i {
                    assert(order@[j] != order@[i as int]);
                    assert(stalest(allowed, f, before[order@[j] as int]));
                    assert(f =~= g);
                } else {
                    assert(choices@ == allowed);
                    assert forall|l: int| #![trigger allowed[l]] 0 <= l < allowed.len() implies g(best)
                        <= g(allowed[l]) by {
                        assert(used0[best as int] <= used0[choices@[l] as int]);
                        assert(used0[best as int] == f(best));
                        assert(used0[allowed[l] as int] == f(allowed[l]));
                    }
                    assert forall|l: int| #![trigger allowed[l]] 0 <= l < at implies g(best) < g(
                        allowed[l],
                    ) by {
                        assert(used0[best as int] < used0[choices@[l] as int]);
                        assert(used0[best as int] == f(best));
                        assert(used0[allowed[l] as int] == f(allowed[l]));
                    }
                    assert(allowed[at as int] == best);
                }
            }
        }
        i = i + 1;
    }
    proof {
        everyone_listed(order@, n as nat);
        assert forall|g: int| 0 <= g < assignment@.len() implies ctx.choices(g).contains(
            #[trigger] assignment@[g],
        ) by {
            assert(order@.contains(g as usize));
            let j = order@.index_of(g as usize);
            assert(order@[j] == g as usize);
            assert(stalest(
                ctx.choices(order@[j] as int),
                |k: u8| last_used(order@, assignment@, j, k),
                assignment@[order@[j] as int],
            ));
        }
    }
    assignment
}

/// The numbers below `n`, ascending.
fn ascending(n: usize) -> (r: Vec<usize>)
    ensures
        r@.len() == n,
        forall|i: int| 0 <= i < n ==> #[trigger] r@[i] == i,
{
    let mut r: Vec<usize> = Vec::new();
    let mut i: usize = 0;
    while i < n
        invariant
            i <= n,
            r@.len() == i,
            forall|j: int| 0 <= j < i ==> #[trigger] r@[j] == j,
        decreases n - i,
    {
        r.push(i);
        i = i + 1;
    }
    r
}

/// What holds the numbers below `n` in some order is an order of them.
proof fn shuffled_is_order(was: Seq<usize>, now: Seq<usize>, n: nat)
    requires
        was.len() == n,
        forall|i: int| 0 <= i < n ==> #[trigger] was[i] == i,
        now.to_multiset() == was.to_multiset(),
        now.len() == was.len(),
    ensures
        is_order(now, n),
{
    broadcast use vstd::seq_lib::group_to_multiset_ensures;

    assert(was.no_duplicates());
    was.lemma_multiset_has_no_duplicates();
    now.lemma_multiset_has_no_duplicates_conv();
    assert forall|i: int| 0 <= i < now.len() implies (#[trigger] now[i]) < n by {
        assert(now.contains(now[i]));
        assert(now.to_multiset().count(now[i]) > 0);
        assert(was.to_multiset().count(now[i]) > 0);
        assert(was.contains(now[i]));
        let j = was.index_of(now[i]);
        assert(was[j] == now[i]);
    }
}

/// Puts the groups, in a random order, each on the first of its keys whose last use is longest ago.
pub fn spread_greedy_init(ctx: &OptContext, rng: &mut ThreadRng) -> (r: Vec<u8>)
    requires
        ctx.playable(),
    ensures
        ctx.permits(r@),
        exists|order: Seq<usize>| #[trigger] is_order(order, ctx.num_groups()) && spread(ctx, order, r@),
{
    let mut order = ascending(ctx.groups.len());
    let ghost was = order@;
    shuffle(rng, &mut order);
    proof {
        shuffled_is_order(was, order@, ctx.num_groups());
    }
    spread_over(ctx, &order)
}

/// Puts each group on a random key of its own.
pub fn random_valid_init(ctx: &OptContext, rng: &mut ThreadRng) -> (r: Vec<u8>)
    requires
        ctx.playable(),
    ensures
        ctx.permits(r@),
{
    let mut r: Vec<u8> = Vec::new();
    let mut g: usize = 0;
    while g < ctx.groups.len()
        invariant
            ctx.playable(),
            g <= ctx.num_groups(),
            r@.len() == g,
            forall|h: int| 0 <= h < g ==> (#[trigger] r@[h]) < EQUIV_TABLE_SIZE,
            forall|h: int| 0 <= h < g ==> ctx.choices(h).contains(#[trigger] r@[h]),
        decreases ctx.num_groups() - g,
    {
        let choices = &ctx.groups[g].allowed_keys;
        let pick = below(rng, choices.len());
        assert(ctx.choices(g as int)[pick as int] < EQUIV_TABLE_SIZE);
        r.push(choices[pick]);
        g = g + 1;
    }
    r
}

} // verus!
