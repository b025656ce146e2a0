//! The simple codes of an assignment as a list, in the order in which they were given out.

use vstd::prelude::*;

use crate::context::OptContext;
use crate::incremental::belongs;
use crate::order::{sort_keys, sorted_strictly, SortKey};
use crate::simple_evaluator::{terms_for, SimpleEvaluator};
use crate::simple_level::{LevelView, SimpleLevelTracker};
use crate::simple_select::{linked, Terms};

verus! {

/// The order of a list of simple codes: by level, then by code, then by rank.
pub open spec fn listed_before(
    ctx: &OptContext,
    terms: Terms,
    levels: Seq<LevelView>,
    a: (usize, usize),
    b: (usize, usize),
) -> bool {
    let c = levels[a.0 as int].codes[a.1 as int]->0;
    let d = levels[b.0 as int].codes[b.1 as int]->0;
    ||| a.0 < b.0
    ||| a.0 == b.0 && c < d
    ||| a.0 == b.0 && c == d && terms.rank_key(ctx, a.0 as int, a.1 as int).before(
        terms.rank_key(ctx, b.0 as int, b.1 as int),
    )
}

/// Whether a list is in order.
pub open spec fn listed_in_order(
    ctx: &OptContext,
    terms: Terms,
    levels: Seq<LevelView>,
    r: Seq<(usize, usize)>,
) -> bool {
    forall|i: int, j: int|
        #![trigger r[i], r[j]]
        0 <= i < j < r.len() ==> listed_before(ctx, terms, levels, r[i], r[j])
}

/// Whether a character has its simple code at a level, and that code comes before the code `bound`
/// of level `li`.
spec fn comes_before(ctx: &OptContext, levels: Seq<LevelView>, li: int, bound: int, x: (usize, usize)) -> bool {
    &&& x.0 < ctx.n_levels()
    &&& x.1 < ctx.n()
    &&& levels[x.0 as int].selected[x.1 as int]
    &&& {
        ||| x.0 < li
        ||| x.0 == li && levels[li].codes[x.1 as int]->0 < bound
    }
}

/// Whether a list holds, in order, all that comes before the code `bound` of level `li`.
spec fn lists_up_to(
    ctx: &OptContext,
    terms: Terms,
    levels: Seq<LevelView>,
    r: Seq<(usize, usize)>,
    li: int,
    bound: int,
) -> bool {
    &&& listed_in_order(ctx, terms, levels, r)
    &&& forall|x: (usize, usize)| #[trigger]
        r.contains(x) <==> comes_before(ctx, levels, li, bound, x)
}

/// Whether a list holds, in order, every character that has its simple code at some level, with that
/// level.
pub open spec fn lists_selected(
    ctx: &OptContext,
    terms: Terms,
    levels: Seq<LevelView>,
    r: Seq<(usize, usize)>,
) -> bool {
    &&& listed_in_order(ctx, terms, levels, r)
    &&& forall|x: (usize, usize)| #[trigger]
        r.contains(x) <==> x.0 < ctx.n_levels() && x.1 < ctx.n()
            && levels[x.0 as int].selected[x.1 as int]
}

/// Lists the characters of a bucket that have its code.
fn list_bucket(
    ctx: &OptContext,
    Ghost(terms): Ghost<Terms>,
    Ghost(levels): Ghost<Seq<LevelView>>,
    li: usize,
    c: u32,
    members: &Vec<u32>,
    selected: &Vec<bool>,
    r: &mut Vec<(usize, usize)>,
)
    requires
        ctx.n() <= u32::MAX,
        li < ctx.n_levels(),
        linked(ctx, li as int, levels[li as int]),
        levels[li as int].members.contains_key(c),
        members@ == levels[li as int].members[c],
        selected@ == levels[li as int].selected,
        selected@.len() == ctx.n(),
        terms.settled(ctx, li as int, levels[li as int], c),
        lists_up_to(ctx, terms, levels, old(r)@, li as int, c as int),
    ensures
        lists_up_to(ctx, terms, levels, final(r)@, li as int, c + 1),
{
    let ghost level = levels[li as int];
    let ghost m = members@;
    let mut j: usize = 0;
    proof {
        assert(m.take(0) =~= Seq::<u32>::empty());
    }
    while j < members.len()
        invariant
            ctx.n() <= u32::MAX,
            li < ctx.n_levels(),
            level == levels[li as int],
            linked(ctx, li as int, level),
            level.members.contains_key(c),
            m == members@,
            m == level.members[c],
            selected@ == level.selected,
            selected@.len() == ctx.n(),
            terms.settled(ctx, li as int, level, c),
            j <= m.len(),
            listed_in_order(ctx, terms, levels, r@),
            forall|x: (usize, usize)| #[trigger]
                r@.contains(x) <==> comes_before(ctx, levels, li as int, c as int, x) || (x.0 == li && x.1
                    < ctx.n() && level.selected[x.1 as int] && m.take(j as int).contains(x.1 as u32)),
        decreases m.len() - j,
    {
        let ci = members[j];
        let ghost was = r@;
        let ghost front = m.take(j as int);
        let ghost front2 = m.take(j + 1);
        proof {
            assert(level.members[c][j as int] < ctx.n());
            assert(level.codes[ci as int] == Some(c));
            assert forall|y: u32| #[trigger] front2.contains(y) <==> front.contains(y) || y == ci by {
                if front2.contains(y) {
                    let i = front2.index_of(y);
                    if i < j {
                        assert(front[i] == y);
                    }
                }
                if front.contains(y) {
                    let i = front.index_of(y);
                    assert(front2[i] == y);
                }
                assert(front2[j as int] == ci);
            }
        }
        if selected[ci as usize] {
            let item = (li, ci as usize);
            proof {
                assert forall|i: int| 0 <= i < was.len() implies listed_before(
                    ctx,
                    terms,
                    levels,
                    #[trigger] was[i],
                    item,
                ) by {
                    let x = was[i];
                    assert(was.contains(x));
                    if x.0 == li && level.codes[x.1 as int]->0 >= c {
                        assert(front.contains(x.1 as u32));
                        let k = front.index_of(x.1 as u32);
                        assert(m[k] == x.1 as u32);
                        assert(level.members[c][k] < ctx.n());
                        assert(level.codes[x.1 as int] == Some(c));
                        assert(terms.rank_key(ctx, li as int, m[k] as int).before(
                            terms.rank_key(ctx, li as int, m[j as int] as int),
                        ));
                    }
                }
            }
            r.push(item);
            proof {
                assert(r@[was.len() as int] == item);
                assert forall|x: (usize, usize)| #[trigger] r@.contains(x) <==> was.contains(x) || x
                    == item by {
                    if was.contains(x) {
                        let i = was.index_of(x);
                        assert(r@[i] == x);
                    }
                    if r@.contains(x) {
                        let i = r@.index_of(x);
                        if i < was.len() {
                            assert(was[i] == x);
                        }
                    }
                }
            }
        }
        proof {
            assert forall|x: (usize, usize)| #[trigger] r@.contains(x) <==> comes_before(
                ctx,
                levels,
                li as int,
                c as int,
                x,
            ) || (x.0 == li && x.1 < ctx.n() && level.selected[x.1 as int] && front2.contains(
                x.1 as u32,
            )) by {
                let a = was.contains(x);
                let b = front2.contains(x.1 as u32);
            }
        }
        j = j + 1;
    }
    proof {
        assert(m.take(m.len() as int) =~= m);
        assert forall|x: (usize, usize)| #[trigger] r@.contains(x) <==> comes_before(
            ctx,
            levels,
            li as int,
            c + 1,
            x,
        ) by {
            if x.0 == li && x.1 < ctx.n() && level.selected[x.1 as int] {
                let y = level.codes[x.1 as int];
                if m.contains(x.1 as u32) {
                    let k = m.index_of(x.1 as u32);
                    assert(level.members[c][k] == x.1 as u32);
                }
                if y == Some(c) {
                    assert(level.members[c].contains(x.1 as u32));
                }
            }
        }
    }
}

/// The codes of a level that have a bucket, ascending.
fn codes_ascending(level: &SimpleLevelTracker) -> (r: Vec<u32>)
    requires
        level.buckets.wf(),
    ensures
        forall|i: int, j: int| 0 <= i < j < r@.len() ==> (#[trigger] r@[i]) < (#[trigger] r@[j]),
        forall|c: u32| #[trigger] r@.contains(c) <==> level.buckets@.contains_key(c),
{
    let codes = level.buckets.nonempty_codes();
    let mut keys: Vec<SortKey> = Vec::new();
    let mut i: usize = 0;
    while i < codes.len()
        invariant
            i <= codes@.len(),
            keys@.len() == i,
            forall|j: int|
                0 <= j < i ==> #[trigger] keys@[j] == (SortKey {
                    major: 0,
                    minor: 0,
                    id: codes@[j] as usize,
                }),
        decreases codes@.len() - i,
    {
        keys.push(SortKey { major: 0, minor: 0, id: codes[i] as usize });
        i = i + 1;
    }
    let ghost unsorted = keys@;
    proof {
        assert forall|a: int, b: int|
            #![trigger unsorted[a], unsorted[b]]
            0 <= a < b < unsorted.len() implies unsorted[a].id != unsorted[b].id by {
            assert(codes@[a] != codes@[b]);
        }
    }
    let ranked = sort_keys(keys);
    proof {
        sorted_strictly(unsorted, ranked@);
        assert forall|j: int| 0 <= j < ranked@.len() implies unsorted.contains(#[trigger] ranked@[j]) by {
            assert(ranked@.contains(ranked@[j]));
        }
        assert forall|j: int| 0 <= j < ranked@.len() implies (#[trigger] ranked@[j]).major == 0
            && ranked@[j].minor == 0 && ranked@[j].id <= u32::MAX by {
            let k = unsorted.index_of(ranked@[j]);
            assert(unsorted[k] == ranked@[j]);
        }
    }
    let mut r: Vec<u32> = Vec::new();
    let mut k: usize = 0;
    while k < ranked.len()
        invariant
            k <= ranked@.len(),
            r@.len() == k,
            forall|j: int|
                0 <= j < ranked@.len() ==> (#[trigger] ranked@[j]).major == 0 && ranked@[j].minor == 0
                    && ranked@[j].id <= u32::MAX,
            forall|j: int| 0 <= j < k ==> #[trigger] r@[j] == ranked@[j].id,
        decreases ranked@.len() - k,
    {
        assert(ranked@[k as int].id <= u32::MAX);
        r.push(ranked[k].id as u32);
        k = k + 1;
    }
    proof {
        assert forall|a: int, b: int| 0 <= a < b < r@.len() implies (#[trigger] r@[a]) < (#[trigger] r@[b]) by {
            assert(ranked@[a].before(ranked@[b]));
        }
        assert forall|c: u32| #[trigger] r@.contains(c) <==> level.buckets@.contains_key(c) by {
            assert(codes@.contains(c) <==> codes@.to_set().contains(c));
            if r@.contains(c) {
                let a = r@.index_of(c);
                let b = unsorted.index_of(ranked@[a]);
                assert(unsorted[b] == ranked@[a]);
                assert(codes@[b] == c);
            }
            if codes@.contains(c) {
                let b = codes@.index_of(c);
                assert(unsorted.contains(unsorted[b]));
                assert(ranked@.contains(unsorted[b]));
                let a = ranked@.index_of(unsorted[b]);
                assert(r@[a] == c);
            }
        }
    }
    r
}

/// Lists the characters that have their simple code at a level.
fn list_level(
    ctx: &OptContext,
    Ghost(terms): Ghost<Terms>,
    Ghost(levels): Ghost<Seq<LevelView>>,
    li: usize,
    level: &SimpleLevelTracker,
    r: &mut Vec<(usize, usize)>,
)
    requires
        ctx.n() <= u32::MAX,
        li < ctx.n_levels(),
        level@ == levels[li as int],
        level.shell(ctx, ctx.simple_level_capacity@[li as int]),
        linked(ctx, li as int, levels[li as int]),
        forall|c: u32| #[trigger]
            levels[li as int].members.contains_key(c) ==> terms.settled(
                ctx,
                li as int,
                levels[li as int],
                c,
            ),
        lists_up_to(ctx, terms, levels, old(r)@, li as int, 0),
    ensures
        lists_up_to(ctx, terms, levels, final(r)@, li + 1, 0),
{
    let codes = codes_ascending(level);
    let mut k: usize = 0;
    let ghost mut bound: int = 0;
    while k < codes.len()
        invariant
            ctx.n() <= u32::MAX,
            li < ctx.n_levels(),
            level@ == levels[li as int],
            level.shell(ctx, ctx.simple_level_capacity@[li as int]),
            linked(ctx, li as int, levels[li as int]),
            forall|c: u32| #[trigger]
                levels[li as int].members.contains_key(c) ==> terms.settled(
                    ctx,
                    li as int,
                    levels[li as int],
                    c,
                ),
            k <= codes@.len(),
            forall|i: int, j: int|
                0 <= i < j < codes@.len() ==> (#[trigger] codes@[i]) < (#[trigger] codes@[j]),
            forall|c: u32| #[trigger] codes@.contains(c) <==> level.buckets@.contains_key(c),
            bound == if k == 0 { 0 } else { codes@[k - 1] + 1 },
            lists_up_to(ctx, terms, levels, r@, li as int, bound),
        decreases codes@.len() - k,
    {
        let c = codes[k];
        proof {
            assert(codes@.contains(c));
            assert(levels[li as int].members.contains_key(c));
            level.buckets.contained_is_addressed(c);
            assert forall|x: (usize, usize)| #[trigger] r@.contains(x) <==> comes_before(
                ctx,
                levels,
                li as int,
                c as int,
                x,
            ) by {
                if x.0 == li && x.1 < ctx.n() && levels[li as int].selected[x.1 as int] {
                    let y = levels[li as int].codes[x.1 as int];
                    let d = y->0;
                    assert(codes@.contains(d));
                    let i = codes@.index_of(d);
                    assert(codes@[i] == d);
                    if k > 0 {
                        let z = codes@[k - 1];
                    }
                }
            }
        }
        match level.buckets.get(c) {
            Some(b) => {
                list_bucket(
                    ctx,
                    Ghost(terms),
                    Ghost(levels),
                    li,
                    c,
                    &b.members,
                    &level.selected,
                    r,
                );
            },
            None => {
                assert(false);
            },
        }
        proof {
            bound = c + 1;
        }
        k = k + 1;
    }
    proof {
        assert forall|x: (usize, usize)| #[trigger] r@.contains(x) <==> comes_before(
            ctx,
            levels,
            li + 1,
            0,
            x,
        ) by {
            if x.0 == li && x.1 < ctx.n() && levels[li as int].selected[x.1 as int] {
                let y = levels[li as int].codes[x.1 as int];
                let d = y->0;
                assert(codes@.contains(d));
                let i = codes@.index_of(d);
                assert(codes@[i] == d);
                let z = codes@[codes@.len() - 1];
            }
        }
    }
}

impl SimpleEvaluator {
    /// The characters that have simple codes, each with its level: by level, by code, and those with
    /// one code by rank. Fixed codes are not among them.
    pub fn selected_ordered(&self, ctx: &OptContext) -> (r: Vec<(usize, usize)>)
        requires
            ctx.wf_full(),
            ctx.wf_levels(),
            self.inv(ctx),
        ensures
            lists_selected(ctx, terms_for(ctx, self.at@), self.sel@.levels, r@),
    {
        let ghost terms = terms_for(ctx, self.at@);
        let ghost levels = self.sel@.levels;
        let mut r: Vec<(usize, usize)> = Vec::new();
        let mut li: usize = 0;
        proof {
            assert(belongs(ctx, terms, self.output_scope, self.sel@));
        }
        while li < self.sel.levels.len()
            invariant
                ctx.wf_full(),
                ctx.wf_levels(),
                self.inv(ctx),
                terms == terms_for(ctx, self.at@),
                levels == self.sel@.levels,
                belongs(ctx, terms, self.output_scope, self.sel@),
                self.sel.levels@.len() == ctx.n_levels(),
                li <= ctx.n_levels(),
                lists_up_to(ctx, terms, levels, r@, li as int, 0),
            decreases ctx.n_levels() - li,
        {
            assert(levels[li as int] == self.sel.levels@[li as int]@);
            list_level(ctx, Ghost(terms), Ghost(levels), li, &self.sel.levels[li], &mut r);
            li = li + 1;
        }
        proof {
            assert forall|x: (usize, usize)| #[trigger] r@.contains(x) <==> x.0 < ctx.n_levels() && x.1
                < ctx.n() && levels[x.0 as int].selected[x.1 as int] by {}
        }
        r
    }
}

} // verus!
