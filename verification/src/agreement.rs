//! There is one selection that belongs to given terms, however it was reached.

use vstd::prelude::*;

use crate::context::OptContext;
use crate::incremental::{belongs, has_simple_code, reached};
use crate::lists::sorted_lists_equal;
use crate::selection::{grand_cell, level_cells, levels_sized, SelView};
use crate::simple_level::LevelView;
use crate::simple_select::{linked, Terms};
use crate::totals::cell_terms;

verus! {

/// Whether two levels have the same candidates with the same codes in the same buckets in the same
/// order, and the same candidates selected with the same keys.
pub open spec fn same_level(n: nat, a: LevelView, b: LevelView) -> bool {
    &&& a.members == b.members
    &&& a.codes == b.codes
    &&& a.selected == b.selected
    &&& forall|ci: int|
        #![trigger a.selected[ci]]
        #![trigger b.selected[ci]]
        0 <= ci < n && a.selected[ci] ==> a.keys[ci] == b.keys[ci]
}

/// Whether two selections are the same in all that they decide.
pub open spec fn same_decisions(n: nat, a: SelView, b: SelView) -> bool {
    &&& a.levels.len() == b.levels.len()
    &&& a.assigned == b.assigned
    &&& forall|li: int|
        #![trigger a.levels[li]]
        #![trigger b.levels[li]]
        0 <= li < a.levels.len() ==> same_level(n, a.levels[li], b.levels[li])
}

/// Two lists of the same characters, each in the order of the ranks, are equal.
proof fn ranked_lists_equal(ctx: &OptContext, terms: Terms, li: int, s: Seq<u32>, t: Seq<u32>)
    requires
        forall|x: u32|
            #![trigger s.contains(x)]
            #![trigger t.contains(x)]
            s.contains(x) <==> t.contains(x),
        forall|i: int, j: int|
            #![trigger s[i], s[j]]
            0 <= i < j < s.len() ==> terms.rank_key(ctx, li, s[i] as int).before(
                terms.rank_key(ctx, li, s[j] as int),
            ),
        forall|i: int, j: int|
            #![trigger t[i], t[j]]
            0 <= i < j < t.len() ==> terms.rank_key(ctx, li, t[i] as int).before(
                terms.rank_key(ctx, li, t[j] as int),
            ),
    ensures
        s == t,
{
    let before = |x: u32, y: u32|
        terms.rank_key(ctx, li, x as int).before(terms.rank_key(ctx, li, y as int));
    assert forall|i: int, j: int| #![trigger s[i], s[j]] 0 <= i < j < s.len() implies before(s[i], s[j]) by {}
    assert forall|i: int, j: int| #![trigger t[i], t[j]] 0 <= i < j < t.len() implies before(t[i], t[j]) by {}
    sorted_lists_equal(s, t, before);
}

/// The members of a bucket are those who contend with its code.
proof fn members_are_contenders(ctx: &OptContext, li: int, level: LevelView, c: u32)
    requires
        linked(ctx, li, level),
        ctx.n() <= u32::MAX,
        level.members.contains_key(c),
    ensures
        forall|x: u32| #[trigger]
            level.members[c].contains(x) <==> x < ctx.n() && level.codes[x as int] == Some(c),
{
    assert forall|x: u32| #[trigger] level.members[c].contains(x) <==> x < ctx.n()
        && level.codes[x as int] == Some(c) by {
        if level.members[c].contains(x) {
            let j = level.members[c].index_of(x);
            assert(level.members[c][j] == x);
        }
    }
}

/// Levels where the same candidates contend are the same.
proof fn settled_levels_agree(ctx: &OptContext, terms: Terms, li: int, a: LevelView, b: LevelView)
    requires
        ctx.n() <= u32::MAX,
        0 <= li < ctx.n_levels(),
        linked(ctx, li, a),
        linked(ctx, li, b),
        a.codes.len() == ctx.n(),
        a.selected.len() == ctx.n(),
        b.selected.len() == ctx.n(),
        a.codes == b.codes,
        forall|c: u32| #[trigger] a.members.contains_key(c) ==> a.members[c].len() > 0,
        forall|c: u32| #[trigger] b.members.contains_key(c) ==> b.members[c].len() > 0,
        forall|c: u32| #[trigger] a.members.contains_key(c) ==> terms.settled(ctx, li, a, c),
        forall|c: u32| #[trigger] b.members.contains_key(c) ==> terms.settled(ctx, li, b, c),
    ensures
        same_level(ctx.n(), a, b),
{
    assert forall|c: u32| #[trigger] a.members.contains_key(c) <==> b.members.contains_key(c) by {
        if a.members.contains_key(c) {
            let x = a.members[c][0];
            let y = b.codes[x as int];
        }
        if b.members.contains_key(c) {
            let x = b.members[c][0];
            let y = a.codes[x as int];
        }
    }
    assert forall|c: u32| #[trigger] a.members.contains_key(c) implies a.members[c] == b.members[c] by {
        assert(b.members.contains_key(c));
        members_are_contenders(ctx, li, a, c);
        members_are_contenders(ctx, li, b, c);
        assert forall|x: u32| #[trigger] a.members[c].contains(x) <==> b.members[c].contains(x) by {}
        ranked_lists_equal(ctx, terms, li, a.members[c], b.members[c]);
    }
    assert(a.members =~= b.members);
    assert forall|ci: int| #![trigger a.selected[ci]] #![trigger b.selected[ci]] 0 <= ci < ctx.n() implies a.selected[ci]
        == b.selected[ci] && (a.selected[ci] ==> a.keys[ci] == b.keys[ci]) by {
        let x = a.codes[ci];
        let y = b.codes[ci];
        if let Some(c) = a.codes[ci] {
            assert(a.members[c].contains(ci as u32));
            let j = a.members[c].index_of(ci as u32);
            assert(a.members[c][j] == ci as u32);
            assert(b.members[c][j] == ci as u32);
            assert(a.members.contains_key(c) && b.members.contains_key(c));
        }
    }
    assert(a.selected =~= b.selected);
}

/// Two selections that belong to the same surroundings are the same up to level `li`.
proof fn agree_below(ctx: &OptContext, terms: Terms, output_scope: bool, a: SelView, b: SelView, li: int)
    requires
        ctx.wf_full(),
        ctx.wf_simple(),
        levels_sized(ctx, a.levels),
        levels_sized(ctx, b.levels),
        belongs(ctx, terms, output_scope, a),
        belongs(ctx, terms, output_scope, b),
        0 <= li <= ctx.n_levels(),
    ensures
        forall|lj: int|
            #![trigger a.levels[lj]]
            #![trigger b.levels[lj]]
            0 <= lj < li ==> same_level(ctx.n(), a.levels[lj], b.levels[lj]),
    decreases li,
{
    if li > 0 {
        let l = li - 1;
        agree_below(ctx, terms, output_scope, a, b, l);
        let la = a.levels[l];
        let lb = b.levels[l];
        assert(linked(ctx, l, la) && linked(ctx, l, lb));
        assert forall|ci: int| #![trigger la.codes[ci]] 0 <= ci < ctx.n() implies la.codes[ci]
            == lb.codes[ci] by {
            assert(reached(a.levels, l, ci) == reached(b.levels, l, ci)) by {
                if reached(a.levels, l, ci) {
                    assert forall|lk: int| 0 <= lk < l implies !(#[trigger] b.levels[lk]).selected[ci] by {
                        assert(!a.levels[lk].selected[ci]);
                    }
                }
                if reached(b.levels, l, ci) {
                    assert forall|lk: int| 0 <= lk < l implies !(#[trigger] a.levels[lk]).selected[ci] by {
                        assert(!b.levels[lk].selected[ci]);
                    }
                }
            }
            let x = a.levels[l].codes[ci];
            let y = b.levels[l].codes[ci];
        }
        assert(la.codes =~= lb.codes);
        assert forall|c: u32| #[trigger] la.members.contains_key(c) implies terms.settled(ctx, l, la, c) by {
            assert(a.levels[l].members.contains_key(c));
        }
        assert forall|c: u32| #[trigger] lb.members.contains_key(c) implies terms.settled(ctx, l, lb, c) by {
            assert(b.levels[l].members.contains_key(c));
        }
        settled_levels_agree(ctx, terms, l, la, lb);
    }
}

/// The selection that belongs to an assignment is unique: two selections that belong
/// to the same terms decide the same. In particular one that was kept up to date move by move
/// decides what one built from scratch decides.
pub proof fn selections_agree(ctx: &OptContext, terms: Terms, output_scope: bool, a: SelView, b: SelView)
    requires
        ctx.wf_full(),
        ctx.wf_simple(),
        levels_sized(ctx, a.levels),
        levels_sized(ctx, b.levels),
        a.assigned.len() == ctx.n(),
        b.assigned.len() == ctx.n(),
        belongs(ctx, terms, output_scope, a),
        belongs(ctx, terms, output_scope, b),
    ensures
        same_decisions(ctx.n(), a, b),
{
    agree_below(ctx, terms, output_scope, a, b, ctx.n_levels() as int);
    assert forall|ci: int| #![trigger a.assigned[ci]] 0 <= ci < ctx.n() implies a.assigned[ci]
        == b.assigned[ci] by {
        let x = b.assigned[ci];
        if has_simple_code(a.levels, ci) {
            let l = choose|l: int| 0 <= l < a.levels.len() && (#[trigger] a.levels[l]).selected[ci];
            assert(b.levels[l].selected[ci]);
        }
        if has_simple_code(b.levels, ci) {
            let l = choose|l: int| 0 <= l < b.levels.len() && (#[trigger] b.levels[l]).selected[ci];
            assert(a.levels[l].selected[ci]);
        }
    }
    assert(a.assigned =~= b.assigned);
}

/// Selections that decide the same have the same totals, cell by cell.
pub proof fn same_decisions_same_totals(ctx: &OptContext, a: SelView, b: SelView, cell: int)
    requires
        same_decisions(ctx.n(), a, b),
    ensures
        grand_cell(ctx, a.levels, cell) == grand_cell(ctx, b.levels, cell),
{
    assert forall|li: int| 0 <= li < a.levels.len() implies level_cells(ctx, a.levels, cell)[li]
        == level_cells(ctx, b.levels, cell)[li] by {
        let la = a.levels[li];
        let lb = b.levels[li];
        assert(cell_terms(ctx, la.selected, la.keys, cell) =~= cell_terms(
            ctx,
            lb.selected,
            lb.keys,
            cell,
        ));
    }
    assert(level_cells(ctx, a.levels, cell) =~= level_cells(ctx, b.levels, cell));
}

} // verus!
