//! How often each key is pressed for the full codes, weighted by frequency.

use vstd::prelude::*;

use crate::codes::{part_keys, part_keys_are_keys, parts_ok};
use crate::context::OptContext;
use crate::sums::{sum, sum_le, sum_nonnegative, sum_plus, sum_prefix, sum_scaled};
use crate::totals::{
    cell_limit, cell_unit, key_count, key_count_bound, simple_keys_ok, Totals, CELLS, PRESSES,
};
use crate::types::{EQUIV_TABLE_SIZE, GROUP_MARKER};

verus! {

/// What each character adds to a cell of the totals.
pub open spec fn usage_terms(ctx: &OptContext, assignment: Seq<u8>, cell: int) -> Seq<int> {
    Seq::new(
        ctx.n(),
        |ci: int| ctx.freq(ci) * cell_unit(ctx.full_keys(assignment, ci), cell),
    )
}

/// A cell of the totals over the full codes of all characters.
pub open spec fn usage(ctx: &OptContext, assignment: Seq<u8>, cell: int) -> int {
    sum(usage_terms(ctx, assignment, cell))
}

/// Whether totals are those of the full codes under an assignment.
pub open spec fn usage_right(ctx: &OptContext, assignment: Seq<u8>, totals: Totals) -> bool {
    &&& totals.wf()
    &&& forall|cell: int|
        0 <= cell < CELLS ==> #[trigger] totals.cells@[cell] == usage(ctx, assignment, cell)
}

/// What one character adds is bounded by its frequency and the length of its code.
proof fn usage_term_bound(ctx: &OptContext, assignment: Seq<u8>, cell: int, ci: int)
    requires
        ctx.wf_full(),
        0 <= ci < ctx.n(),
        0 <= cell < CELLS,
    ensures
        0 <= usage_terms(ctx, assignment, cell)[ci] <= 6 * ctx.freq(ci),
{
    let keys = ctx.full_keys(assignment, ci);
    let info = ctx.char_infos@[ci];
    key_count_bound(keys, cell);
    let u = cell_unit(keys, cell);
    let f = ctx.freq(ci);
    assert(0 <= u <= 6);
    assert(0 <= f * u <= 6 * f) by (nonlinear_arith)
        requires
            0 <= u <= 6,
            f >= 0,
    ;
}

/// The totals are far from the end of their type.
proof fn usage_bound(ctx: &OptContext, assignment: Seq<u8>, cell: int)
    requires
        ctx.wf_full(),
        0 <= cell < CELLS,
    ensures
        0 <= usage(ctx, assignment, cell) <= 6 * ctx.total_frequency,
        forall|k: int|
            0 <= k <= ctx.n() ==> 0 <= #[trigger] sum(usage_terms(ctx, assignment, cell).take(k)) <= 6
                * ctx.total_frequency,
{
    let s = usage_terms(ctx, assignment, cell);
    let freqs = ctx.freqs();
    let top = Seq::new(freqs.len(), |i: int| 6 * freqs[i]);
    assert forall|i: int| 0 <= i < s.len() implies 0 <= #[trigger] s[i] && s[i] <= top[i] by {
        usage_term_bound(ctx, assignment, cell, i);
    }
    sum_le(s, top);
    sum_scaled(freqs, 6);
    sum_nonnegative(s);
    assert forall|k: int| 0 <= k <= ctx.n() implies 0 <= #[trigger] sum(s.take(k)) <= 6
        * ctx.total_frequency by {
        sum_prefix(s, k);
    }
}

/// The keys of a character's full code.
pub fn full_code_keys(ctx: &OptContext, assignment: &[u8], ci: usize) -> (keys: Vec<u8>)
    requires
        ctx.wf_full(),
        ctx.assigns(assignment@),
        ci < ctx.n(),
    ensures
        keys@ == ctx.full_keys(assignment@, ci as int),
        simple_keys_ok(keys@),
{
    let parts = &ctx.char_infos[ci].parts;
    let mut keys: Vec<u8> = Vec::new();
    let mut i: usize = 0;
    proof {
        let info = ctx.char_infos@[ci as int];
        part_keys_are_keys(parts@, assignment@);
    }
    while i < parts.len()
        invariant
            i <= parts@.len(),
            parts_ok(parts@, assignment@.len()),
            keys@ == part_keys(parts@, assignment@).take(i as int),
        decreases parts@.len() - i,
    {
        assert(crate::codes::part_ok(parts@[i as int], assignment@.len()));
        keys.push(ctx.resolve_key(parts[i], assignment));
        proof {
            let all = part_keys(parts@, assignment@);
            assert(all.take(i as int).push(all[i as int]) =~= all.take(i + 1));
        }
        i = i + 1;
    }
    assert(part_keys(parts@, assignment@).take(parts@.len() as int) =~= part_keys(
        parts@,
        assignment@,
    ));
    keys
}

/// Counts the key strokes of all full codes.
pub fn count_usage(ctx: &OptContext, assignment: &[u8]) -> (t: Totals)
    requires
        ctx.wf_full(),
        ctx.assigns(assignment@),
    ensures
        usage_right(ctx, assignment@, t),
{
    let mut t = Totals::zero();
    let n = ctx.char_infos.len();
    let mut ci: usize = 0;
    proof {
        assert forall|cell: int| 0 <= cell < CELLS implies #[trigger] t.cells@[cell] == sum(
            usage_terms(ctx, assignment@, cell).take(0),
        ) by {
            assert(usage_terms(ctx, assignment@, cell).take(0) =~= Seq::<int>::empty());
        }
    }
    while ci < n
        invariant
            ci <= n == ctx.n(),
            ctx.wf_full(),
            ctx.assigns(assignment@),
            t.wf(),
            forall|cell: int|
                0 <= cell < CELLS ==> #[trigger] t.cells@[cell] == sum(
                    usage_terms(ctx, assignment@, cell).take(ci as int),
                ),
        decreases n - ci,
    {
        let keys = full_code_keys(ctx, assignment, ci);
        let ghost before = t;
        proof {
            assert forall|cell: int| 0 <= cell < CELLS implies #[trigger] t.cells@[cell] + cell_limit()
                <= u128::MAX by {
                usage_bound(ctx, assignment@, cell);
                let x = sum(usage_terms(ctx, assignment@, cell).take(ci as int));
            }
        }
        t.add_char(ctx.char_infos[ci].frequency, &keys);
        proof {
            assert forall|cell: int| 0 <= cell < CELLS implies #[trigger] t.cells@[cell] == sum(
                usage_terms(ctx, assignment@, cell).take(ci + 1),
            ) by {
                let s = usage_terms(ctx, assignment@, cell);
                assert(s.take(ci + 1).drop_last() =~= s.take(ci as int));
                let x = before.cells@[cell];
            }
        }
        ci = ci + 1;
    }
    proof {
        assert forall|cell: int| 0 <= cell < CELLS implies #[trigger] t.cells@[cell] == usage(
            ctx,
            assignment@,
            cell,
        ) by {
            let s = usage_terms(ctx, assignment@, cell);
            assert(s.take(n as int) =~= s);
        }
    }
    t
}

/// How a key's count among parts changes when a group moves.
proof fn count_moved(parts: Seq<u16>, a: Seq<u8>, r: int, new_key: u8, k: int)
    requires
        parts_ok(parts, a.len()),
        0 <= r < a.len(),
        GROUP_MARKER + a.len() <= 65536,
    ensures
        key_count(part_keys(parts, a.update(r, new_key)), k) == key_count(part_keys(parts, a), k) + (
        if k == new_key {
            OptContext::part_count(parts, r)
        } else {
            0
        }) - (if k == a[r] {
            OptContext::part_count(parts, r)
        } else {
            0
        }),
    decreases parts.len(),
{
    if parts.len() > 0 {
        let b = a.update(r, new_key);
        let front = parts.drop_last();
        assert forall|i: int| 0 <= i < front.len() implies crate::codes::part_ok(#[trigger] front[i], a.len()) by {
            assert(crate::codes::part_ok(parts[i], a.len()));
        }
        count_moved(front, a, r, new_key, k);
        assert(part_keys(parts, a).drop_last() =~= part_keys(front, a));
        assert(part_keys(parts, b).drop_last() =~= part_keys(front, b));
        assert(crate::codes::part_ok(parts[parts.len() - 1], a.len()));
    }
}

/// How the totals change when a group moves.
proof fn usage_moved(ctx: &OptContext, a: Seq<u8>, r: int, new_key: u8, cell: int)
    requires
        ctx.wf_full(),
        ctx.assigns(a),
        0 <= r < a.len(),
        0 <= cell < CELLS,
    ensures
        usage(ctx, a.update(r, new_key), cell) == usage(ctx, a, cell) + (if cell == new_key && cell
            < PRESSES {
            ctx.group_weight(r)
        } else {
            0
        }) - (if cell == a[r] && cell < PRESSES {
            ctx.group_weight(r)
        } else {
            0
        }),
{
    let s = usage_terms(ctx, a, cell);
    let t = usage_terms(ctx, a.update(r, new_key), cell);
    let w = Seq::new(ctx.n(), |ci: int| ctx.freq(ci) * OptContext::part_count(ctx.parts(ci), r));
    let sign: int = if cell < PRESSES {
        (if cell == new_key {
            1int
        } else {
            0
        }) - (if cell == a[r] {
            1int
        } else {
            0
        })
    } else {
        0
    };
    let d = Seq::new(w.len(), |i: int| sign * w[i]);
    assert forall|ci: int| 0 <= ci < ctx.n() implies t[ci] == s[ci] + d[ci] by {
        let info = ctx.char_infos@[ci];
        let parts = ctx.parts(ci);
        count_moved(parts, a, r, new_key, cell);
        let p = OptContext::part_count(parts, r);
        let f = ctx.freq(ci);
        let u = cell_unit(ctx.full_keys(a, ci), cell);
        let v = cell_unit(ctx.full_keys(a.update(r, new_key), ci), cell);
        assert(v == u + sign * p) by {
            if sign == 0 {
                assert(sign * p == 0);
            } else if sign == 1 {
                assert(sign * p == p);
            } else {
                assert(sign * p == -p);
            }
        }
        assert(f * (u + sign * p) == f * u + sign * (f * p)) by (nonlinear_arith);
    }
    assert(t =~= Seq::new(s.len(), |i: int| s[i] + d[i]));
    sum_plus(s, d);
    sum_scaled(w, sign);
    assert(sign * sum(w) == (if cell == new_key && cell < PRESSES {
        sum(w)
    } else {
        0
    }) - (if cell == a[r] && cell < PRESSES {
        sum(w)
    } else {
        0
    })) by {
        if sign == 0 {
            assert(sign * sum(w) == 0);
        } else if sign == 1 {
            assert(sign * sum(w) == sum(w));
        } else {
            assert(sign * sum(w) == -sum(w));
        }
    }
}

/// Moves a group's key strokes from one key to another.
pub fn shift_usage(ctx: &OptContext, totals: &mut Totals, assignment: &[u8], r: usize, new_key: u8)
    requires
        ctx.wf_full(),
        ctx.assigns(assignment@),
        r < ctx.num_groups(),
        new_key < EQUIV_TABLE_SIZE,
        usage_right(ctx, assignment@, *old(totals)),
    ensures
        usage_right(ctx, assignment@.update(r as int, new_key), *final(totals)),
{
    let old_key = assignment[r] as usize;
    let weight = ctx.group_freq_sum[r];
    let ghost before = totals.cells@;
    proof {
        assert(assignment@[r as int] < EQUIV_TABLE_SIZE);
        assert(weight == ctx.group_weight(r as int));
        assert forall|cell: int| 0 <= cell < CELLS implies 0 <= #[trigger] before[cell] <= 6
            * ctx.total_frequency by {
            usage_bound(ctx, assignment@, cell);
        }
        let other: u8 = if old_key == 0 {
            1
        } else {
            0
        };
        // On another key the group would take its strokes off its own.
        usage_moved(ctx, assignment@, r as int, other, old_key as int);
        usage_bound(ctx, assignment@.update(r as int, other), old_key as int);
        let x = before[old_key as int];
        let y = before[new_key as int];
    }
    totals.cells.set(old_key, totals.cells[old_key] - weight);
    totals.cells.set(new_key as usize, totals.cells[new_key as usize] + weight);
    proof {
        assert forall|cell: int| 0 <= cell < CELLS implies #[trigger] totals.cells@[cell] == usage(
            ctx,
            assignment@.update(r as int, new_key),
            cell,
        ) by {
            usage_moved(ctx, assignment@, r as int, new_key, cell);
            let x = before[cell];
        }
    }
}

} // verus!
