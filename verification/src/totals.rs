//! Running totals over the characters that have simple codes.

use vstd::prelude::*;

use crate::codes::are_keys;
use crate::context::OptContext;
use crate::sums::{sum, sum_at_least, sum_le, sum_nonnegative, sum_scaled, sum_update};
use crate::types::EQUIV_TABLE_SIZE;

verus! {

/// The cell that holds the frequency-weighted strokes. The cells before it belong to the keys.
pub const PRESSES: usize = 31;

/// The cell that holds the frequency covered.
pub const COVERED: usize = 32;

/// The number of cells.
pub const CELLS: usize = 33;

/// The longest simple code, its commit key included.
pub const MAX_SIMPLE_KEYS: usize = 7;

/// How often `k` occurs among `keys`.
pub open spec fn key_count(keys: Seq<u8>, k: int) -> int
    decreases keys.len(),
{
    if keys.len() == 0 {
        0
    } else {
        key_count(keys.drop_last(), k) + if keys.last() == k {
            1int
        } else {
            0
        }
    }
}

/// What one character with these keys adds to a cell, per unit of frequency.
pub open spec fn cell_unit(keys: Seq<u8>, cell: int) -> int {
    if cell == COVERED {
        1
    } else if cell == PRESSES {
        keys.len() as int
    } else {
        key_count(keys, cell)
    }
}

/// What each character adds to a cell: those selected their frequency, by key or by stroke or
/// once, and the others nothing.
pub open spec fn cell_terms(
    ctx: &OptContext,
    selected: Seq<bool>,
    keys: Seq<Seq<u8>>,
    cell: int,
) -> Seq<int> {
    Seq::new(
        ctx.n(),
        |ci: int| if selected[ci] { ctx.freq(ci) * cell_unit(keys[ci], cell) } else { 0 },
    )
}

/// The total of a cell.
pub open spec fn cell_total(
    ctx: &OptContext,
    selected: Seq<bool>,
    keys: Seq<Seq<u8>>,
    cell: int,
) -> int {
    sum(cell_terms(ctx, selected, keys, cell))
}

/// Whether the keys may be those of a simple code.
pub open spec fn simple_keys_ok(keys: Seq<u8>) -> bool {
    are_keys(keys) && keys.len() <= MAX_SIMPLE_KEYS
}

/// A key occurs at most as often as there are keys.
pub proof fn key_count_bound(keys: Seq<u8>, k: int)
    ensures
        0 <= key_count(keys, k) <= keys.len(),
    decreases keys.len(),
{
    if keys.len() > 0 {
        key_count_bound(keys.drop_last(), k);
    }
}

/// What one character adds to a cell is not negative and not large.
pub proof fn cell_unit_bound(keys: Seq<u8>, cell: int)
    requires
        keys.len() <= MAX_SIMPLE_KEYS,
    ensures
        0 <= cell_unit(keys, cell) <= MAX_SIMPLE_KEYS,
{
    key_count_bound(keys, cell);
}

/// The bound on what all characters together add to a cell.
pub open spec fn cell_limit() -> int {
    7 * 0x1_0000_0000_0000_0000int
}

/// A cell's total is at most the longest code times the sum of all frequencies.
pub proof fn cell_total_bound(
    ctx: &OptContext,
    selected: Seq<bool>,
    keys: Seq<Seq<u8>>,
    cell: int,
)
    requires
        ctx.wf_full(),
        selected.len() == ctx.n(),
        keys.len() == ctx.n(),
        forall|ci: int| 0 <= ci < ctx.n() && #[trigger] selected[ci] ==> keys[ci].len() <= MAX_SIMPLE_KEYS,
    ensures
        0 <= cell_total(ctx, selected, keys, cell) <= 7 * ctx.total_frequency <= cell_limit(),
        forall|ci: int|
            0 <= ci < ctx.n() && #[trigger] selected[ci] ==> 0 <= ctx.freq(ci) * cell_unit(
                keys[ci],
                cell,
            ) <= cell_total(ctx, selected, keys, cell),
{
    let terms = cell_terms(ctx, selected, keys, cell);
    let most = Seq::new(ctx.freqs().len(), |ci: int| 7 * ctx.freqs()[ci]);
    assert forall|ci: int| 0 <= ci < ctx.n() implies 0 <= #[trigger] terms[ci] <= most[ci] by {
        if selected[ci] {
            cell_unit_bound(keys[ci], cell);
            let f = ctx.freq(ci);
            let u = cell_unit(keys[ci], cell);
            assert(0 <= f * u <= 7 * f) by (nonlinear_arith)
                requires
                    f >= 0,
                    0 <= u <= 7,
            ;
        }
    }
    sum_le(terms, most);
    sum_scaled(ctx.freqs(), 7);
    sum_nonnegative(terms);
    assert forall|ci: int| 0 <= ci < ctx.n() && #[trigger] selected[ci] implies 0 <= ctx.freq(ci)
        * cell_unit(keys[ci], cell) <= cell_total(ctx, selected, keys, cell) by {
        sum_at_least(terms, ci);
        assert(terms[ci] == ctx.freq(ci) * cell_unit(keys[ci], cell));
    }
}

/// What changing one character's state does to a cell's total.
pub proof fn cell_total_update(
    ctx: &OptContext,
    selected: Seq<bool>,
    keys: Seq<Seq<u8>>,
    ci: int,
    now: bool,
    now_keys: Seq<u8>,
    cell: int,
)
    requires
        selected.len() == ctx.n(),
        keys.len() == ctx.n(),
        0 <= ci < ctx.n(),
    ensures
        cell_total(ctx, selected.update(ci, now), keys.update(ci, now_keys), cell) == cell_total(
            ctx,
            selected,
            keys,
            cell,
        ) - (if selected[ci] {
            ctx.freq(ci) * cell_unit(keys[ci], cell)
        } else {
            0
        }) + (if now {
            ctx.freq(ci) * cell_unit(now_keys, cell)
        } else {
            0
        }),
{
    let terms = cell_terms(ctx, selected, keys, cell);
    let terms2 = cell_terms(ctx, selected.update(ci, now), keys.update(ci, now_keys), cell);
    let x = if now {
        ctx.freq(ci) * cell_unit(now_keys, cell)
    } else {
        0
    };
    assert(terms2 =~= terms.update(ci, x));
    sum_update(terms, ci, x);
}

/// Totals of frequencies: per key, per stroke, and once per character.
pub struct Totals {
    pub cells: Vec<u128>,
}

impl Totals {
    /// There is a cell for every key, one for the strokes and one for the frequency covered.
    pub open spec fn wf(&self) -> bool {
        self.cells@.len() == CELLS
    }

    /// All cells are zero.
    pub fn zero() -> (t: Totals)
        ensures
            t.wf(),
            forall|i: int| 0 <= i < CELLS ==> #[trigger] t.cells@[i] == 0,
    {
        let mut cells: Vec<u128> = Vec::new();
        while cells.len() < CELLS
            invariant
                cells@.len() <= CELLS,
                forall|i: int| 0 <= i < cells@.len() ==> #[trigger] cells@[i] == 0,
            decreases CELLS - cells@.len(),
        {
            cells.push(0);
        }
        Totals { cells }
    }

    /// A copy.
    pub fn copy(&self) -> (t: Totals)
        ensures
            t.cells@ == self.cells@,
    {
        let mut cells: Vec<u128> = Vec::new();
        let mut i: usize = 0;
        while i < self.cells.len()
            invariant
                i <= self.cells@.len(),
                cells@ == self.cells@.take(i as int),
            decreases self.cells@.len() - i,
        {
            cells.push(self.cells[i]);
            assert(self.cells@.take(i as int).push(self.cells@[i as int]) =~= self.cells@.take(i + 1));
            i = i + 1;
        }
        assert(self.cells@.take(i as int) =~= self.cells@);
        Totals { cells }
    }

    /// Adds a character of frequency `freq` with these keys.
    pub fn add_char(&mut self, freq: u64, keys: &Vec<u8>)
        requires
            old(self).wf(),
            simple_keys_ok(keys@),
            forall|i: int| 0 <= i < CELLS ==> #[trigger] old(self).cells@[i] + cell_limit() <= u128::MAX,
        ensures
            final(self).wf(),
            forall|i: int|
                0 <= i < CELLS ==> #[trigger] final(self).cells@[i] == old(self).cells@[i] + freq
                    * cell_unit(keys@, i),
    {
        let ghost before = self.cells@;
        let mut j: usize = 0;
        proof {
            assert(keys@.take(0) =~= Seq::<u8>::empty());
            assert(freq * 0 == 0) by (nonlinear_arith);
        }
        while j < keys.len()
            invariant
                j <= keys@.len(),
                simple_keys_ok(keys@),
                self.wf(),
                before.len() == CELLS,
                forall|i: int| 0 <= i < CELLS ==> #[trigger] before[i] + cell_limit() <= u128::MAX,
                forall|i: int|
                    0 <= i < PRESSES ==> #[trigger] self.cells@[i] == before[i] + freq * key_count(
                        keys@.take(j as int),
                        i,
                    ),
                self.cells@[PRESSES as int] == before[PRESSES as int],
                self.cells@[COVERED as int] == before[COVERED as int],
            decreases keys@.len() - j,
        {
            let k = keys[j] as usize;
            let ghost mid = self.cells@;
            proof {
                assert(keys@[j as int] < EQUIV_TABLE_SIZE);
                assert(keys@.take(j + 1).drop_last() =~= keys@.take(j as int));
                key_count_bound(keys@.take(j as int), k as int);
                let c = key_count(keys@.take(j as int), k as int);
                assert(freq * c + freq == freq * (c + 1)) by (nonlinear_arith);
                assert(freq * (c + 1) <= 7 * 0x1_0000_0000_0000_0000) by (nonlinear_arith)
                    requires
                        c + 1 <= 7,
                        c >= 0,
                        0 <= freq <= 0x1_0000_0000_0000_0000,
                ;
                assert(before[k as int] + cell_limit() <= u128::MAX);
                assert(mid[k as int] == before[k as int] + freq * c);
            }
            self.cells.set(k, self.cells[k] + freq as u128);
            j = j + 1;
        }
        proof {
            assert(keys@.take(keys@.len() as int) =~= keys@);
            let l = keys@.len();
            assert(0 <= freq * l <= 7 * 0x1_0000_0000_0000_0000) by (nonlinear_arith)
                requires
                    l <= 7,
                    0 <= freq <= 0x1_0000_0000_0000_0000,
            ;
            assert(before[PRESSES as int] + cell_limit() <= u128::MAX);
            assert(before[COVERED as int] + cell_limit() <= u128::MAX);
        }
        let strokes: u128 = freq as u128 * keys.len() as u128;
        self.cells.set(PRESSES, self.cells[PRESSES] + strokes);
        self.cells.set(COVERED, self.cells[COVERED] + freq as u128);
        assert(freq * 1 == freq);
    }

    /// Takes off a character of frequency `freq` with these keys.
    pub fn remove_char(&mut self, freq: u64, keys: &Vec<u8>)
        requires
            old(self).wf(),
            simple_keys_ok(keys@),
            forall|i: int|
                0 <= i < CELLS ==> #[trigger] old(self).cells@[i] >= freq * cell_unit(keys@, i),
        ensures
            final(self).wf(),
            forall|i: int|
                0 <= i < CELLS ==> #[trigger] final(self).cells@[i] == old(self).cells@[i] - freq
                    * cell_unit(keys@, i),
    {
        let ghost before = self.cells@;
        let mut j: usize = 0;
        proof {
            assert(keys@.take(0) =~= Seq::<u8>::empty());
            assert(freq * 0 == 0) by (nonlinear_arith);
        }
        while j < keys.len()
            invariant
                j <= keys@.len(),
                simple_keys_ok(keys@),
                self.wf(),
                before.len() == CELLS,
                forall|i: int| 0 <= i < CELLS ==> #[trigger] before[i] >= freq * cell_unit(keys@, i),
                forall|i: int|
                    0 <= i < PRESSES ==> #[trigger] self.cells@[i] == before[i] - freq * key_count(
                        keys@.take(j as int),
                        i,
                    ),
                self.cells@[PRESSES as int] == before[PRESSES as int],
                self.cells@[COVERED as int] == before[COVERED as int],
            decreases keys@.len() - j,
        {
            let k = keys[j] as usize;
            let ghost mid = self.cells@;
            proof {
                assert(keys@[j as int] < EQUIV_TABLE_SIZE);
                assert(keys@.take(j + 1).drop_last() =~= keys@.take(j as int));
                let c = key_count(keys@.take(j as int), k as int);
                key_count_monotone(keys@, k as int, j + 1);
                let all = key_count(keys@, k as int);
                assert(freq * c + freq == freq * (c + 1)) by (nonlinear_arith);
                assert(freq * (c + 1) <= freq * all) by (nonlinear_arith)
                    requires
                        c + 1 <= all,
                        freq >= 0,
                ;
                assert(before[k as int] >= freq * cell_unit(keys@, k as int));
                assert(mid[k as int] == before[k as int] - freq * c);
            }
            self.cells.set(k, self.cells[k] - freq as u128);
            j = j + 1;
        }
        proof {
            assert(keys@.take(keys@.len() as int) =~= keys@);
            let l = keys@.len();
            assert(0 <= freq * l <= 7 * 0x1_0000_0000_0000_0000) by (nonlinear_arith)
                requires
                    l <= 7,
                    0 <= freq <= 0x1_0000_0000_0000_0000,
            ;
            assert(before[PRESSES as int] >= freq * cell_unit(keys@, PRESSES as int));
            assert(before[COVERED as int] >= freq * cell_unit(keys@, COVERED as int));
            assert(freq * 1 == freq);
        }
        let strokes: u128 = freq as u128 * keys.len() as u128;
        self.cells.set(PRESSES, self.cells[PRESSES] - strokes);
        self.cells.set(COVERED, self.cells[COVERED] - freq as u128);
    }
}

/// A key occurs at least as often among all keys as among the first.
proof fn key_count_monotone(keys: Seq<u8>, k: int, j: int)
    requires
        0 <= j <= keys.len(),
    ensures
        key_count(keys.take(j), k) <= key_count(keys, k),
    decreases keys.len() - j,
{
    if j == keys.len() {
        assert(keys.take(j) =~= keys);
    } else {
        key_count_monotone(keys, k, j + 1);
        assert(keys.take(j + 1).drop_last() =~= keys.take(j));
    }
}

} // verus!
