//! Who has a simple code at which level, with a log of all changes since a starting point.

use rustc_hash::FxHashMap;
use vstd::prelude::*;

use crate::context::OptContext;
use crate::fx::{fx_get, fx_insert};
use crate::lists::copy_of;
use crate::simple_level::{
    distinct_chars, freqs_of, freqs_of_same, members_at, totals_fit, LevelView, SimpleLevelTracker,
};
use crate::sums::{sum, sum_le, sum_nonnegative, sum_update};
use crate::totals::{
    cell_limit, cell_total, cell_total_bound, cell_total_update, cell_unit, simple_keys_ok, Totals,
    CELLS, COVERED, PRESSES,
};
use crate::types::EQUIV_TABLE_SIZE;

verus! {

/// The levels, and who has a simple code at any of them.
#[verifier::ext_equal]
pub struct SelView {
    pub levels: Seq<LevelView>,
    /// Whether each character has a simple code, fixed or at some level.
    pub assigned: Seq<bool>,
}

impl SelView {
    /// The same with another level `li`.
    pub open spec fn with_level(self, li: int, level: LevelView) -> SelView {
        SelView { levels: self.levels.update(li, level), ..self }
    }
}

/// What the fixed codes add to a cell of the totals.
pub open spec fn fixed_cell(ctx: &OptContext, cell: int) -> int {
    if cell == COVERED {
        ctx.fixed_covered_freq as int
    } else if cell == PRESSES {
        ctx.fixed_key_presses as int
    } else {
        ctx.fixed_key_usage@[cell] as int
    }
}

/// A cell of every level's totals.
pub open spec fn level_cells(ctx: &OptContext, levels: Seq<LevelView>, cell: int) -> Seq<int> {
    Seq::new(
        levels.len(),
        |li: int| cell_total(ctx, levels[li].selected, levels[li].keys, cell),
    )
}

/// A cell of the totals over all simple codes: what the fixed codes add and what the levels add.
pub open spec fn grand_cell(ctx: &OptContext, levels: Seq<LevelView>, cell: int) -> int {
    fixed_cell(ctx, cell) + sum(level_cells(ctx, levels, cell))
}

/// Whether totals are those of the fixed codes and all levels.
pub open spec fn grand_totals_fit(ctx: &OptContext, totals: Totals, levels: Seq<LevelView>) -> bool {
    &&& totals.wf()
    &&& forall|cell: int|
        0 <= cell < CELLS ==> #[trigger] totals.cells@[cell] == grand_cell(ctx, levels, cell)
}

/// Whether every level's vectors have an entry for each character, selected characters have keys,
/// and no bucket is empty.
pub open spec fn levels_sized(ctx: &OptContext, levels: Seq<LevelView>) -> bool {
    &&& levels.len() == ctx.n_levels()
    &&& forall|li: int|
        #![trigger levels[li]]
        0 <= li < levels.len() ==> {
            &&& levels[li].codes.len() == ctx.n()
            &&& levels[li].selected.len() == ctx.n()
            &&& levels[li].keys.len() == ctx.n()
            &&& forall|ci: int|
                0 <= ci < ctx.n() && #[trigger] levels[li].selected[ci] ==> simple_keys_ok(
                    levels[li].keys[ci],
                )
            &&& forall|c: u32| #[trigger]
                levels[li].members.contains_key(c) ==> levels[li].members[c].len() > 0
        }
}

/// The totals over all simple codes are far from the end of their type.
proof fn grand_cell_bound(ctx: &OptContext, levels: Seq<LevelView>, cell: int)
    requires
        ctx.wf_full(),
        ctx.wf_levels(),
        levels_sized(ctx, levels),
        0 <= cell < CELLS,
    ensures
        0 <= grand_cell(ctx, levels, cell) <= grand_limit(),
        forall|li: int|
            0 <= li < levels.len() ==> 0 <= #[trigger] level_cells(ctx, levels, cell)[li] <= grand_cell(
                ctx,
                levels,
                cell,
            ),
{
    let cells = level_cells(ctx, levels, cell);
    let most = Seq::new(cells.len(), |li: int| cell_limit());
    assert forall|li: int| 0 <= li < cells.len() implies 0 <= #[trigger] cells[li] <= most[li] by {
        let level = levels[li];
        cell_total_bound(ctx, level.selected, level.keys, cell);
    }
    sum_le(cells, most);
    crate::sums::sum_constant(cells.len(), cell_limit());
    sum_nonnegative(cells);
    let l = cells.len();
    assert(l * cell_limit() <= u32::MAX * cell_limit()) by (nonlinear_arith)
        requires
            l <= u32::MAX,
            cell_limit() >= 0,
    ;
    assert(u32::MAX * cell_limit() <= 0x1_0000_0000 * (7 * 0x1_0000_0000_0000_0000)) by (nonlinear_arith)
        requires
            cell_limit() == 7 * 0x1_0000_0000_0000_0000,
    ;
    assert forall|li: int| 0 <= li < levels.len() implies 0 <= #[trigger] cells[li] <= grand_cell(
        ctx,
        levels,
        cell,
    ) by {
        crate::sums::sum_at_least(cells, li);
    }
    if cell < EQUIV_TABLE_SIZE {
        assert(ctx.fixed_key_usage@[cell] >= 0);
    }
}

/// A bound on the totals over all simple codes.
pub open spec fn grand_limit() -> int {
    0x1_0000_0000int * (7 * 0x1_0000_0000_0000_0000) + 0x1_0000_0000_0000_0000_0000int
}

/// What changing one level does to the totals over all simple codes.
proof fn grand_cell_update(
    ctx: &OptContext,
    levels: Seq<LevelView>,
    li: int,
    level: LevelView,
    cell: int,
)
    requires
        0 <= li < levels.len(),
    ensures
        grand_cell(ctx, levels.update(li, level), cell) == grand_cell(ctx, levels, cell) - cell_total(
            ctx,
            levels[li].selected,
            levels[li].keys,
            cell,
        ) + cell_total(ctx, level.selected, level.keys, cell),
{
    let cells = level_cells(ctx, levels, cell);
    let x = cell_total(ctx, level.selected, level.keys, cell);
    assert(level_cells(ctx, levels.update(li, level), cell) =~= cells.update(li, x));
    sum_update(cells, li, x);
}

/// Plays a log of overwritten entries backwards.
pub open spec fn replay<T>(log: Seq<(usize, usize, T)>, rows: Seq<Seq<T>>) -> Seq<Seq<T>>
    decreases log.len(),
{
    if log.len() == 0 {
        rows
    } else {
        let (li, ci, old_value) = log.last();
        replay(
            log.drop_last(),
            rows.update(li as int, rows[li as int].update(ci as int, old_value)),
        )
    }
}

/// Logging an entry before it is overwritten keeps what the log plays back to.
proof fn replay_push<T>(
    log: Seq<(usize, usize, T)>,
    rows: Seq<Seq<T>>,
    li: usize,
    ci: usize,
    value: T,
)
    requires
        li < rows.len(),
        ci < rows[li as int].len(),
    ensures
        replay(
            log.push((li, ci, rows[li as int][ci as int])),
            rows.update(li as int, rows[li as int].update(ci as int, value)),
        ) == replay(log, rows),
{
    let entry = (li, ci, rows[li as int][ci as int]);
    let rows2 = rows.update(li as int, rows[li as int].update(ci as int, value));
    assert(log.push(entry).drop_last() =~= log);
    let restored = rows2.update(li as int, rows2[li as int].update(ci as int, entry.2));
    assert(restored[li as int] =~= rows[li as int]);
    assert(restored =~= rows);
}

/// The codes of all levels.
pub open spec fn code_rows(levels: Seq<LevelView>) -> Seq<Seq<Option<u32>>> {
    Seq::new(levels.len(), |li: int| levels[li].codes)
}

/// The selections of all levels.
pub open spec fn selected_rows(levels: Seq<LevelView>) -> Seq<Seq<bool>> {
    Seq::new(levels.len(), |li: int| levels[li].selected)
}

/// The keys of all levels.
pub open spec fn key_rows(levels: Seq<LevelView>) -> Seq<Seq<Seq<u8>>> {
    Seq::new(levels.len(), |li: int| levels[li].keys)
}

/// A log of overwritten keys.
pub open spec fn key_log(log: Seq<(usize, usize, Vec<u8>)>) -> Seq<(usize, usize, Seq<u8>)> {
    Seq::new(log.len(), |i: int| (log[i].0, log[i].1, log[i].2@))
}

/// Whether every entry of a log names a level and a character.
pub open spec fn log_in_range<T>(ctx: &OptContext, log: Seq<(usize, usize, T)>) -> bool {
    forall|i: int|
        0 <= i < log.len() ==> (#[trigger] log[i]).0 < ctx.n_levels() && log[i].1 < ctx.n()
}

/// The members of a bucket before it was first changed.
pub struct BucketSnap {
    pub li: usize,
    pub code: u32,
    pub members: Vec<u32>,
    pub freq_sum: u64,
}

/// Which buckets were changed, and what they held before.
pub struct BucketUndo {
    /// The buckets as they were.
    pub snaps: Vec<BucketSnap>,
    /// The generation in which each bucket was last changed, by level and code.
    pub bucket_gen: Vec<FxHashMap<u32, u32>>,
    /// The buckets changed in this generation, by level.
    pub dirty: Vec<Vec<u32>>,
}

/// Whether a bucket was changed in generation `gen`.
pub open spec fn touched_in(gens: Seq<FxHashMap<u32, u32>>, gen: u32, li: int, code: u32) -> bool {
    gens[li]@.contains_key(code) && gens[li]@[code] == gen
}

impl BucketUndo {
    /// No bucket was changed after generation `gen`.
    pub open spec fn gens_ok(&self, ctx: &OptContext, gen: u32) -> bool {
        &&& self.bucket_gen@.len() == ctx.n_levels()
        &&& self.dirty@.len() == ctx.n_levels()
        &&& forall|li: int, c: u32|
            #![trigger self.bucket_gen@[li]@[c]]
            0 <= li < ctx.n_levels() && self.bucket_gen@[li]@.contains_key(c)
                ==> self.bucket_gen@[li]@[c] <= gen
    }

    /// The buckets not changed hold what they held, and the others have been put down as they
    /// were.
    pub open spec fn ok(
        &self,
        ctx: &OptContext,
        gen: u32,
        base: Seq<LevelView>,
        now: Seq<LevelView>,
    ) -> bool {
        &&& self.gens_ok(ctx, gen)
        &&& forall|li: int, c: u32|
            #![trigger touched_in(self.bucket_gen@, gen, li, c)]
            0 <= li < ctx.n_levels() && !touched_in(self.bucket_gen@, gen, li, c) ==> same_bucket(
                base[li],
                now[li],
                c,
            )
        &&& forall|li: int, c: u32|
            0 <= li < ctx.n_levels() && #[trigger] touched_in(self.bucket_gen@, gen, li, c) ==> exists|i: int|
                0 <= i < self.snaps@.len() && (#[trigger] self.snaps@[i]).li == li
                    && self.snaps@[i].code == c
        &&& forall|i: int|
            0 <= i < self.snaps@.len() ==> {
                let s = #[trigger] self.snaps@[i];
                &&& s.li < ctx.n_levels()
                &&& s.code < ctx.simple_level_capacity@[s.li as int]
                &&& touched_in(self.bucket_gen@, gen, s.li as int, s.code)
                &&& s.members@ == members_at(base[s.li as int].members, s.code)
                &&& distinct_chars(ctx, s.members@)
                &&& s.freq_sum == sum(freqs_of(ctx, s.members@))
            }
        &&& forall|i: int, j: int|
            #![trigger self.snaps@[i], self.snaps@[j]]
            0 <= i < j < self.snaps@.len() ==> self.snaps@[i].li != self.snaps@[j].li
                || self.snaps@[i].code != self.snaps@[j].code
        &&& forall|li: int|
            #![trigger self.dirty@[li]]
            0 <= li < ctx.n_levels() ==> {
                &&& self.dirty@[li]@.no_duplicates()
                &&& forall|c: u32| #[trigger]
                    self.dirty@[li]@.contains(c) <==> touched_in(self.bucket_gen@, gen, li, c)
            }
    }
}

/// Whether a bucket holds the same members in the same order, each with the same selection and
/// keys.
pub open spec fn same_bucket(a: LevelView, b: LevelView, code: u32) -> bool {
    &&& a.members.contains_key(code) == b.members.contains_key(code)
    &&& members_at(a.members, code) == members_at(b.members, code)
    &&& forall|j: int|
        #![trigger members_at(a.members, code)[j]]
        0 <= j < members_at(a.members, code).len() ==> {
            let ci = members_at(a.members, code)[j] as int;
            a.selected[ci] == b.selected[ci] && a.keys[ci] == b.keys[ci]
        }
}

/// Which characters' marks were changed, and what they were before.
pub struct FlagUndo {
    /// The generation in which each mark was last changed.
    pub touch_gen: Vec<u32>,
    /// What each mark was at the start of that generation.
    pub start_flag: Vec<bool>,
    /// The characters whose marks were changed in this generation.
    pub touched: Vec<usize>,
}

impl FlagUndo {
    /// No mark was changed after generation `gen`.
    pub open spec fn gens_ok(&self, ctx: &OptContext, gen: u32) -> bool {
        &&& self.touch_gen@.len() == ctx.n()
        &&& self.start_flag@.len() == ctx.n()
        &&& forall|ci: int| 0 <= ci < ctx.n() ==> #[trigger] self.touch_gen@[ci] <= gen
    }

    /// The marks not changed are what they were, and the others have been put down.
    pub open spec fn ok(
        &self,
        ctx: &OptContext,
        gen: u32,
        base: Seq<bool>,
        now: Seq<bool>,
    ) -> bool {
        &&& self.gens_ok(ctx, gen)
        &&& forall|ci: int|
            0 <= ci < ctx.n() ==> if #[trigger] self.touch_gen@[ci] == gen {
                self.start_flag@[ci] == base[ci] && self.touched@.contains(ci as usize)
            } else {
                now[ci] == base[ci]
            }
        &&& forall|i: int|
            0 <= i < self.touched@.len() ==> (#[trigger] self.touched@[i]) < ctx.n()
                && self.touch_gen@[self.touched@[i] as int] == gen
    }
}

/// The entries overwritten, oldest first.
pub struct EntryUndo {
    pub codes: Vec<(usize, usize, Option<u32>)>,
    pub selected: Vec<(usize, usize, bool)>,
    pub keys: Vec<(usize, usize, Vec<u8>)>,
}

impl EntryUndo {
    /// The logs play back to the entries at the start.
    pub open spec fn ok(&self, ctx: &OptContext, base: Seq<LevelView>, now: Seq<LevelView>) -> bool {
        &&& replay(self.codes@, code_rows(now)) == code_rows(base)
        &&& replay(self.selected@, selected_rows(now)) == selected_rows(base)
        &&& replay(key_log(self.keys@), key_rows(now)) == key_rows(base)
        &&& log_in_range(ctx, self.codes@)
        &&& log_in_range(ctx, self.selected@)
        &&& log_in_range(ctx, self.keys@)
    }
}

/// The totals at the start.
pub struct SavedTotals {
    pub levels: Vec<Totals>,
    pub grand: Totals,
}

impl SavedTotals {
    /// The totals are those at the start.
    pub open spec fn ok(&self, ctx: &OptContext, base: Seq<LevelView>) -> bool {
        &&& self.levels@.len() == ctx.n_levels()
        &&& forall|li: int|
            0 <= li < ctx.n_levels() ==> totals_fit(ctx, #[trigger] self.levels@[li], base[li])
        &&& grand_totals_fit(ctx, self.grand, base)
    }
}

/// Who has a simple code at which level, and how to get back to a starting point.
pub struct Selection {
    pub levels: Vec<SimpleLevelTracker>,
    /// Whether each character has a simple code, fixed or at some level.
    pub all_assigned_flags: Vec<bool>,
    /// Totals over all simple codes, the fixed ones included.
    pub totals: Totals,
    /// The current generation.
    pub cur_gen: u32,
    pub buckets_undo: BucketUndo,
    pub flags_undo: FlagUndo,
    pub entries_undo: EntryUndo,
    pub saved: SavedTotals,
    /// The starting point.
    pub base: Ghost<SelView>,
}

/// What the levels hold.
pub open spec fn levels_view(levels: Seq<SimpleLevelTracker>) -> Seq<LevelView> {
    Seq::new(levels.len(), |li: int| levels[li]@)
}

impl View for Selection {
    type V = SelView;

    open spec fn view(&self) -> SelView {
        SelView { levels: levels_view(self.levels@), assigned: self.all_assigned_flags@ }
    }
}

impl Selection {
    /// Every level is in order, and the totals are right.
    pub open spec fn sane(&self, ctx: &OptContext) -> bool {
        &&& self.levels@.len() == ctx.n_levels()
        &&& forall|li: int|
            0 <= li < ctx.n_levels() ==> (#[trigger] self.levels@[li]).sane(
                ctx,
                ctx.simple_level_capacity@[li],
            )
        &&& self.all_assigned_flags@.len() == ctx.n()
        &&& grand_totals_fit(ctx, self.totals, self@.levels)
    }

    /// The logs lead back to the starting point.
    pub open spec fn logged(&self, ctx: &OptContext) -> bool {
        &&& levels_sized(ctx, self.base@.levels)
        &&& self.base@.assigned.len() == ctx.n()
        &&& self.buckets_undo.ok(ctx, self.cur_gen, self.base@.levels, self@.levels)
        &&& self.flags_undo.ok(ctx, self.cur_gen, self.base@.assigned, self@.assigned)
        &&& self.entries_undo.ok(ctx, self.base@.levels, self@.levels)
        &&& self.saved.ok(ctx, self.base@.levels)
    }

    /// No log refers to a later generation.
    pub open spec fn gens_ok(&self, ctx: &OptContext) -> bool {
        &&& self.buckets_undo.gens_ok(ctx, self.cur_gen)
        &&& self.flags_undo.gens_ok(ctx, self.cur_gen)
    }

    /// Whether a bucket was changed since the starting point.
    #[verifier::inline]
    pub open spec fn touched(&self, li: int, code: u32) -> bool {
        touched_in(self.buckets_undo.bucket_gen@, self.cur_gen, li, code)
    }

    /// The levels of a selection that is in order have an entry for each character.
    pub proof fn sane_sized(&self, ctx: &OptContext)
        requires
            self.sane(ctx),
        ensures
            levels_sized(ctx, self@.levels),
    {
        assert forall|li: int| #![trigger self@.levels[li]] 0 <= li < self@.levels.len() implies {
            &&& self@.levels[li].codes.len() == ctx.n()
            &&& self@.levels[li].selected.len() == ctx.n()
            &&& self@.levels[li].keys.len() == ctx.n()
            &&& forall|ci: int|
                0 <= ci < ctx.n() && #[trigger] self@.levels[li].selected[ci] ==> simple_keys_ok(
                    self@.levels[li].keys[ci],
                )
            &&& forall|c: u32| #[trigger]
                self@.levels[li].members.contains_key(c) ==> self@.levels[li].members[c].len() > 0
        } by {
            let level = self.levels@[li];
            assert(level.sane(ctx, ctx.simple_level_capacity@[li]));
            assert forall|c: u32| #[trigger] self@.levels[li].members.contains_key(c) implies self@.levels[li].members[c].len()
                > 0 by {
                assert(level.buckets@.contains_key(c));
            }
        }
    }

    /// Starts a new generation, and makes the current state the starting point.
    pub(crate) fn begin(&mut self, ctx: &OptContext)
        requires
            ctx.wf_full(),
            ctx.wf_levels(),
            old(self).sane(ctx),
            old(self).gens_ok(ctx),
        ensures
            final(self).sane(ctx),
            final(self).logged(ctx),
            final(self)@ == old(self)@,
            final(self).base@ == old(self)@,
            forall|li: int, c: u32|
                0 <= li < ctx.n_levels() ==> !(#[trigger] final(self).touched(li, c)),
    {
        self.bump_generation(ctx);
        let mut levels: Vec<Totals> = Vec::new();
        let mut li: usize = 0;
        while li < self.levels.len()
            invariant
                li <= self.levels@.len() == ctx.n_levels(),
                self.sane(ctx),
                levels@.len() == li,
                self.buckets_undo.dirty@.len() == ctx.n_levels(),
                self.gens_ok(ctx),
                forall|i: int, c: u32|
                    0 <= i < ctx.n_levels() ==> !(#[trigger] touched_in(
                        self.buckets_undo.bucket_gen@,
                        self.cur_gen,
                        i,
                        c,
                    )),
                forall|ci: int| 0 <= ci < ctx.n() ==> #[trigger] self.flags_undo.touch_gen@[ci]
                    != self.cur_gen,
                forall|i: int|
                    0 <= i < li ==> totals_fit(ctx, #[trigger] levels@[i], self@.levels[i]),
                forall|i: int|
                    #![trigger self.buckets_undo.dirty@[i]]
                    0 <= i < li ==> self.buckets_undo.dirty@[i]@.len() == 0,
                self@ == old(self)@,
            decreases self.levels@.len() - li,
        {
            let t = self.levels[li].totals.copy();
            assert(self.levels@[li as int].sane(ctx, ctx.simple_level_capacity@[li as int]));
            levels.push(t);
            self.buckets_undo.dirty.set(li, Vec::new());
            li = li + 1;
        }
        self.saved = SavedTotals { levels, grand: self.totals.copy() };
        self.buckets_undo.snaps.clear();
        self.flags_undo.touched.clear();
        self.entries_undo.codes.clear();
        self.entries_undo.selected.clear();
        self.entries_undo.keys.clear();
        self.base = Ghost(self@);
        proof {
            self.sane_sized(ctx);
            assert(key_log(self.entries_undo.keys@) =~= Seq::<(usize, usize, Seq<u8>)>::empty());
        }
    }

    /// The logs are empty: they lead nowhere back.
    pub open spec fn forgotten(&self) -> bool {
        &&& self.buckets_undo.snaps@.len() == 0
        &&& self.flags_undo.touched@.len() == 0
        &&& self.entries_undo.codes@.len() == 0
        &&& self.entries_undo.selected@.len() == 0
        &&& self.entries_undo.keys@.len() == 0
        &&& self.saved.levels@.len() == 0
    }

    /// Empties the logs.
    pub(crate) fn forget(&mut self)
        ensures
            final(self).forgotten(),
            final(self).levels == old(self).levels,
            final(self).all_assigned_flags == old(self).all_assigned_flags,
            final(self).totals == old(self).totals,
            final(self).cur_gen == old(self).cur_gen,
            final(self).base == old(self).base,
            final(self).buckets_undo.bucket_gen == old(self).buckets_undo.bucket_gen,
            final(self).buckets_undo.dirty == old(self).buckets_undo.dirty,
            final(self).flags_undo.touch_gen == old(self).flags_undo.touch_gen,
            final(self).flags_undo.start_flag == old(self).flags_undo.start_flag,
            final(self).saved.grand == old(self).saved.grand,
    {
        self.buckets_undo.snaps.clear();
        self.flags_undo.touched.clear();
        self.entries_undo.codes.clear();
        self.entries_undo.selected.clear();
        self.entries_undo.keys.clear();
        self.saved.levels.clear();
    }

    /// Starts a new generation; where the counter wraps, all generations are forgotten.
    fn bump_generation(&mut self, ctx: &OptContext)
        requires
            old(self).sane(ctx),
            old(self).gens_ok(ctx),
        ensures
            final(self).sane(ctx),
            final(self).gens_ok(ctx),
            final(self)@ == old(self)@,
            forall|li: int, c: u32|
                0 <= li < ctx.n_levels() ==> !(#[trigger] touched_in(
                    final(self).buckets_undo.bucket_gen@,
                    final(self).cur_gen,
                    li,
                    c,
                )),
            forall|ci: int| 0 <= ci < ctx.n() ==> #[trigger] final(self).flags_undo.touch_gen@[ci]
                != final(self).cur_gen,
    {
        if self.cur_gen < u32::MAX {
            let ghost g = self.cur_gen;
            self.cur_gen = self.cur_gen + 1;
            assert forall|li: int, c: u32| 0 <= li < ctx.n_levels() implies !(
            #[trigger] touched_in(self.buckets_undo.bucket_gen@, self.cur_gen, li, c)) by {
                if self.buckets_undo.bucket_gen@[li]@.contains_key(c) {
                    assert(self.buckets_undo.bucket_gen@[li]@[c] <= g);
                }
            }
        } else {
            let mut li: usize = 0;
            while li < self.buckets_undo.bucket_gen.len()
                invariant
                    li <= self.buckets_undo.bucket_gen@.len() == ctx.n_levels(),
                    self.buckets_undo.dirty@.len() == ctx.n_levels(),
                    self.flags_undo.gens_ok(ctx, self.cur_gen),
                    self.sane(ctx),
                    self@ == old(self)@,
                    forall|i: int|
                        #![trigger self.buckets_undo.bucket_gen@[i]]
                        0 <= i < li ==> self.buckets_undo.bucket_gen@[i]@ == Map::<u32, u32>::empty(),
                decreases self.buckets_undo.bucket_gen@.len() - li,
            {
                self.buckets_undo.bucket_gen.set(li, FxHashMap::default());
                li = li + 1;
            }
            let mut ci: usize = 0;
            while ci < self.flags_undo.touch_gen.len()
                invariant
                    ci <= self.flags_undo.touch_gen@.len() == ctx.n(),
                    self.flags_undo.start_flag@.len() == ctx.n(),
                    self.buckets_undo.bucket_gen@.len() == ctx.n_levels(),
                    self.buckets_undo.dirty@.len() == ctx.n_levels(),
                    self.sane(ctx),
                    self@ == old(self)@,
                    forall|i: int|
                        #![trigger self.buckets_undo.bucket_gen@[i]]
                        0 <= i < ctx.n_levels() ==> self.buckets_undo.bucket_gen@[i]@ == Map::<
                            u32,
                            u32,
                        >::empty(),
                    forall|i: int| 0 <= i < ci ==> #[trigger] self.flags_undo.touch_gen@[i] == 0,
                decreases self.flags_undo.touch_gen@.len() - ci,
            {
                self.flags_undo.touch_gen.set(ci, 0);
                ci = ci + 1;
            }
            self.cur_gen = 1;
        }
    }
}

impl Selection {
    /// Puts a bucket down as it is, unless that was done since the starting point, and notes that
    /// it changes.
    pub(crate) fn touch_bucket(&mut self, ctx: &OptContext, li: usize, code: u32)
        requires
            ctx.wf_full(),
            old(self).sane(ctx),
            old(self).logged(ctx),
            li < ctx.n_levels(),
            code < ctx.simple_level_capacity@[li as int],
        ensures
            final(self).sane(ctx),
            final(self).logged(ctx),
            final(self)@ == old(self)@,
            final(self).base == old(self).base,
            forall|l: int, c: u32|
                0 <= l < ctx.n_levels() ==> (#[trigger] final(self).touched(l, c) <==> old(
                    self,
                ).touched(l, c) || (l == li && c == code)),
    {
        let known = match fx_get(&self.buckets_undo.bucket_gen[li], code) {
            Some(g) => *g == self.cur_gen,
            None => false,
        };
        if known {
            return ;
        }
        let ghost gens0 = self.buckets_undo.bucket_gen@;
        let ghost undo0 = self.buckets_undo;
        assert(!touched_in(gens0, self.cur_gen, li as int, code));
        assert(self.levels@[li as int].sane(ctx, ctx.simple_level_capacity@[li as int]));
        let mut members: Vec<u32> = Vec::new();
        let mut freq_sum: u64 = 0;
        match self.levels[li].buckets.get(code) {
            Some(b) => {
                members = copy_of(&b.members);
                freq_sum = b.freq_sum;
            },
            None => {
                assert(freqs_of(ctx, members@) =~= Seq::<int>::empty());
            },
        }
        assert(members@ =~= members_at(self@.levels[li as int].members, code));
        self.buckets_undo.snaps.push(BucketSnap { li, code, members, freq_sum });
        let gen_now = self.cur_gen;
        let gens = &mut self.buckets_undo.bucket_gen[li];
        fx_insert(gens, code, gen_now);
        let dirty = &mut self.buckets_undo.dirty[li];
        dirty.push(code);
        proof {
            let gens1 = self.buckets_undo.bucket_gen@;
            let g = self.cur_gen;
            let u = self.buckets_undo;
            assert forall|l: int, c: u32| 0 <= l < ctx.n_levels() implies (#[trigger] touched_in(
                gens1,
                g,
                l,
                c,
            ) <==> touched_in(gens0, g, l, c) || (l == li && c == code)) by {}
            assert forall|l: int, c: u32|
                0 <= l < ctx.n_levels() && #[trigger] touched_in(u.bucket_gen@, g, l, c) implies exists|
                i: int,
            |
                0 <= i < u.snaps@.len() && (#[trigger] u.snaps@[i]).li == l && u.snaps@[i].code == c by {
                if l == li && c == code {
                    assert(u.snaps@[undo0.snaps@.len() as int].li == li);
                } else {
                    assert(touched_in(gens0, g, l, c));
                    let i = choose|i: int|
                        0 <= i < undo0.snaps@.len() && (#[trigger] undo0.snaps@[i]).li == l
                            && undo0.snaps@[i].code == c;
                    assert(u.snaps@[i] == undo0.snaps@[i]);
                }
            }
            assert forall|l: int, c: u32| #![trigger u.bucket_gen@[l]@[c]]
                0 <= l < ctx.n_levels() && u.bucket_gen@[l]@.contains_key(c) implies u.bucket_gen@[l]@[c]
                <= g by {
                if l == li && c == code {
                } else {
                    assert(gens0[l]@.contains_key(c));
                    assert(gens0[l]@[c] <= g);
                }
            }
            assert forall|i: int| 0 <= i < u.snaps@.len() implies ({
                let s = #[trigger] u.snaps@[i];
                &&& s.li < ctx.n_levels()
                &&& s.code < ctx.simple_level_capacity@[s.li as int]
                &&& touched_in(u.bucket_gen@, g, s.li as int, s.code)
                &&& s.members@ == members_at(self.base@.levels[s.li as int].members, s.code)
                &&& distinct_chars(ctx, s.members@)
                &&& s.freq_sum == sum(freqs_of(ctx, s.members@))
            }) by {
                if i < undo0.snaps@.len() {
                    let s = undo0.snaps@[i];
                    assert(touched_in(gens0, g, s.li as int, s.code));
                } else {
                    assert(same_bucket(
                        self.base@.levels[li as int],
                        self@.levels[li as int],
                        code,
                    ));
                }
            }
            assert forall|i: int, j: int|
                #![trigger u.snaps@[i], u.snaps@[j]]
                0 <= i < j < u.snaps@.len() implies u.snaps@[i].li != u.snaps@[j].li
                || u.snaps@[i].code != u.snaps@[j].code by {
                if j == undo0.snaps@.len() {
                    let s = undo0.snaps@[i];
                    assert(touched_in(gens0, g, s.li as int, s.code));
                } else {
                    let s = undo0.snaps@[i];
                    let t = undo0.snaps@[j];
                }
            }
            assert forall|l: int| #![trigger u.dirty@[l]] 0 <= l < ctx.n_levels() implies {
                &&& u.dirty@[l]@.no_duplicates()
                &&& forall|c: u32| #[trigger]
                    u.dirty@[l]@.contains(c) <==> touched_in(u.bucket_gen@, g, l, c)
            } by {
                let d0 = undo0.dirty@[l]@;
                let d1 = u.dirty@[l]@;
                if l == li {
                    assert(d1 == d0.push(code));
                    assert(!d0.contains(code));
                    assert forall|c: u32| #[trigger] d1.contains(c) <==> touched_in(
                        u.bucket_gen@,
                        g,
                        l,
                        c,
                    ) by {
                        if d0.contains(c) {
                            let k = d0.index_of(c);
                            assert(d1[k] == c);
                        }
                        if c == code {
                            assert(d1[d0.len() as int] == c);
                        }
                    }
                    assert forall|i: int, j: int|
                        0 <= i < d1.len() && 0 <= j < d1.len() && i != j implies d1[i] != d1[j] by {
                        if i == d0.len() {
                            assert(d0.contains(d1[j]));
                        } else if j == d0.len() {
                            assert(d0.contains(d1[i]));
                        }
                    }
                } else {
                    assert(d1 == d0);
                }
            }
        }
    }
}

/// Changing a level where its buckets were put down keeps the log of buckets.
proof fn buckets_ok_after(
    ctx: &OptContext,
    undo: BucketUndo,
    gen: u32,
    base: Seq<LevelView>,
    now: Seq<LevelView>,
    li: int,
    level: LevelView,
)
    requires
        undo.ok(ctx, gen, base, now),
        0 <= li < ctx.n_levels(),
        now.len() == ctx.n_levels(),
        forall|c: u32|
            !(#[trigger] touched_in(undo.bucket_gen@, gen, li, c)) ==> same_bucket(now[li], level, c),
    ensures
        undo.ok(ctx, gen, base, now.update(li, level)),
{
    assert forall|l: int, c: u32|
        #![trigger touched_in(undo.bucket_gen@, gen, l, c)]
        0 <= l < ctx.n_levels() && !touched_in(undo.bucket_gen@, gen, l, c) implies same_bucket(
        base[l],
        now.update(li, level)[l],
        c,
    ) by {
        assert(same_bucket(base[l], now[l], c));
        if l == li {
            assert(same_bucket(now[li], level, c));
        }
    }
}

/// A change to a level's buckets keeps the logs of entries.
proof fn entries_ok_members(
    ctx: &OptContext,
    undo: EntryUndo,
    base: Seq<LevelView>,
    now: Seq<LevelView>,
    li: int,
    level: LevelView,
)
    requires
        undo.ok(ctx, base, now),
        0 <= li < now.len(),
        level.codes == now[li].codes,
        level.selected == now[li].selected,
        level.keys == now[li].keys,
    ensures
        undo.ok(ctx, base, now.update(li, level)),
{
    assert(code_rows(now.update(li, level)) =~= code_rows(now));
    assert(selected_rows(now.update(li, level)) =~= selected_rows(now));
    assert(key_rows(now.update(li, level)) =~= key_rows(now));
}

impl Selection {
    /// What a selection holds after one level has changed.
    proof fn view_after(&self, other: &Selection, li: int)
        requires
            0 <= li < self.levels@.len(),
            self.levels@.len() == other.levels@.len(),
            self.levels@ == other.levels@.update(li, self.levels@[li]),
        ensures
            self@.levels == other@.levels.update(li, self.levels@[li]@),
    {
        assert forall|l: int| 0 <= l < self.levels@.len() implies #[trigger] self@.levels[l]
            == other@.levels.update(li, self.levels@[li]@)[l] by {
            if l != li {
                assert(self.levels@[l] == other.levels@[l]);
            }
        }
        assert(self@.levels =~= other@.levels.update(li, self.levels@[li]@));
    }

    /// The totals still fit after a level has changed without a change of who is selected.
    proof fn grand_totals_keep(
        ctx: &OptContext,
        totals: Totals,
        levels: Seq<LevelView>,
        li: int,
        level: LevelView,
    )
        requires
            grand_totals_fit(ctx, totals, levels),
            0 <= li < levels.len(),
            level.selected == levels[li].selected,
            level.keys == levels[li].keys,
        ensures
            grand_totals_fit(ctx, totals, levels.update(li, level)),
    {
        assert forall|cell: int| 0 <= cell < CELLS implies #[trigger] totals.cells@[cell] == grand_cell(
            ctx,
            levels.update(li, level),
            cell,
        ) by {
            grand_cell_update(ctx, levels, li, level, cell);
        }
    }

    /// Adds `ci` to the bucket of `code` at level `li`.
    pub(crate) fn bucket_insert_member(&mut self, ctx: &OptContext, li: usize, code: u32, ci: usize)
        requires
            ctx.wf_full(),
            ctx.wf_levels(),
            old(self).sane(ctx),
            old(self).logged(ctx),
            li < ctx.n_levels(),
            code < ctx.simple_level_capacity@[li as int],
            ci < ctx.n(),
            !members_at(old(self)@.levels[li as int].members, code).contains(ci as u32),
        ensures
            final(self).sane(ctx),
            final(self).logged(ctx),
            final(self).base == old(self).base,
            final(self)@ == old(self)@.with_level(
                li as int,
                (LevelView {
                    members: old(self)@.levels[li as int].members.insert(
                        code,
                        members_at(old(self)@.levels[li as int].members, code).push(ci as u32),
                    ),
                    ..old(self)@.levels[li as int]
                }),
            ),
            forall|l: int, c: u32|
                0 <= l < ctx.n_levels() ==> (#[trigger] final(self).touched(l, c) <==> old(
                    self,
                ).touched(l, c) || (l == li && c == code)),
    {
        self.touch_bucket(ctx, li, code);
        let ghost before = *self;
        let capacity = ctx.simple_level_capacity[li];
        assert(self.levels@[li as int].sane(ctx, capacity));
        let level = &mut self.levels[li];
        level.push_member(ctx, code, ci, capacity);
        proof {
            let now = before@.levels;
            let after = self.levels@[li as int]@;
            self.view_after(&before, li as int);
            assert forall|c: u32|
                !(#[trigger] touched_in(before.buckets_undo.bucket_gen@, before.cur_gen, li as int, c)) implies same_bucket(
            now[li as int], after, c) by {
                assert(before.touched(li as int, code));
            }
            buckets_ok_after(
                ctx,
                before.buckets_undo,
                before.cur_gen,
                before.base@.levels,
                now,
                li as int,
                after,
            );
            entries_ok_members(
                ctx,
                before.entries_undo,
                before.base@.levels,
                now,
                li as int,
                after,
            );
            Self::grand_totals_keep(ctx, before.totals, now, li as int, after);
            assert forall|l: int| 0 <= l < ctx.n_levels() implies (#[trigger] self.levels@[l]).sane(
                ctx,
                ctx.simple_level_capacity@[l],
            ) by {
                if l != li {
                    assert(before.levels@[l].sane(ctx, ctx.simple_level_capacity@[l]));
                }
            }
            assert(self@ =~= old(self)@.with_level(li as int, after));
        }
    }

    /// Takes `ci` out of the bucket of `code` at level `li`.
    pub(crate) fn bucket_remove_member(&mut self, ctx: &OptContext, li: usize, code: u32, ci: usize)
        requires
            ctx.wf_full(),
            ctx.wf_levels(),
            old(self).sane(ctx),
            old(self).logged(ctx),
            li < ctx.n_levels(),
            code < ctx.simple_level_capacity@[li as int],
            ci < ctx.n(),
            members_at(old(self)@.levels[li as int].members, code).contains(ci as u32),
        ensures
            final(self).sane(ctx),
            final(self).logged(ctx),
            final(self).base == old(self).base,
            ({
                let m0 = old(self)@.levels[li as int].members;
                let m1 = final(self)@.levels[li as int].members;
                &&& final(self)@ == old(self)@.with_level(
                    li as int,
                    (LevelView { members: m1, ..old(self)@.levels[li as int] }),
                )
                &&& m1 == if members_at(m1, code).len() > 0 {
                    m0.insert(code, members_at(m1, code))
                } else {
                    m0.remove(code)
                }
                &&& forall|x: u32|
                    members_at(m1, code).contains(x) <==> #[trigger] members_at(m0, code).contains(x)
                        && x != ci
            }),
            forall|l: int, c: u32|
                0 <= l < ctx.n_levels() ==> (#[trigger] final(self).touched(l, c) <==> old(
                    self,
                ).touched(l, c) || (l == li && c == code)),
    {
        self.touch_bucket(ctx, li, code);
        let ghost before = *self;
        let capacity = ctx.simple_level_capacity[li];
        assert(self.levels@[li as int].sane(ctx, capacity));
        let level = &mut self.levels[li];
        level.drop_member(ctx, code, ci, capacity);
        proof {
            let now = before@.levels;
            let after = self.levels@[li as int]@;
            self.view_after(&before, li as int);
            assert forall|c: u32|
                !(#[trigger] touched_in(before.buckets_undo.bucket_gen@, before.cur_gen, li as int, c)) implies same_bucket(
            now[li as int], after, c) by {
                assert(before.touched(li as int, code));
            }
            buckets_ok_after(
                ctx,
                before.buckets_undo,
                before.cur_gen,
                before.base@.levels,
                now,
                li as int,
                after,
            );
            entries_ok_members(
                ctx,
                before.entries_undo,
                before.base@.levels,
                now,
                li as int,
                after,
            );
            Self::grand_totals_keep(ctx, before.totals, now, li as int, after);
            assert forall|l: int| 0 <= l < ctx.n_levels() implies (#[trigger] self.levels@[l]).sane(
                ctx,
                ctx.simple_level_capacity@[l],
            ) by {
                if l != li {
                    assert(before.levels@[l].sane(ctx, ctx.simple_level_capacity@[l]));
                }
            }
            assert(self@ =~= old(self)@.with_level(li as int, after));
        }
    }

    /// Reorders the members of the bucket of `code` at level `li`, which was put down before.
    pub(crate) fn reorder_members(&mut self, ctx: &OptContext, li: usize, code: u32, members: Vec<u32>)
        requires
            ctx.wf_full(),
            ctx.wf_levels(),
            old(self).sane(ctx),
            old(self).logged(ctx),
            li < ctx.n_levels(),
            code < ctx.simple_level_capacity@[li as int],
            old(self).touched(li as int, code),
            members@.len() > 0,
            distinct_chars(ctx, members@),
            forall|x: u32| #[trigger]
                members@.contains(x) <==> members_at(
                    old(self)@.levels[li as int].members,
                    code,
                ).contains(x),
        ensures
            final(self).sane(ctx),
            final(self).logged(ctx),
            final(self).base == old(self).base,
            final(self).cur_gen == old(self).cur_gen,
            final(self).buckets_undo == old(self).buckets_undo,
            final(self)@ == old(self)@.with_level(
                li as int,
                (LevelView {
                    members: old(self)@.levels[li as int].members.insert(code, members@),
                    ..old(self)@.levels[li as int]
                }),
            ),
    {
        let ghost before = *self;
        let capacity = ctx.simple_level_capacity[li];
        assert(self.levels@[li as int].sane(ctx, capacity));
        let ghost m = members@;
        let freq_sum: u64 = match self.levels[li].buckets.get(code) {
            Some(b) => b.freq_sum,
            None => 0,
        };
        proof {
            let m0 = members_at(before@.levels[li as int].members, code);
            assert(m.contains(m[0]));
            assert(m0.len() > 0);
            freqs_of_same(ctx, m0, m);
        }
        let level = &mut self.levels[li];
        level.set_members(ctx, code, members, freq_sum, capacity);
        proof {
            let now = before@.levels;
            let after = self.levels@[li as int]@;
            self.view_after(&before, li as int);
            assert forall|c: u32|
                !(#[trigger] touched_in(before.buckets_undo.bucket_gen@, before.cur_gen, li as int, c)) implies same_bucket(
            now[li as int], after, c) by {}
            buckets_ok_after(
                ctx,
                before.buckets_undo,
                before.cur_gen,
                before.base@.levels,
                now,
                li as int,
                after,
            );
            entries_ok_members(
                ctx,
                before.entries_undo,
                before.base@.levels,
                now,
                li as int,
                after,
            );
            Self::grand_totals_keep(ctx, before.totals, now, li as int, after);
            assert forall|l: int| 0 <= l < ctx.n_levels() implies (#[trigger] self.levels@[l]).sane(
                ctx,
                ctx.simple_level_capacity@[l],
            ) by {
                if l != li {
                    assert(before.levels@[l].sane(ctx, ctx.simple_level_capacity@[l]));
                }
            }
            assert(self@ =~= old(self)@.with_level(li as int, after));
        }
    }

    /// Writes the code of `ci` at level `li`.
    pub(crate) fn set_code(&mut self, ctx: &OptContext, li: usize, ci: usize, code: Option<u32>)
        requires
            ctx.wf_full(),
            ctx.wf_levels(),
            old(self).sane(ctx),
            old(self).logged(ctx),
            li < ctx.n_levels(),
            ci < ctx.n(),
        ensures
            final(self).sane(ctx),
            final(self).logged(ctx),
            final(self).base == old(self).base,
            final(self).cur_gen == old(self).cur_gen,
            final(self).buckets_undo == old(self).buckets_undo,
            final(self)@ == old(self)@.with_level(
                li as int,
                (LevelView {
                    codes: old(self)@.levels[li as int].codes.update(ci as int, code),
                    ..old(self)@.levels[li as int]
                }),
            ),
    {
        let ghost before = *self;
        assert(self.levels@[li as int].sane(ctx, ctx.simple_level_capacity@[li as int]));
        let was = self.levels[li].current_simple_code[ci];
        self.entries_undo.codes.push((li, ci, was));
        let level = &mut self.levels[li];
        level.current_simple_code.set(ci, code);
        proof {
            let now = before@.levels;
            let after = self.levels@[li as int]@;
            self.view_after(&before, li as int);
            assert(after =~= (LevelView {
                codes: now[li as int].codes.update(ci as int, code),
                ..now[li as int]
            }));
            buckets_ok_after(
                ctx,
                before.buckets_undo,
                before.cur_gen,
                before.base@.levels,
                now,
                li as int,
                after,
            );
            let rows = code_rows(now);
            replay_push(before.entries_undo.codes@, rows, li, ci, code);
            assert(code_rows(now.update(li as int, after)) =~= rows.update(
                li as int,
                rows[li as int].update(ci as int, code),
            ));
            assert(selected_rows(now.update(li as int, after)) =~= selected_rows(now));
            assert(key_rows(now.update(li as int, after)) =~= key_rows(now));
            Self::grand_totals_keep(ctx, before.totals, now, li as int, after);
            assert forall|l: int| 0 <= l < ctx.n_levels() implies (#[trigger] self.levels@[l]).sane(
                ctx,
                ctx.simple_level_capacity@[l],
            ) by {
                assert(before.levels@[l].sane(ctx, ctx.simple_level_capacity@[l]));
            }
            assert(self@ =~= old(self)@.with_level(li as int, after));
        }
    }
}

/// Whether the buckets that hold `ci` at a level were put down.
pub open spec fn owner_touched(sel: &Selection, li: int, ci: int) -> bool {
    forall|c: u32|
        members_at(sel@.levels[li].members, c).contains(ci as u32) ==> #[trigger] sel.touched(li, c)
}

impl Selection {
    /// Writes the mark that says whether `ci` has a simple code.
    fn write_assigned(&mut self, ctx: &OptContext, ci: usize, value: bool)
        requires
            old(self).sane(ctx),
            old(self).logged(ctx),
            ci < ctx.n(),
        ensures
            final(self).sane(ctx),
            final(self).logged(ctx),
            final(self).base == old(self).base,
            final(self).cur_gen == old(self).cur_gen,
            final(self).buckets_undo == old(self).buckets_undo,
            final(self).entries_undo == old(self).entries_undo,
            final(self).totals == old(self).totals,
            final(self).levels == old(self).levels,
            final(self)@.assigned == old(self)@.assigned.update(ci as int, value),
    {
        let ghost before = *self;
        if self.flags_undo.touch_gen[ci] != self.cur_gen {
            self.flags_undo.touch_gen.set(ci, self.cur_gen);
            self.flags_undo.start_flag.set(ci, self.all_assigned_flags[ci]);
            self.flags_undo.touched.push(ci);
        }
        self.all_assigned_flags.set(ci, value);
        proof {
            let (f0, f1) = (before.flags_undo, self.flags_undo);
            assert forall|cj: int| 0 <= cj < ctx.n() implies if #[trigger] f1.touch_gen@[cj]
                == self.cur_gen {
                f1.start_flag@[cj] == self.base@.assigned[cj] && f1.touched@.contains(cj as usize)
            } else {
                self@.assigned[cj] == self.base@.assigned[cj]
            } by {
                assert(f0.touch_gen@[cj] <= self.cur_gen);
                if cj == ci {
                    if f0.touch_gen@[cj] != self.cur_gen {
                        assert(f1.touched@.last() == ci);
                    }
                } else if f0.touch_gen@[cj] == self.cur_gen {
                    let k = f0.touched@.index_of(cj as usize);
                    assert(f1.touched@[k] == cj as usize);
                }
            }
        }
    }

    /// Gives `ci` a simple code with these keys at level `li`.
    pub(crate) fn select_char(&mut self, ctx: &OptContext, li: usize, ci: usize, keys: Vec<u8>)
        requires
            ctx.wf_full(),
            ctx.wf_levels(),
            old(self).sane(ctx),
            old(self).logged(ctx),
            li < ctx.n_levels(),
            ci < ctx.n(),
            !old(self)@.levels[li as int].selected[ci as int],
            simple_keys_ok(keys@),
            owner_touched(old(self), li as int, ci as int),
        ensures
            final(self).sane(ctx),
            final(self).logged(ctx),
            final(self).base == old(self).base,
            final(self).cur_gen == old(self).cur_gen,
            final(self).buckets_undo == old(self).buckets_undo,
            final(self)@.levels == old(self)@.levels.update(
                li as int,
                (LevelView {
                    selected: old(self)@.levels[li as int].selected.update(ci as int, true),
                    keys: old(self)@.levels[li as int].keys.update(ci as int, keys@),
                    ..old(self)@.levels[li as int]
                }),
            ),
            final(self)@.assigned == old(self)@.assigned.update(ci as int, true),
    {
        self.write_assigned(ctx, ci, true);
        self.put_on(ctx, li, ci, keys);
    }

    /// Gives `ci` a simple code at level `li`, and leaves the mark alone.
    fn put_on(&mut self, ctx: &OptContext, li: usize, ci: usize, keys: Vec<u8>)
        requires
            ctx.wf_full(),
            ctx.wf_levels(),
            old(self).sane(ctx),
            old(self).logged(ctx),
            li < ctx.n_levels(),
            ci < ctx.n(),
            !old(self)@.levels[li as int].selected[ci as int],
            simple_keys_ok(keys@),
            owner_touched(old(self), li as int, ci as int),
        ensures
            final(self).sane(ctx),
            final(self).logged(ctx),
            final(self).base == old(self).base,
            final(self).cur_gen == old(self).cur_gen,
            final(self).buckets_undo == old(self).buckets_undo,
            final(self).all_assigned_flags == old(self).all_assigned_flags,
            final(self)@.levels == old(self)@.levels.update(
                li as int,
                (LevelView {
                    selected: old(self)@.levels[li as int].selected.update(ci as int, true),
                    keys: old(self)@.levels[li as int].keys.update(ci as int, keys@),
                    ..old(self)@.levels[li as int]
                }),
            ),
    {
        let ghost before = *self;
        let ghost now = before@.levels;
        let ghost keys_seq = keys@;
        let freq = ctx.char_infos[ci].frequency;
        let capacity = ctx.simple_level_capacity[li];
        assert(self.levels@[li as int].sane(ctx, capacity));
        let old_keys = copy_of(&self.levels[li].sel_keys[ci]);
        self.entries_undo.selected.push((li, ci, false));
        self.entries_undo.keys.push((li, ci, old_keys));
        proof {
            self.sane_sized(ctx);
            assert forall|cell: int| 0 <= cell < CELLS implies #[trigger] self.totals.cells@[cell]
                + cell_limit() <= u128::MAX by {
                grand_cell_bound(ctx, now, cell);
            }
        }
        self.totals.add_char(freq, &keys);
        let level = &mut self.levels[li];
        level.mark_selected(ctx, ci, keys, capacity);
        proof {
            let after = self.levels@[li as int]@;
            self.view_after(&before, li as int);
            self.entry_changed(ctx, &before, li as int, ci as int, after);
            let rows = selected_rows(now);
            replay_push(before.entries_undo.selected@, rows, li, ci, true);
            assert(selected_rows(now.update(li as int, after)) =~= rows.update(
                li as int,
                rows[li as int].update(ci as int, true),
            ));
            let krows = key_rows(now);
            replay_push(key_log(before.entries_undo.keys@), krows, li, ci, keys_seq);
            assert(key_log(self.entries_undo.keys@) =~= key_log(before.entries_undo.keys@).push(
                (li, ci, krows[li as int][ci as int]),
            ));
            assert(key_rows(now.update(li as int, after)) =~= krows.update(
                li as int,
                krows[li as int].update(ci as int, keys_seq),
            ));
            assert(code_rows(now.update(li as int, after)) =~= code_rows(now));
            assert forall|cell: int| 0 <= cell < CELLS implies #[trigger] self.totals.cells@[cell]
                == grand_cell(ctx, self@.levels, cell) by {
                grand_cell_update(ctx, now, li as int, after, cell);
                cell_total_update(
                    ctx,
                    now[li as int].selected,
                    now[li as int].keys,
                    ci as int,
                    true,
                    keys_seq,
                    cell,
                );
            }
        }
    }

    /// Takes the simple code at level `li` off `ci`, and leaves the mark alone.
    pub(crate) fn deselect_contrib_only(&mut self, ctx: &OptContext, li: usize, ci: usize)
        requires
            ctx.wf_full(),
            ctx.wf_levels(),
            old(self).sane(ctx),
            old(self).logged(ctx),
            li < ctx.n_levels(),
            ci < ctx.n(),
            old(self)@.levels[li as int].selected[ci as int],
            owner_touched(old(self), li as int, ci as int),
        ensures
            final(self).sane(ctx),
            final(self).logged(ctx),
            final(self).base == old(self).base,
            final(self).cur_gen == old(self).cur_gen,
            final(self).buckets_undo == old(self).buckets_undo,
            final(self).all_assigned_flags == old(self).all_assigned_flags,
            final(self)@.levels == old(self)@.levels.update(
                li as int,
                (LevelView {
                    selected: old(self)@.levels[li as int].selected.update(ci as int, false),
                    ..old(self)@.levels[li as int]
                }),
            ),
    {
        let ghost before = *self;
        let ghost now = before@.levels;
        let freq = ctx.char_infos[ci].frequency;
        let capacity = ctx.simple_level_capacity[li];
        assert(self.levels@[li as int].sane(ctx, capacity));
        self.entries_undo.selected.push((li, ci, true));
        proof {
            self.sane_sized(ctx);
            assert forall|cell: int| 0 <= cell < CELLS implies #[trigger] self.totals.cells@[cell]
                >= freq * cell_unit(self.levels@[li as int].sel_keys@[ci as int]@, cell) by {
                grand_cell_bound(ctx, now, cell);
                assert(level_cells(ctx, now, cell)[li as int] <= grand_cell(ctx, now, cell));
                cell_total_bound(ctx, now[li as int].selected, now[li as int].keys, cell);
                assert(now[li as int].selected[ci as int]);
            }
        }
        self.totals.remove_char(freq, &self.levels[li].sel_keys[ci]);
        let level = &mut self.levels[li];
        level.mark_deselected(ctx, ci, capacity);
        proof {
            let after = self.levels@[li as int]@;
            self.view_after(&before, li as int);
            self.entry_changed(ctx, &before, li as int, ci as int, after);
            let rows = selected_rows(now);
            replay_push(before.entries_undo.selected@, rows, li, ci, false);
            assert(selected_rows(now.update(li as int, after)) =~= rows.update(
                li as int,
                rows[li as int].update(ci as int, false),
            ));
            assert(key_rows(now.update(li as int, after)) =~= key_rows(now));
            assert(code_rows(now.update(li as int, after)) =~= code_rows(now));
            let k = now[li as int].keys[ci as int];
            assert(now[li as int].keys.update(ci as int, k) =~= now[li as int].keys);
            assert forall|cell: int| 0 <= cell < CELLS implies #[trigger] self.totals.cells@[cell]
                == grand_cell(ctx, self@.levels, cell) by {
                grand_cell_update(ctx, now, li as int, after, cell);
                cell_total_update(
                    ctx,
                    now[li as int].selected,
                    now[li as int].keys,
                    ci as int,
                    false,
                    k,
                    cell,
                );
            }
        }
    }

    /// Takes the simple code at level `li` off `ci`, which has none then.
    pub(crate) fn deselect_char(&mut self, ctx: &OptContext, li: usize, ci: usize)
        requires
            ctx.wf_full(),
            ctx.wf_levels(),
            old(self).sane(ctx),
            old(self).logged(ctx),
            li < ctx.n_levels(),
            ci < ctx.n(),
            old(self)@.levels[li as int].selected[ci as int],
            owner_touched(old(self), li as int, ci as int),
        ensures
            final(self).sane(ctx),
            final(self).logged(ctx),
            final(self).base == old(self).base,
            final(self).cur_gen == old(self).cur_gen,
            final(self).buckets_undo == old(self).buckets_undo,
            final(self)@.levels == old(self)@.levels.update(
                li as int,
                (LevelView {
                    selected: old(self)@.levels[li as int].selected.update(ci as int, false),
                    ..old(self)@.levels[li as int]
                }),
            ),
            final(self)@.assigned == old(self)@.assigned.update(ci as int, false),
    {
        self.write_assigned(ctx, ci, false);
        self.deselect_contrib_only(ctx, li, ci);
    }

    /// Replaces the keys of `ci`, which keeps its simple code at level `li`.
    pub(crate) fn refresh_char(&mut self, ctx: &OptContext, li: usize, ci: usize, keys: Vec<u8>)
        requires
            ctx.wf_full(),
            ctx.wf_levels(),
            old(self).sane(ctx),
            old(self).logged(ctx),
            li < ctx.n_levels(),
            ci < ctx.n(),
            old(self)@.levels[li as int].selected[ci as int],
            simple_keys_ok(keys@),
            owner_touched(old(self), li as int, ci as int),
        ensures
            final(self).sane(ctx),
            final(self).logged(ctx),
            final(self).base == old(self).base,
            final(self).cur_gen == old(self).cur_gen,
            final(self).buckets_undo == old(self).buckets_undo,
            final(self).all_assigned_flags == old(self).all_assigned_flags,
            final(self)@.levels == old(self)@.levels.update(
                li as int,
                (LevelView {
                    keys: old(self)@.levels[li as int].keys.update(ci as int, keys@),
                    ..old(self)@.levels[li as int]
                }),
            ),
    {
        self.deselect_contrib_only(ctx, li, ci);
        self.put_on(ctx, li, ci, keys);
        assert(self@.levels[li as int].selected =~= old(self)@.levels[li as int].selected);
        assert(self@.levels =~= old(self)@.levels.update(
            li as int,
            (LevelView {
                keys: old(self)@.levels[li as int].keys.update(ci as int, keys@),
                ..old(self)@.levels[li as int]
            }),
        ));
    }

    /// Changing the entries of one character whose buckets were put down keeps the log of buckets
    /// and the other levels.
    proof fn entry_changed(
        &self,
        ctx: &OptContext,
        before: &Selection,
        li: int,
        ci: int,
        after: LevelView,
    )
        requires
            before.sane(ctx),
            before.logged(ctx),
            0 <= li < ctx.n_levels(),
            0 <= ci < ctx.n(),
            ctx.n() <= u32::MAX,
            owner_touched(before, li, ci),
            self.levels@.len() == ctx.n_levels(),
            self.levels@ == before.levels@.update(li, self.levels@[li]),
            self.levels@[li].sane(ctx, ctx.simple_level_capacity@[li]),
            self@.levels == before@.levels.update(li, after),
            after.members == before@.levels[li].members,
            forall|cj: int|
                #![trigger after.selected[cj]]
                0 <= cj < ctx.n() && cj != ci ==> after.selected[cj]
                    == before@.levels[li].selected[cj] && after.keys[cj]
                    == before@.levels[li].keys[cj],
        ensures
            before.buckets_undo.ok(ctx, before.cur_gen, before.base@.levels, self@.levels),
            forall|l: int|
                0 <= l < ctx.n_levels() ==> (#[trigger] self.levels@[l]).sane(
                    ctx,
                    ctx.simple_level_capacity@[l],
                ),
    {
        let now = before@.levels;
        assert forall|c: u32|
            !(#[trigger] touched_in(before.buckets_undo.bucket_gen@, before.cur_gen, li, c)) implies same_bucket(
        now[li], after, c) by {
            let m = members_at(now[li].members, c);
            assert(before.levels@[li].sane(ctx, ctx.simple_level_capacity@[li]));
            assert(m.len() > 0 ==> before.levels@[li].buckets@.contains_key(c));
            assert forall|j: int| #![trigger m[j]] 0 <= j < m.len() implies {
                let x = m[j] as int;
                now[li].selected[x] == after.selected[x] && now[li].keys[x] == after.keys[x]
            } by {
                let x = m[j] as int;
                assert(m.contains(m[j]));
                if x == ci {
                    assert(m.contains(ci as u32));
                    assert(before.touched(li, c));
                }
                let y = after.selected[x];
            }
        }
        buckets_ok_after(
            ctx,
            before.buckets_undo,
            before.cur_gen,
            before.base@.levels,
            now,
            li,
            after,
        );
        assert forall|l: int| 0 <= l < ctx.n_levels() implies (#[trigger] self.levels@[l]).sane(
            ctx,
            ctx.simple_level_capacity@[l],
        ) by {
            assert(before.levels@[l].sane(ctx, ctx.simple_level_capacity@[l]));
        }
    }
}

impl Selection {
    /// Puts every changed bucket back as it was.
    fn restore_buckets(&mut self, ctx: &OptContext)
        requires
            ctx.wf_full(),
            ctx.wf_levels(),
            old(self).sane(ctx),
            old(self).logged(ctx),
        ensures
            final(self).sane(ctx),
            final(self).base == old(self).base,
            final(self).cur_gen == old(self).cur_gen,
            final(self).buckets_undo == old(self).buckets_undo,
            final(self).flags_undo == old(self).flags_undo,
            final(self).entries_undo == old(self).entries_undo,
            final(self).saved == old(self).saved,
            final(self).all_assigned_flags == old(self).all_assigned_flags,
            forall|li: int|
                #![trigger final(self)@.levels[li]]
                0 <= li < ctx.n_levels() ==> final(self)@.levels[li] == (LevelView {
                    members: old(self).base@.levels[li].members,
                    ..old(self)@.levels[li]
                }),
    {
        let ghost base = self.base@.levels;
        let mut i: usize = 0;
        while i < self.buckets_undo.snaps.len()
            invariant
                i <= self.buckets_undo.snaps@.len(),
                ctx.wf_full(),
                ctx.wf_levels(),
                self.sane(ctx),
                old(self).sane(ctx),
                old(self).logged(ctx),
                base == old(self).base@.levels,
                self.base == old(self).base,
                self.cur_gen == old(self).cur_gen,
                self.buckets_undo == old(self).buckets_undo,
                self.flags_undo == old(self).flags_undo,
                self.entries_undo == old(self).entries_undo,
                self.saved == old(self).saved,
                self.all_assigned_flags == old(self).all_assigned_flags,
                forall|li: int|
                    #![trigger self@.levels[li]]
                    0 <= li < ctx.n_levels() ==> self@.levels[li] == (LevelView {
                        members: self@.levels[li].members,
                        ..old(self)@.levels[li]
                    }),
                forall|li: int, c: u32|
                    #![trigger self@.levels[li].members.contains_key(c)]
                    0 <= li < ctx.n_levels() && !touched_in(
                        self.buckets_undo.bucket_gen@,
                        self.cur_gen,
                        li,
                        c,
                    ) ==> self@.levels[li].members.contains_key(c) == base[li].members.contains_key(c)
                        && members_at(self@.levels[li].members, c) == members_at(base[li].members, c),
                forall|k: int|
                    0 <= k < i ==> {
                        let s = #[trigger] self.buckets_undo.snaps@[k];
                        &&& self@.levels[s.li as int].members.contains_key(s.code)
                            == base[s.li as int].members.contains_key(s.code)
                        &&& members_at(self@.levels[s.li as int].members, s.code) == members_at(
                            base[s.li as int].members,
                            s.code,
                        )
                    },
            decreases self.buckets_undo.snaps@.len() - i,
        {
            let ghost before = *self;
            let ghost s = self.buckets_undo.snaps@[i as int];
            let li = self.buckets_undo.snaps[i].li;
            let code = self.buckets_undo.snaps[i].code;
            let freq_sum = self.buckets_undo.snaps[i].freq_sum;
            let members = copy_of(&self.buckets_undo.snaps[i].members);
            let capacity = ctx.simple_level_capacity[li];
            assert(self.levels@[li as int].sane(ctx, capacity));
            let level = &mut self.levels[li];
            level.set_members(ctx, code, members, freq_sum, capacity);
            proof {
                let after = self.levels@[li as int]@;
                self.view_after(&before, li as int);
                Self::grand_totals_keep(ctx, before.totals, before@.levels, li as int, after);
                assert forall|l: int| 0 <= l < ctx.n_levels() implies (#[trigger] self.levels@[l]).sane(
                    ctx,
                    ctx.simple_level_capacity@[l],
                ) by {
                    assert(before.levels@[l].sane(ctx, ctx.simple_level_capacity@[l]));
                }
                assert forall|l: int| #![trigger self@.levels[l]] 0 <= l < ctx.n_levels() implies self@.levels[l]
                    == (LevelView { members: self@.levels[l].members, ..old(self)@.levels[l] }) by {
                    let x = before@.levels[l];
                }
                assert forall|l: int, c: u32|
                    #![trigger self@.levels[l].members.contains_key(c)]
                    0 <= l < ctx.n_levels() && !touched_in(
                        self.buckets_undo.bucket_gen@,
                        self.cur_gen,
                        l,
                        c,
                    ) implies self@.levels[l].members.contains_key(c) == base[l].members.contains_key(c)
                    && members_at(self@.levels[l].members, c) == members_at(base[l].members, c) by {
                    let x = before@.levels[l].members.contains_key(c);
                }
                assert forall|k: int| 0 <= k < i + 1 implies ({
                    let s = #[trigger] self.buckets_undo.snaps@[k];
                    &&& self@.levels[s.li as int].members.contains_key(s.code)
                        == base[s.li as int].members.contains_key(s.code)
                    &&& members_at(self@.levels[s.li as int].members, s.code) == members_at(
                        base[s.li as int].members,
                        s.code,
                    )
                }) by {
                    let t = self.buckets_undo.snaps@[k];
                    if k < i {
                        assert(t.li != s.li || t.code != s.code);
                    } else {
                        assert(base[li as int].members.contains_key(code) ==> base[li as int].members[code].len()
                            > 0);
                    }
                }
            }
            i = i + 1;
        }
        proof {
            assert forall|li: int| #![trigger self@.levels[li]] 0 <= li < ctx.n_levels() implies self@.levels[li]
                == (LevelView { members: base[li].members, ..old(self)@.levels[li] }) by {
                assert forall|c: u32|
                    self@.levels[li].members.contains_key(c) == base[li].members.contains_key(c)
                        && members_at(self@.levels[li].members, c) == members_at(
                        base[li].members,
                        c,
                    ) by {
                    let x = self@.levels[li].members.contains_key(c);
                    if touched_in(self.buckets_undo.bucket_gen@, self.cur_gen, li, c) {
                        let k = choose|k: int|
                            0 <= k < self.buckets_undo.snaps@.len() && (
                            #[trigger] self.buckets_undo.snaps@[k]).li == li
                                && self.buckets_undo.snaps@[k].code == c;
                        let s = self.buckets_undo.snaps@[k];
                    }
                }
                assert forall|c: u32| base[li].members.contains_key(c) implies #[trigger] self@.levels[li].members[c]
                    == base[li].members[c] by {
                    assert(members_at(self@.levels[li].members, c) == members_at(
                        base[li].members,
                        c,
                    ));
                }
                assert(self@.levels[li].members =~= base[li].members);
            }
        }
    }
}

/// The shells of all levels.
spec fn all_shells(ctx: &OptContext, levels: Seq<SimpleLevelTracker>) -> bool {
    &&& levels.len() == ctx.n_levels()
    &&& forall|li: int|
        0 <= li < ctx.n_levels() ==> (#[trigger] levels[li]).shell(
            ctx,
            ctx.simple_level_capacity@[li],
        )
}

/// The buckets of all levels.
spec fn member_rows(levels: Seq<LevelView>) -> Seq<Map<u32, Seq<u32>>> {
    Seq::new(levels.len(), |li: int| levels[li].members)
}

/// Rows keep their shape while a log is played back.
proof fn replay_step<T>(log: Seq<(usize, usize, T)>, k: int, rows: Seq<Seq<T>>)
    requires
        0 < k <= log.len(),
    ensures
        replay(log.take(k), rows) == replay(
            log.take(k - 1),
            rows.update(
                log[k - 1].0 as int,
                rows[log[k - 1].0 as int].update(log[k - 1].1 as int, log[k - 1].2),
            ),
        ),
{
    assert(log.take(k).drop_last() =~= log.take(k - 1));
    assert(log.take(k).last() == log[k - 1]);
}

/// Plays the log of codes backwards.
fn restore_codes(
    levels: &mut Vec<SimpleLevelTracker>,
    log: &Vec<(usize, usize, Option<u32>)>,
    ctx: &OptContext,
)
    requires
        all_shells(ctx, old(levels)@),
        log_in_range(ctx, log@),
    ensures
        all_shells(ctx, final(levels)@),
        code_rows(levels_view(final(levels)@)) == replay(log@, code_rows(levels_view(old(levels)@))),
        selected_rows(levels_view(final(levels)@)) == selected_rows(levels_view(old(levels)@)),
        key_rows(levels_view(final(levels)@)) == key_rows(levels_view(old(levels)@)),
        member_rows(levels_view(final(levels)@)) == member_rows(levels_view(old(levels)@)),
{
    let mut k: usize = log.len();
    assert(log@.take(k as int) =~= log@);
    while k > 0
        invariant
            k <= log@.len(),
            all_shells(ctx, levels@),
            log_in_range(ctx, log@),
            replay(log@.take(k as int), code_rows(levels_view(levels@))) == replay(
                log@,
                code_rows(levels_view(old(levels)@)),
            ),
            selected_rows(levels_view(levels@)) == selected_rows(levels_view(old(levels)@)),
            key_rows(levels_view(levels@)) == key_rows(levels_view(old(levels)@)),
            member_rows(levels_view(levels@)) == member_rows(levels_view(old(levels)@)),
        decreases k,
    {
        let ghost before = levels@;
        let ghost rows = code_rows(levels_view(before));
        k = k - 1;
        let (li, ci, was) = log[k];
        assert(log@[k as int].0 < ctx.n_levels());
        assert(levels@[li as int].shell(ctx, ctx.simple_level_capacity@[li as int]));
        let level = &mut levels[li];
        level.current_simple_code.set(ci, was);
        proof {
            let v0 = levels_view(before);
            let v1 = levels_view(levels@);
            assert(code_rows(v1) =~= rows.update(
                li as int,
                rows[li as int].update(ci as int, was),
            ));
            assert(selected_rows(v1) =~= selected_rows(v0));
            assert(key_rows(v1) =~= key_rows(v0));
            assert(member_rows(v1) =~= member_rows(v0));
            replay_step(log@, k + 1, rows);
            assert forall|l: int| 0 <= l < ctx.n_levels() implies (#[trigger] levels@[l]).shell(
                ctx,
                ctx.simple_level_capacity@[l],
            ) by {
                assert(before[l].shell(ctx, ctx.simple_level_capacity@[l]));
            }
        }
    }
    assert(log@.take(0) =~= Seq::<(usize, usize, Option<u32>)>::empty());
}

/// Plays the log of selections backwards.
fn restore_selected(
    levels: &mut Vec<SimpleLevelTracker>,
    log: &Vec<(usize, usize, bool)>,
    ctx: &OptContext,
)
    requires
        all_shells(ctx, old(levels)@),
        log_in_range(ctx, log@),
    ensures
        all_shells(ctx, final(levels)@),
        selected_rows(levels_view(final(levels)@)) == replay(
            log@,
            selected_rows(levels_view(old(levels)@)),
        ),
        code_rows(levels_view(final(levels)@)) == code_rows(levels_view(old(levels)@)),
        key_rows(levels_view(final(levels)@)) == key_rows(levels_view(old(levels)@)),
        member_rows(levels_view(final(levels)@)) == member_rows(levels_view(old(levels)@)),
{
    let mut k: usize = log.len();
    assert(log@.take(k as int) =~= log@);
    while k > 0
        invariant
            k <= log@.len(),
            all_shells(ctx, levels@),
            log_in_range(ctx, log@),
            replay(log@.take(k as int), selected_rows(levels_view(levels@))) == replay(
                log@,
                selected_rows(levels_view(old(levels)@)),
            ),
            code_rows(levels_view(levels@)) == code_rows(levels_view(old(levels)@)),
            key_rows(levels_view(levels@)) == key_rows(levels_view(old(levels)@)),
            member_rows(levels_view(levels@)) == member_rows(levels_view(old(levels)@)),
        decreases k,
    {
        let ghost before = levels@;
        let ghost rows = selected_rows(levels_view(before));
        k = k - 1;
        let (li, ci, was) = log[k];
        assert(log@[k as int].0 < ctx.n_levels());
        assert(levels@[li as int].shell(ctx, ctx.simple_level_capacity@[li as int]));
        let level = &mut levels[li];
        level.selected.set(ci, was);
        proof {
            let v0 = levels_view(before);
            let v1 = levels_view(levels@);
            assert(selected_rows(v1) =~= rows.update(
                li as int,
                rows[li as int].update(ci as int, was),
            ));
            assert(code_rows(v1) =~= code_rows(v0));
            assert(key_rows(v1) =~= key_rows(v0));
            assert(member_rows(v1) =~= member_rows(v0));
            replay_step(log@, k + 1, rows);
            assert forall|l: int| 0 <= l < ctx.n_levels() implies (#[trigger] levels@[l]).shell(
                ctx,
                ctx.simple_level_capacity@[l],
            ) by {
                assert(before[l].shell(ctx, ctx.simple_level_capacity@[l]));
            }
        }
    }
    assert(log@.take(0) =~= Seq::<(usize, usize, bool)>::empty());
}

/// Plays the log of keys backwards.
fn restore_keys(
    levels: &mut Vec<SimpleLevelTracker>,
    log: &Vec<(usize, usize, Vec<u8>)>,
    ctx: &OptContext,
)
    requires
        all_shells(ctx, old(levels)@),
        log_in_range(ctx, log@),
    ensures
        all_shells(ctx, final(levels)@),
        key_rows(levels_view(final(levels)@)) == replay(
            key_log(log@),
            key_rows(levels_view(old(levels)@)),
        ),
        code_rows(levels_view(final(levels)@)) == code_rows(levels_view(old(levels)@)),
        selected_rows(levels_view(final(levels)@)) == selected_rows(levels_view(old(levels)@)),
        member_rows(levels_view(final(levels)@)) == member_rows(levels_view(old(levels)@)),
{
    let mut k: usize = log.len();
    let ghost klog = key_log(log@);
    assert(klog.take(k as int) =~= klog);
    while k > 0
        invariant
            k <= log@.len(),
            klog == key_log(log@),
            all_shells(ctx, levels@),
            log_in_range(ctx, log@),
            replay(klog.take(k as int), key_rows(levels_view(levels@))) == replay(
                klog,
                key_rows(levels_view(old(levels)@)),
            ),
            code_rows(levels_view(levels@)) == code_rows(levels_view(old(levels)@)),
            selected_rows(levels_view(levels@)) == selected_rows(levels_view(old(levels)@)),
            member_rows(levels_view(levels@)) == member_rows(levels_view(old(levels)@)),
        decreases k,
    {
        let ghost before = levels@;
        let ghost rows = key_rows(levels_view(before));
        k = k - 1;
        let li = log[k].0;
        let ci = log[k].1;
        let was = copy_of(&log[k].2);
        assert(log@[k as int].0 < ctx.n_levels());
        assert(levels@[li as int].shell(ctx, ctx.simple_level_capacity@[li as int]));
        let level = &mut levels[li];
        level.sel_keys.set(ci, was);
        proof {
            let v0 = levels_view(before);
            let v1 = levels_view(levels@);
            assert(v1[li as int].keys =~= v0[li as int].keys.update(ci as int, was@));
            assert(key_rows(v1) =~= rows.update(
                li as int,
                rows[li as int].update(ci as int, was@),
            ));
            assert(code_rows(v1) =~= code_rows(v0));
            assert(selected_rows(v1) =~= selected_rows(v0));
            assert(member_rows(v1) =~= member_rows(v0));
            replay_step(klog, k + 1, rows);
            assert forall|l: int| 0 <= l < ctx.n_levels() implies (#[trigger] levels@[l]).shell(
                ctx,
                ctx.simple_level_capacity@[l],
            ) by {
                assert(before[l].shell(ctx, ctx.simple_level_capacity@[l]));
            }
        }
    }
    assert(klog.take(0) =~= Seq::<(usize, usize, Seq<u8>)>::empty());
}

/// Two sequences of levels with equal rows are equal.
proof fn rows_determine(a: Seq<LevelView>, b: Seq<LevelView>)
    requires
        a.len() == b.len(),
        code_rows(a) == code_rows(b),
        selected_rows(a) == selected_rows(b),
        key_rows(a) == key_rows(b),
        member_rows(a) == member_rows(b),
    ensures
        a == b,
{
    assert forall|li: int| 0 <= li < a.len() implies #[trigger] a[li] == b[li] by {
        assert(code_rows(a)[li] == code_rows(b)[li]);
        assert(selected_rows(a)[li] == selected_rows(b)[li]);
        assert(key_rows(a)[li] == key_rows(b)[li]);
        assert(member_rows(a)[li] == member_rows(b)[li]);
    }
    assert(a =~= b);
}

impl Selection {
    /// Goes back to the starting point.
    pub(crate) fn roll_back(&mut self, ctx: &OptContext)
        requires
            ctx.wf_full(),
            ctx.wf_levels(),
            old(self).sane(ctx),
            old(self).logged(ctx),
        ensures
            final(self).sane(ctx),
            final(self).gens_ok(ctx),
            final(self)@ == old(self).base@,
    {
        let ghost base = self.base@;
        let ghost start = *self;
        self.restore_buckets(ctx);
        proof {
            assert forall|l: int| 0 <= l < ctx.n_levels() implies (#[trigger] self.levels@[l]).shell(
                ctx,
                ctx.simple_level_capacity@[l],
            ) by {
                assert(self.levels@[l].sane(ctx, ctx.simple_level_capacity@[l]));
            }
            assert(member_rows(self@.levels) =~= member_rows(base.levels)) by {
                assert forall|l: int| 0 <= l < ctx.n_levels() implies member_rows(self@.levels)[l]
                    == member_rows(base.levels)[l] by {
                    let x = self@.levels[l];
                }
            }
            assert forall|l: int| 0 <= l < ctx.n_levels() implies code_rows(self@.levels)[l] == code_rows(
                start@.levels,
            )[l] && selected_rows(self@.levels)[l] == selected_rows(start@.levels)[l] && key_rows(
                self@.levels,
            )[l] == key_rows(start@.levels)[l] by {
                let x = self@.levels[l];
            }
            assert(code_rows(self@.levels) =~= code_rows(start@.levels));
            assert(selected_rows(self@.levels) =~= selected_rows(start@.levels));
            assert(key_rows(self@.levels) =~= key_rows(start@.levels));
        }
        restore_codes(&mut self.levels, &self.entries_undo.codes, ctx);
        restore_selected(&mut self.levels, &self.entries_undo.selected, ctx);
        restore_keys(&mut self.levels, &self.entries_undo.keys, ctx);
        proof {
            rows_determine(levels_view(self.levels@), base.levels);
        }
        let mut li: usize = 0;
        while li < self.levels.len()
            invariant
                li <= self.levels@.len(),
                all_shells(ctx, self.levels@),
                levels_view(self.levels@) == base.levels,
                levels_sized(ctx, base.levels),
                self.saved.ok(ctx, base.levels),
                self.saved == start.saved,
                self.all_assigned_flags == start.all_assigned_flags,
                self.flags_undo == start.flags_undo,
                self.buckets_undo == start.buckets_undo,
                self.cur_gen == start.cur_gen,
                forall|l: int|
                    0 <= l < li ==> (#[trigger] self.levels@[l]).sane(
                        ctx,
                        ctx.simple_level_capacity@[l],
                    ),
            decreases self.levels@.len() - li,
        {
            let ghost before = self.levels@;
            let t = self.saved.levels[li].copy();
            let ghost saved = self.saved.levels@[li as int];
            assert(totals_fit(ctx, saved, base.levels[li as int]));
            let level = &mut self.levels[li];
            level.totals = t;
            proof {
                assert(levels_view(self.levels@) =~= levels_view(before));
                assert(before[li as int].shell(ctx, ctx.simple_level_capacity@[li as int]));
                assert(self.levels@[li as int]@ == base.levels[li as int]);
                let now = self.levels@[li as int];
                assert forall|ci: int| 0 <= ci < ctx.n() && #[trigger] now.selected@[ci] implies simple_keys_ok(
                    now.sel_keys@[ci]@,
                ) by {
                    assert(base.levels[li as int].selected[ci]);
                    assert(base.levels[li as int].keys[ci] == now.sel_keys@[ci]@);
                }
                assert forall|l: int| 0 <= l < ctx.n_levels() implies (#[trigger] self.levels@[l]).shell(
                    ctx,
                    ctx.simple_level_capacity@[l],
                ) by {
                    assert(before[l].shell(ctx, ctx.simple_level_capacity@[l]));
                }
                assert forall|l: int| 0 <= l < li + 1 implies (#[trigger] self.levels@[l]).sane(
                    ctx,
                    ctx.simple_level_capacity@[l],
                ) by {
                    if l < li {
                        assert(before[l].sane(ctx, ctx.simple_level_capacity@[l]));
                    }
                }
            }
            li = li + 1;
        }
        self.totals = self.saved.grand.copy();
        let mut i: usize = 0;
        while i < self.flags_undo.touched.len()
            invariant
                i <= self.flags_undo.touched@.len(),
                self.flags_undo == start.flags_undo,
                self.buckets_undo == start.buckets_undo,
                self.cur_gen == start.cur_gen,
                self.levels@.len() == ctx.n_levels(),
                levels_view(self.levels@) == base.levels,
                grand_totals_fit(ctx, self.totals, base.levels),
                forall|l: int|
                    0 <= l < ctx.n_levels() ==> (#[trigger] self.levels@[l]).sane(
                        ctx,
                        ctx.simple_level_capacity@[l],
                    ),
                start.flags_undo.ok(ctx, start.cur_gen, base.assigned, start@.assigned),
                self.all_assigned_flags@.len() == ctx.n(),
                forall|ci: int|
                    #![trigger self.all_assigned_flags@[ci]]
                    0 <= ci < ctx.n() && start.flags_undo.touch_gen@[ci] != start.cur_gen
                        ==> self.all_assigned_flags@[ci] == base.assigned[ci],
                forall|k: int|
                    0 <= k < i ==> self.all_assigned_flags@[(
                    #[trigger] self.flags_undo.touched@[k]) as int] == base.assigned[self.flags_undo.touched@[k] as int],
            decreases self.flags_undo.touched@.len() - i,
        {
            let ci = self.flags_undo.touched[i];
            assert(self.flags_undo.touch_gen@[ci as int] == start.cur_gen);
            let was = self.flags_undo.start_flag[ci];
            self.all_assigned_flags.set(ci, was);
            i = i + 1;
        }
        proof {
            assert forall|ci: int| 0 <= ci < ctx.n() implies #[trigger] self.all_assigned_flags@[ci]
                == base.assigned[ci] by {
                if start.flags_undo.touch_gen@[ci] == start.cur_gen {
                    let k = self.flags_undo.touched@.index_of(ci as usize);
                    assert(self.flags_undo.touched@[k] == ci as usize);
                }
            }
            assert(self.all_assigned_flags@ =~= base.assigned);
        }
    }
}

} // verus!
