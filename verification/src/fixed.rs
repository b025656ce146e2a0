//! Simple codes that are fixed beforehand: which of them count, for which level, and what they take
//! up.

use rustc_hash::FxHashMap;
use vstd::prelude::*;

use crate::codes::{are_keys, encode, encode_bound, space_monotone, space_values};
use crate::context::{entry_count, OptContext, OCC_CORE_KEY};
use crate::fx::{fx_get, fx_insert};
use crate::lists::copy_of;
use crate::sums::{sum, sum_constant, sum_le, sum_zero};
use crate::text::chars_of;
use crate::totals::{
    cell_limit, cell_terms, cell_total, cell_total_bound, cell_total_update, cell_unit, simple_keys_ok, Totals, CELLS,
};
use crate::types::{CharInfo, FixedSimpleCode, KeyLayout, SimpleCodeLevel, CODE_BASE, EQUIV_TABLE_SIZE, MAX_CODE_LEN};

verus! {

/// A fixed code that counts.
pub struct FixedDesc {
    /// The character.
    pub ci: int,
    /// The level it counts for, if any.
    pub li: Option<int>,
    /// Its keys without the commit key.
    pub keys: Seq<u8>,
    /// Its commit key, if any.
    pub commit_key: Option<u8>,
    /// The code as it was written.
    pub text: Seq<char>,
}

/// What a fixed code is like.
pub open spec fn desc_of(c: FixedSimpleCode) -> FixedDesc {
    FixedDesc {
        ci: c.ci as int,
        li: match c.li {
            Some(li) => Some(li as int),
            None => None,
        },
        keys: c.keys@,
        commit_key: c.commit_key,
        text: c.code_str@,
    }
}

/// The first character of a list that is `ch`.
pub open spec fn char_index(splits: Seq<(char, Vec<String>, u64)>, ch: char) -> Option<int>
    decreases splits.len(),
{
    if splits.len() == 0 {
        None
    } else {
        match char_index(splits.drop_last(), ch) {
            Some(ci) => Some(ci),
            None => if splits.last().0 == ch {
                Some(splits.len() - 1)
            } else {
                None
            },
        }
    }
}

/// The keys that a code is written with; none where some character of it stands for no key.
pub open spec fn written_keys(layout: &KeyLayout, code: Seq<char>) -> Option<Seq<u8>>
    decreases code.len(),
{
    if code.len() == 0 {
        Some(Seq::empty())
    } else {
        match (written_keys(layout, code.drop_last()), layout.key_of_char(code.last())) {
            (Some(keys), Some(k)) => if k < EQUIV_TABLE_SIZE {
                Some(keys.push(k as u8))
            } else {
                None
            },
            _ => None,
        }
    }
}

/// Whether a fixed code counts for a level whose codes have `len` keys: it has as many, and one
/// more where the level has commit keys, which is one of them.
pub open spec fn level_takes(level: SimpleCodeLevel, len: nat, keys: Seq<u8>) -> bool {
    if level.commits() {
        keys.len() - 1 == len && level.commit_keys@.contains(keys.last())
    } else {
        keys.len() == len
    }
}

/// The first level that a fixed code counts for.
pub open spec fn level_for(levels: Seq<SimpleCodeLevel>, lens: Seq<usize>, keys: Seq<u8>) -> Option<int>
    decreases levels.len(),
{
    if levels.len() == 0 {
        None
    } else {
        match level_for(levels.drop_last(), lens, keys) {
            Some(li) => Some(li),
            None => if level_takes(levels.last(), lens[levels.len() - 1] as nat, keys) {
                Some(levels.len() - 1)
            } else {
                None
            },
        }
    }
}

/// Whether a character is among those with a fixed code.
pub open spec fn taken(accepted: Seq<FixedDesc>, ci: int) -> bool {
    exists|j: int| 0 <= j < accepted.len() && (#[trigger] accepted[j]).ci == ci
}

/// The commit key of a fixed code: its last key, if the level it counts for has commit keys.
pub open spec fn commit_of(levels: Seq<SimpleCodeLevel>, li: Option<int>, keys: Seq<u8>) -> Option<u8> {
    match li {
        Some(l) => if levels[l].commits() {
            Some(keys.last())
        } else {
            None
        },
        None => None,
    }
}

/// Whether a fixed code counts, and as what. It does not where its character is unknown or has one
/// already, where it is empty or not written with keys, and where it is, without its commit key, not
/// shorter than the full code.
pub open spec fn fixed_desc(
    layout: KeyLayout,
    levels: Seq<SimpleCodeLevel>,
    infos: Seq<CharInfo>,
    splits: Seq<(char, Vec<String>, u64)>,
    lens: Seq<usize>,
    entry: (char, String),
    accepted: Seq<FixedDesc>,
) -> Option<FixedDesc> {
    match (char_index(splits, entry.0), written_keys(&layout, entry.1@)) {
        (Some(ci), Some(keys)) => {
            let li = level_for(levels, lens, keys);
            let commit_key = commit_of(levels, li, keys);
            let core = if commit_key is Some {
                keys.drop_last()
            } else {
                keys
            };
            if taken(accepted, ci) || keys.len() == 0 || core.len() == 0 || core.len()
                >= infos[ci].parts@.len() {
                None
            } else {
                Some(FixedDesc { ci, li, keys: core, commit_key, text: entry.1@ })
            }
        },
        _ => None,
    }
}

/// The fixed codes that count, in the order in which they are given.
pub open spec fn accepted_codes(
    layout: KeyLayout,
    levels: Seq<SimpleCodeLevel>,
    infos: Seq<CharInfo>,
    splits: Seq<(char, Vec<String>, u64)>,
    lens: Seq<usize>,
    entries: Seq<(char, String)>,
) -> Seq<FixedDesc>
    decreases entries.len(),
{
    if entries.len() == 0 {
        Seq::empty()
    } else {
        let front = accepted_codes(layout, levels, infos, splits, lens, entries.drop_last());
        match fixed_desc(layout, levels, infos, splits, lens, entries.last(), front) {
            Some(d) => front.push(d),
            None => front,
        }
    }
}

/// All keys of a fixed code, the commit key last.
pub open spec fn all_keys(c: FixedSimpleCode) -> Seq<u8> {
    match c.commit_key {
        Some(k) => c.keys@.push(k),
        None => c.keys@,
    }
}

/// What each fixed code adds to a cell of the totals.
pub open spec fn fixed_terms(infos: Seq<CharInfo>, codes: Seq<FixedSimpleCode>, cell: int) -> Seq<int> {
    Seq::new(
        codes.len(),
        |j: int| infos[codes[j].ci as int].frequency as int * cell_unit(all_keys(codes[j]), cell),
    )
}

/// The character `ch` of a list.
pub(crate) fn find_char(splits: &Vec<(char, Vec<String>, u64)>, ch: char) -> (r: Option<usize>)
    ensures
        match r {
            Some(ci) => char_index(splits@, ch) == Some(ci as int) && ci < splits@.len(),
            None => char_index(splits@, ch) is None,
        },
{
    let mut i: usize = 0;
    assert(splits@.take(0) =~= Seq::<(char, Vec<String>, u64)>::empty());
    while i < splits.len()
        invariant
            i <= splits@.len(),
            char_index(splits@.take(i as int), ch) is None,
        decreases splits@.len() - i,
    {
        assert(splits@.take(i + 1).drop_last() =~= splits@.take(i as int));
        assert(splits@.take(i + 1).last() == splits@[i as int]);
        if splits[i].0 == ch {
            proof {
                char_index_stays(splits@, i + 1, ch);
            }
            return Some(i);
        }
        i = i + 1;
    }
    assert(splits@.take(splits@.len() as int) =~= splits@);
    None
}

/// The first character of a list is found however the list goes on.
proof fn char_index_stays(splits: Seq<(char, Vec<String>, u64)>, k: int, ch: char)
    requires
        0 <= k <= splits.len(),
        char_index(splits.take(k), ch) is Some,
    ensures
        char_index(splits, ch) == char_index(splits.take(k), ch),
    decreases splits.len() - k,
{
    if k == splits.len() {
        assert(splits.take(k) =~= splits);
    } else {
        assert(splits.take(k + 1).drop_last() =~= splits.take(k));
        char_index_stays(splits, k + 1, ch);
    }
}

/// The keys that a code is written with.
pub(crate) fn read_keys(layout: &KeyLayout, code: &String) -> (r: Option<Vec<u8>>)
    ensures
        match r {
            Some(keys) => written_keys(layout, code@) == Some(keys@) && are_keys(keys@),
            None => written_keys(layout, code@) is None,
        },
{
    let chars = chars_of(code.as_str());
    let mut keys: Vec<u8> = Vec::new();
    let mut i: usize = 0;
    assert(chars@.take(0) =~= Seq::<char>::empty());
    while i < chars.len()
        invariant
            i <= chars@.len(),
            chars@ == code@,
            written_keys(layout, chars@.take(i as int)) == Some(keys@),
            are_keys(keys@),
        decreases chars@.len() - i,
    {
        assert(chars@.take(i + 1).drop_last() =~= chars@.take(i as int));
        assert(chars@.take(i + 1).last() == chars@[i as int]);
        match layout.char_to_key_index(chars[i]) {
            Some(k) => {
                if k >= EQUIV_TABLE_SIZE {
                    proof {
                        unwritten_stays(layout, chars@, i + 1);
                    }
                    return None;
                }
                keys.push(k as u8);
            },
            None => {
                proof {
                    unwritten_stays(layout, chars@, i + 1);
                }
                return None;
            },
        }
        i = i + 1;
    }
    assert(chars@.take(chars@.len() as int) =~= chars@);
    Some(keys)
}

/// A code that is not written with keys is not, however it goes on.
proof fn unwritten_stays(layout: &KeyLayout, code: Seq<char>, k: int)
    requires
        0 <= k <= code.len(),
        written_keys(layout, code.take(k)) is None,
    ensures
        written_keys(layout, code) is None,
    decreases code.len() - k,
{
    if k == code.len() {
        assert(code.take(k) =~= code);
    } else {
        assert(code.take(k + 1).drop_last() =~= code.take(k));
        unwritten_stays(layout, code, k + 1);
    }
}

/// Whether a key is among `keys`.
pub(crate) fn has_key(keys: &Vec<u8>, k: u8) -> (r: bool)
    ensures
        r == keys@.contains(k),
{
    let mut i: usize = 0;
    while i < keys.len()
        invariant
            i <= keys@.len(),
            forall|j: int| 0 <= j < i ==> #[trigger] keys@[j] != k,
        decreases keys@.len() - i,
    {
        if keys[i] == k {
            assert(keys@[i as int] == k);
            return true;
        }
        i = i + 1;
    }
    false
}

/// The first level that a fixed code counts for.
pub(crate) fn find_level(levels: &Vec<SimpleCodeLevel>, lens: &Vec<usize>, keys: &Vec<u8>) -> (r: Option<usize>)
    requires
        lens@.len() == levels@.len(),
        keys@.len() > 0,
    ensures
        match r {
            Some(li) => level_for(levels@, lens@, keys@) == Some(li as int) && li < levels@.len()
                && level_takes(levels@[li as int], lens@[li as int] as nat, keys@),
            None => level_for(levels@, lens@, keys@) is None,
        },
{
    let mut li: usize = 0;
    assert(levels@.take(0) =~= Seq::<SimpleCodeLevel>::empty());
    while li < levels.len()
        invariant
            li <= levels@.len() == lens@.len(),
            keys@.len() > 0,
            level_for(levels@.take(li as int), lens@, keys@) is None,
        decreases levels@.len() - li,
    {
        assert(levels@.take(li + 1).drop_last() =~= levels@.take(li as int));
        assert(levels@.take(li + 1).last() == levels@[li as int]);
        let level = &levels[li];
        let takes = if level.has_commit() {
            keys.len() - 1 == lens[li] && has_key(&level.commit_keys, keys[keys.len() - 1])
        } else {
            keys.len() == lens[li]
        };
        if takes {
            proof {
                level_for_stays(levels@, lens@, keys@, li + 1);
            }
            return Some(li);
        }
        li = li + 1;
    }
    assert(levels@.take(levels@.len() as int) =~= levels@);
    None
}

/// The first level that takes a code is found however the list of levels goes on.
proof fn level_for_stays(levels: Seq<SimpleCodeLevel>, lens: Seq<usize>, keys: Seq<u8>, k: int)
    requires
        0 <= k <= levels.len(),
        level_for(levels.take(k), lens, keys) is Some,
    ensures
        level_for(levels, lens, keys) == level_for(levels.take(k), lens, keys),
    decreases levels.len() - k,
{
    if k == levels.len() {
        assert(levels.take(k) =~= levels);
    } else {
        assert(levels.take(k + 1).drop_last() =~= levels.take(k));
        level_for_stays(levels, lens, keys, k + 1);
    }
}

/// The first keys of a code.
fn first_keys(keys: &Vec<u8>, n: usize) -> (r: Vec<u8>)
    requires
        n <= keys@.len(),
    ensures
        r@ == keys@.take(n as int),
{
    let mut r: Vec<u8> = Vec::new();
    let mut i: usize = 0;
    while i < n
        invariant
            i <= n <= keys@.len(),
            r@ == keys@.take(i as int),
        decreases n - i,
    {
        r.push(keys[i]);
        assert(keys@.take(i as int).push(keys@[i as int]) =~= keys@.take(i + 1));
        i = i + 1;
    }
    r
}

/// Whether a fixed code counts, and as what.
fn examine(
    ctx: &OptContext,
    splits: &Vec<(char, Vec<String>, u64)>,
    lens: &Vec<usize>,
    entry: &(char, String),
    assigned: &Vec<bool>,
    Ghost(accepted): Ghost<Seq<FixedDesc>>,
) -> (r: Option<FixedSimpleCode>)
    requires
        ctx.wf_full(),
        splits@.len() == ctx.n(),
        lens@.len() == ctx.n_levels(),
        assigned@.len() == ctx.n(),
        forall|ci: int| 0 <= ci < ctx.n() ==> (#[trigger] assigned@[ci] <==> taken(accepted, ci)),
    ensures
        match r {
            Some(c) => {
                &&& fixed_desc(
                    ctx.layout,
                    ctx.simple_config.levels@,
                    ctx.char_infos@,
                    splits@,
                    lens@,
                    *entry,
                    accepted,
                ) == Some(desc_of(c))
                &&& c.ci < ctx.n()
                &&& !assigned@[c.ci as int]
                &&& simple_keys_ok(all_keys(c))
                &&& are_keys(c.keys@)
                &&& 0 < c.keys@.len() < ctx.parts(c.ci as int).len()
                &&& c.li matches Some(li) ==> li < ctx.n_levels() && c.keys@.len() == lens@[li as int]
            },
            None => fixed_desc(
                    ctx.layout,
                    ctx.simple_config.levels@,
                    ctx.char_infos@,
                    splits@,
                    lens@,
                    *entry,
                    accepted,
                ) is None,
        },
{
    let ci = match find_char(splits, entry.0) {
        Some(ci) => ci,
        None => {
            return None;
        },
    };
    if assigned[ci] {
        return None;
    }
    let keys = match read_keys(&ctx.layout, &entry.1) {
        Some(keys) => keys,
        None => {
            return None;
        },
    };
    if keys.len() == 0 {
        return None;
    }
    let li = find_level(&ctx.simple_config.levels, lens, &keys);
    let commit_key = match li {
        Some(l) => if ctx.simple_config.levels[l].has_commit() {
            Some(keys[keys.len() - 1])
        } else {
            None
        },
        None => None,
    };
    let core_len = if commit_key.is_some() {
        keys.len() - 1
    } else {
        keys.len()
    };
    proof {
        let info = ctx.char_infos@[ci as int];
        assert(keys@.take(keys@.len() as int) =~= keys@);
        assert(keys@.take(keys@.len() - 1) =~= keys@.drop_last());
    }
    if core_len == 0 || core_len >= ctx.char_infos[ci].parts.len() {
        return None;
    }
    let core = first_keys(&keys, core_len);
    let r = FixedSimpleCode { ci, li, keys: core, commit_key, code_str: entry.1.clone() };
    proof {
        assert(are_keys(core@)) by {
            assert forall|i: int| 0 <= i < core@.len() implies (#[trigger] core@[i]) < EQUIV_TABLE_SIZE by {
                let x = keys@[i];
            }
        }
        assert(are_keys(all_keys(r))) by {
            assert forall|i: int| 0 <= i < all_keys(r).len() implies (#[trigger] all_keys(r)[i])
                < EQUIV_TABLE_SIZE by {
                if i < core@.len() {
                    let x = core@[i];
                } else {
                    let x = keys@[keys@.len() - 1];
                }
            }
        }
    }
    Some(r)
}

/// The fixed codes that count, the marks of their characters, and the totals over them.
pub struct FixedCodes {
    pub codes: Vec<FixedSimpleCode>,
    pub assigned: Vec<bool>,
    pub totals: Totals,
}

impl FixedCodes {
    /// The codes are those that count, and marks and totals are theirs.
    pub open spec fn right(
        &self,
        ctx: &OptContext,
        splits: Seq<(char, Vec<String>, u64)>,
        lens: Seq<usize>,
        entries: Seq<(char, String)>,
    ) -> bool {
        let accepted = accepted_codes(
            ctx.layout,
            ctx.simple_config.levels@,
            ctx.char_infos@,
            splits,
            lens,
            entries,
        );
        &&& self.codes@.len() == accepted.len()
        &&& self.codes@.len() <= entries.len()
        &&& forall|j: int|
            0 <= j < accepted.len() ==> #[trigger] desc_of(self.codes@[j]) == accepted[j]
        &&& forall|j: int|
            0 <= j < self.codes@.len() ==> {
                let c = #[trigger] self.codes@[j];
                &&& c.ci < ctx.n()
                &&& simple_keys_ok(all_keys(c))
                &&& are_keys(c.keys@)
                &&& 0 < c.keys@.len() < ctx.parts(c.ci as int).len()
                &&& c.li matches Some(li) ==> li < ctx.n_levels() && c.keys@.len() == lens[li as int]
            }
        &&& self.assigned@.len() == ctx.n()
        &&& forall|ci: int|
            0 <= ci < ctx.n() ==> (#[trigger] self.assigned@[ci] <==> taken(accepted, ci))
        &&& self.totals.wf()
        &&& forall|cell: int|
            0 <= cell < CELLS ==> #[trigger] self.totals.cells@[cell] == sum(
                fixed_terms(ctx.char_infos@, self.codes@, cell),
            )
        &&& forall|cell: int|
            0 <= cell < CELLS ==> #[trigger] self.totals.cells@[cell] <= 7 * ctx.total_frequency
    }
}

/// Goes through the fixed codes in the order in which they are given.
#[verifier::rlimit(40)]
pub fn sift_fixed_codes(
    ctx: &OptContext,
    splits: &Vec<(char, Vec<String>, u64)>,
    lens: &Vec<usize>,
    entries: &Vec<(char, String)>,
) -> (r: FixedCodes)
    requires
        ctx.wf_full(),
        splits@.len() == ctx.n(),
        lens@.len() == ctx.n_levels(),
    ensures
        r.right(ctx, splits@, lens@, entries@),
{
    let n = ctx.char_infos.len();
    let mut assigned: Vec<bool> = Vec::new();
    while assigned.len() < n
        invariant
            assigned@.len() <= n,
            forall|ci: int| 0 <= ci < assigned@.len() ==> !#[trigger] assigned@[ci],
        decreases n - assigned@.len(),
    {
        assigned.push(false);
    }
    let mut r = FixedCodes { codes: Vec::new(), assigned, totals: Totals::zero() };
    let ghost mut rows: Seq<Seq<u8>> = Seq::new(ctx.n(), |ci: int| Seq::empty());
    let mut k: usize = 0;
    proof {
        assert(entries@.take(0) =~= Seq::<(char, String)>::empty());
        assert forall|cell: int| 0 <= cell < CELLS implies #[trigger] r.totals.cells@[cell] == sum(
            fixed_terms(ctx.char_infos@, r.codes@, cell),
        ) && r.totals.cells@[cell] == cell_total(ctx, r.assigned@, rows, cell) by {
            assert(fixed_terms(ctx.char_infos@, r.codes@, cell) =~= Seq::<int>::empty());
            sum_zero(cell_terms(ctx, r.assigned@, rows, cell));
        }
    }
    while k < entries.len()
        invariant
            k <= entries@.len(),
            ctx.wf_full(),
            splits@.len() == ctx.n(),
            lens@.len() == ctx.n_levels(),
            r.right(ctx, splits@, lens@, entries@.take(k as int)),
            rows.len() == ctx.n(),
            forall|ci: int|
                0 <= ci < ctx.n() && #[trigger] r.assigned@[ci] ==> rows[ci].len() <= 7,
            forall|cell: int|
                0 <= cell < CELLS ==> #[trigger] r.totals.cells@[cell] == cell_total(
                    ctx,
                    r.assigned@,
                    rows,
                    cell,
                ),
        decreases entries@.len() - k,
    {
        let ghost accepted = accepted_codes(ctx.layout, ctx.simple_config.levels@, ctx.char_infos@, splits@, lens@, entries@.take(k as int));
        let ghost before = r;
        let ghost rows0 = rows;
        proof {
            assert(entries@.take(k + 1).drop_last() =~= entries@.take(k as int));
            assert(entries@.take(k + 1).last() == entries@[k as int]);
        }
        match examine(ctx, splits, lens, &entries[k], &r.assigned, Ghost(accepted)) {
            Some(c) => {
                let ci = c.ci;
                let mut keys = first_keys(&c.keys, c.keys.len());
                assert(keys@ =~= c.keys@);
                match c.commit_key {
                    Some(key) => keys.push(key),
                    None => {},
                }
                assert(keys@ =~= all_keys(c));
                proof {
                    assert forall|i: int| 0 <= i < CELLS implies #[trigger] r.totals.cells@[i] + cell_limit()
                        <= u128::MAX by {
                        cell_total_bound(ctx, r.assigned@, rows, i);
                    }
                }
                r.totals.add_char(ctx.char_infos[ci].frequency, &keys);
                r.assigned.set(ci, true);
                r.codes.push(c);
                proof {
                    rows = rows0.update(ci as int, keys@);
                    assert forall|cell: int| 0 <= cell < CELLS implies #[trigger] r.totals.cells@[cell]
                        == sum(fixed_terms(ctx.char_infos@, r.codes@, cell)) && r.totals.cells@[cell] == cell_total(
                        ctx,
                        r.assigned@,
                        rows,
                        cell,
                    ) && r.totals.cells@[cell] <= 7 * ctx.total_frequency by {
                        let x = before.totals.cells@[cell];
                        assert(fixed_terms(ctx.char_infos@, r.codes@, cell).drop_last() =~= fixed_terms(
                            ctx.char_infos@,
                            before.codes@,
                            cell,
                        ));
                        cell_total_update(
                            ctx,
                            before.assigned@,
                            rows0,
                            ci as int,
                            true,
                            keys@,
                            cell,
                        );
                        assert forall|cj: int| 0 <= cj < ctx.n() && #[trigger] r.assigned@[cj] implies rows[cj].len()
                            <= 7 by {
                            if cj != ci {
                                assert(before.assigned@[cj]);
                            }
                        }
                        cell_total_bound(ctx, r.assigned@, rows, cell);
                    }
                    let accepted2 = accepted.push(desc_of(c));
                    assert(accepted_codes(ctx.layout, ctx.simple_config.levels@, ctx.char_infos@, splits@, lens@, entries@.take(k + 1)) == accepted2);
                    assert forall|j: int| 0 <= j < accepted2.len() implies #[trigger] desc_of(r.codes@[j])
                        == accepted2[j] by {
                        if j < accepted.len() {
                            assert(desc_of(before.codes@[j]) == accepted[j]);
                        }
                    }
                    assert forall|cj: int| 0 <= cj < ctx.n() implies (#[trigger] r.assigned@[cj] <==> taken(
                        accepted2,
                        cj,
                    )) by {
                        let x = before.assigned@[cj];
                        if taken(accepted, cj) {
                            let j = choose|j: int|
                                0 <= j < accepted.len() && (#[trigger] accepted[j]).ci == cj;
                            assert(accepted2[j].ci == cj);
                        }
                        if cj == ci {
                            assert(accepted2[accepted.len() as int].ci == cj);
                        }
                        if taken(accepted2, cj) {
                            let j = choose|j: int|
                                0 <= j < accepted2.len() && (#[trigger] accepted2[j]).ci == cj;
                            if j < accepted.len() {
                                assert(accepted[j].ci == cj);
                            }
                        }
                    }
                    assert forall|j: int| 0 <= j < r.codes@.len() implies {
                        let c = #[trigger] r.codes@[j];
                        &&& c.ci < ctx.n()
                        &&& simple_keys_ok(all_keys(c))
                        &&& are_keys(c.keys@)
                        &&& 0 < c.keys@.len() < ctx.parts(c.ci as int).len()
                        &&& c.li matches Some(li) ==> li < ctx.n_levels() && c.keys@.len()
                            == lens@[li as int]
                    } by {
                        if j < before.codes@.len() {
                            let x = before.codes@[j];
                        }
                    }
                }
            },
            None => {},
        }
        k = k + 1;
    }
    assert(entries@.take(entries@.len() as int) =~= entries@);
    r
}

/// The commit key under which a fixed code is counted.
pub open spec fn occupied_key(c: FixedSimpleCode) -> u8 {
    match c.commit_key {
        Some(k) => k,
        None => OCC_CORE_KEY,
    }
}

/// Whether a fixed code takes up a code of a level.
pub open spec fn occupies(c: FixedSimpleCode, li: int, code: u32) -> bool {
    c.li == Some(li as usize) && encode(c.keys@) == code
}

/// One for every fixed code that takes up a code of a level with a commit key.
pub open spec fn occupants(codes: Seq<FixedSimpleCode>, li: int, code: u32, key: u8) -> Seq<int> {
    Seq::new(
        codes.len(),
        |j: int| if occupies(codes[j], li, code) && occupied_key(codes[j]) == key { 1int } else { 0 },
    )
}

/// One for every fixed code that takes up a code of a level.
pub open spec fn all_occupants(codes: Seq<FixedSimpleCode>, li: int, code: u32) -> Seq<int> {
    Seq::new(codes.len(), |j: int| if occupies(codes[j], li, code) { 1int } else { 0 })
}

/// The counts of a list of entries.
pub open spec fn entry_counts(entries: Seq<(u8, u32)>) -> Seq<int> {
    Seq::new(entries.len(), |i: int| entries[i].1 as int)
}

/// Counts one more under a key.
fn bump(entries: &mut Vec<(u8, u32)>, key: u8)
    requires
        sum(entry_counts(old(entries)@)) < u32::MAX,
    ensures
        forall|k: u8| #[trigger]
            entry_count(final(entries)@, k) == entry_count(old(entries)@, k) + if k == key {
                1int
            } else {
                0
            },
        sum(entry_counts(final(entries)@)) == sum(entry_counts(old(entries)@)) + 1,
{
    let ghost before = entries@;
    let mut i: usize = 0;
    while i < entries.len() && entries[i].0 != key
        invariant
            i <= entries@.len(),
            entries@ == before,
            forall|j: int| 0 <= j < i ==> (#[trigger] entries@[j]).0 != key,
        decreases entries@.len() - i,
    {
        i = i + 1;
    }
    if i < entries.len() {
        let (k0, count) = entries[i];
        proof {
            assert forall|j: int| 0 <= j < entry_counts(before).len() implies entry_counts(before)[j] >= 0 by {}
            crate::sums::sum_at_least(entry_counts(before), i as int);
        }
        entries.set(i, (k0, count + 1));
        proof {
            crate::sums::sum_update(entry_counts(before), i as int, count + 1);
            assert(entry_counts(entries@) =~= entry_counts(before).update(i as int, count + 1));
            assert forall|k: u8| #[trigger] entry_count(entries@, k) == entry_count(before, k) + if k == key {
                1int
            } else {
                0
            } by {
                count_updated(before, i as int, k);
            }
        }
    } else {
        entries.push((key, 1));
        proof {
            assert(entry_counts(entries@).drop_last() =~= entry_counts(before));
            assert forall|k: u8| #[trigger] entry_count(entries@, k) == entry_count(before, k) + if k == key {
                1int
            } else {
                0
            } by {
                count_pushed(before, key, k);
            }
        }
    }
}

/// What a key's count is after the first entry for some key has been raised.
proof fn count_updated(entries: Seq<(u8, u32)>, i: int, k: u8)
    requires
        0 <= i < entries.len(),
        entries[i].1 < u32::MAX,
        forall|j: int| 0 <= j < i ==> (#[trigger] entries[j]).0 != entries[i].0,
    ensures
        entry_count(entries.update(i, (entries[i].0, (entries[i].1 + 1) as u32)), k) == entry_count(
            entries,
            k,
        ) + if k == entries[i].0 {
            1int
        } else {
            0
        },
    decreases entries.len(),
{
    let after = entries.update(i, (entries[i].0, (entries[i].1 + 1) as u32));
    if i > 0 {
        let rest = entries.skip(1);
        assert(after.skip(1) =~= rest.update(i - 1, (rest[i - 1].0, (rest[i - 1].1 + 1) as u32)));
        assert forall|j: int| 0 <= j < i - 1 implies (#[trigger] rest[j]).0 != rest[i - 1].0 by {
            assert(entries[j + 1].0 != entries[i].0);
        }
        assert(entries[0].0 != entries[i].0);
        count_updated(rest, i - 1, k);
    } else {
        assert(after.skip(1) =~= entries.skip(1));
    }
}

/// What a key's count is after an entry for a new key has been added.
proof fn count_pushed(entries: Seq<(u8, u32)>, key: u8, k: u8)
    requires
        forall|j: int| 0 <= j < entries.len() ==> (#[trigger] entries[j]).0 != key,
    ensures
        entry_count(entries.push((key, 1)), k) == entry_count(entries, k) + if k == key {
            1int
        } else {
            0
        },
    decreases entries.len(),
{
    let after = entries.push((key, 1u32));
    if entries.len() > 0 {
        let rest = entries.skip(1);
        assert(after.skip(1) =~= rest.push((key, 1u32)));
        assert forall|j: int| 0 <= j < rest.len() implies (#[trigger] rest[j]).0 != key by {
            assert(entries[j + 1].0 != key);
        }
        assert(entries[0].0 != key);
        count_pushed(rest, key, k);
    } else {
        assert(after.skip(1) =~= Seq::<(u8, u32)>::empty());
        assert(entry_count(after.skip(1), k) == 0);
    }
}

/// The entries of a table for a code of a level.
pub open spec fn table_entries(table: Seq<FxHashMap<u32, Vec<(u8, u32)>>>, li: int, code: u32) -> Seq<
    (u8, u32),
> {
    if 0 <= li < table.len() && table[li]@.contains_key(code) {
        table[li]@[code]@
    } else {
        Seq::empty()
    }
}

/// Whether a table counts the fixed codes that take up each code of each level.
pub open spec fn counts_occupants(
    table: Seq<FxHashMap<u32, Vec<(u8, u32)>>>,
    codes: Seq<FixedSimpleCode>,
    n_levels: nat,
) -> bool {
    forall|li: int, code: u32|
        #![trigger table_entries(table, li, code)]
        0 <= li < n_levels ==> {
            &&& forall|k: u8| #[trigger]
                entry_count(table_entries(table, li, code), k) == sum(occupants(codes, li, code, k))
            &&& sum(entry_counts(table_entries(table, li, code))) == sum(
                all_occupants(codes, li, code),
            )
        }
}

/// The code that keys make.
fn encode_keys(keys: &Vec<u8>) -> (code: u32)
    requires
        are_keys(keys@),
        keys@.len() <= MAX_CODE_LEN,
    ensures
        code == encode(keys@),
{
    let mut code: u32 = 0;
    let mut i: usize = 0;
    proof {
        space_values();
        assert(keys@.take(0) =~= Seq::<u8>::empty());
    }
    while i < keys.len()
        invariant
            i <= keys@.len() <= MAX_CODE_LEN,
            are_keys(keys@),
            code == encode(keys@.take(i as int)),
        decreases keys@.len() - i,
    {
        proof {
            assert(keys@.take(i + 1).drop_last() =~= keys@.take(i as int));
            assert(keys@[i as int] < EQUIV_TABLE_SIZE);
            let front = keys@.take(i + 1);
            assert(are_keys(front)) by {
                assert forall|j: int| 0 <= j < front.len() implies (#[trigger] front[j]) < EQUIV_TABLE_SIZE by {
                    let x = keys@[j];
                }
            }
            encode_bound(front);
            space_monotone(front.len(), 6);
            space_values();
        }
        code = code * (CODE_BASE as u32) + (keys[i] as u32 + 1);
        i = i + 1;
    }
    assert(keys@.take(keys@.len() as int) =~= keys@);
    code
}

/// Where there are no fixed codes, the empty table counts them.
pub proof fn empty_occupancy(n_levels: nat)
    ensures
        counts_occupants(Seq::empty(), Seq::empty(), n_levels),
{
    let table = Seq::<FxHashMap<u32, Vec<(u8, u32)>>>::empty();
    let codes = Seq::<FixedSimpleCode>::empty();
    assert forall|li: int, code: u32|
        #![trigger table_entries(table, li, code)]
        0 <= li < n_levels implies {
        &&& forall|k: u8| #[trigger]
            entry_count(table_entries(table, li, code), k) == sum(occupants(codes, li, code, k))
        &&& sum(entry_counts(table_entries(table, li, code))) == sum(all_occupants(codes, li, code))
    } by {
        assert(entry_counts(table_entries(table, li, code)) =~= Seq::<int>::empty());
        assert(all_occupants(codes, li, code) =~= Seq::<int>::empty());
        assert forall|k: u8| #[trigger] entry_count(table_entries(table, li, code), k) == sum(
            occupants(codes, li, code, k),
        ) by {
            assert(occupants(codes, li, code, k) =~= Seq::<int>::empty());
        }
    }
}

/// Counts the fixed codes that take up each code of each level.
pub fn occupancy_table(codes: &Vec<FixedSimpleCode>, n_levels: usize) -> (table: Vec<
    FxHashMap<u32, Vec<(u8, u32)>>,
>)
    requires
        codes@.len() <= u32::MAX,
        forall|j: int|
            0 <= j < codes@.len() ==> are_keys((#[trigger] codes@[j]).keys@) && codes@[j].keys@.len()
                <= MAX_CODE_LEN && (codes@[j].li matches Some(li) ==> li < n_levels),
    ensures
        table@.len() == n_levels,
        counts_occupants(table@, codes@, n_levels as nat),
{
    let mut table: Vec<FxHashMap<u32, Vec<(u8, u32)>>> = Vec::new();
    while table.len() < n_levels
        invariant
            table@.len() <= n_levels,
            forall|li: int, c: u32| 0 <= li < table@.len() ==> !#[trigger] table@[li]@.contains_key(c),
        decreases n_levels - table@.len(),
    {
        table.push(FxHashMap::default());
    }
    let mut j: usize = 0;
    proof {
        assert(codes@.take(0) =~= Seq::<FixedSimpleCode>::empty());
        assert forall|li: int, code: u32|
            #![trigger table_entries(table@, li, code)]
            0 <= li < n_levels implies {
            &&& forall|k: u8| #[trigger]
                entry_count(table_entries(table@, li, code), k) == sum(
                    occupants(codes@.take(0), li, code, k),
                )
            &&& sum(entry_counts(table_entries(table@, li, code))) == sum(
                all_occupants(codes@.take(0), li, code),
            )
        } by {
            let x = table@[li]@.contains_key(code);
            assert(entry_counts(table_entries(table@, li, code)) =~= Seq::<int>::empty());
            assert(all_occupants(codes@.take(0), li, code) =~= Seq::<int>::empty());
            assert forall|k: u8| #[trigger] entry_count(table_entries(table@, li, code), k) == sum(
                occupants(codes@.take(0), li, code, k),
            ) by {
                assert(occupants(codes@.take(0), li, code, k) =~= Seq::<int>::empty());
            }
        }
    }
    while j < codes.len()
        invariant
            j <= codes@.len() <= u32::MAX,
            table@.len() == n_levels,
            forall|i: int|
                0 <= i < codes@.len() ==> are_keys((#[trigger] codes@[i]).keys@) && codes@[i].keys@.len()
                    <= MAX_CODE_LEN && (codes@[i].li matches Some(li) ==> li < n_levels),
            counts_occupants(table@, codes@.take(j as int), n_levels as nat),
        decreases codes@.len() - j,
    {
        let ghost table0 = table@;
        let ghost front = codes@.take(j as int);
        let ghost front2 = codes@.take(j + 1);
        let ghost c0 = codes@[j as int];
        proof {
            let x = codes@[j as int];
            assert(front2.drop_last() =~= front);
            assert forall|li: int, code: u32, k: u8|
                sum(#[trigger] occupants(front2, li, code, k)) == sum(occupants(front, li, code, k)) + if occupies(
                    c0,
                    li,
                    code,
                ) && occupied_key(c0) == k {
                    1int
                } else {
                    0
                } by {
                assert(occupants(front2, li, code, k).drop_last() =~= occupants(front, li, code, k));
            }
            assert forall|li: int, code: u32|
                sum(#[trigger] all_occupants(front2, li, code)) == sum(all_occupants(front, li, code)) + if occupies(
                    c0,
                    li,
                    code,
                ) {
                    1int
                } else {
                    0
                } by {
                assert(all_occupants(front2, li, code).drop_last() =~= all_occupants(front, li, code));
            }
        }
        match codes[j].li {
            Some(li) => {
                let code = encode_keys(&codes[j].keys);
                let key = match codes[j].commit_key {
                    Some(k) => k,
                    None => OCC_CORE_KEY,
                };
                let mut entries = match fx_get(&table[li], code) {
                    Some(e) => copy_of(e),
                    None => Vec::new(),
                };
                proof {
                    assert(entries@ =~= table_entries(table0, li as int, code));
                    let s = all_occupants(front, li as int, code);
                    sum_constant(front.len(), 1);
                    sum_le(s, Seq::new(front.len(), |i: int| 1int));
                }
                bump(&mut entries, key);
                let slot = &mut table[li];
                fx_insert(slot, code, entries);
                proof {
                    assert forall|l: int, c: u32|
                        #![trigger table_entries(table@, l, c)]
                        0 <= l < n_levels implies {
                        &&& forall|k: u8| #[trigger]
                            entry_count(table_entries(table@, l, c), k) == sum(
                                occupants(front2, l, c, k),
                            )
                        &&& sum(entry_counts(table_entries(table@, l, c))) == sum(
                            all_occupants(front2, l, c),
                        )
                    } by {
                        let old_entries = table_entries(table0, l, c);
                        let x = sum(all_occupants(front2, l, c));
                        if l == li && c == code {
                            assert(table_entries(table@, l, c) == entries@);
                            assert(occupies(c0, l, c));
                        } else {
                            assert(table_entries(table@, l, c) == old_entries);
                            assert(!occupies(c0, l, c));
                        }
                        assert forall|k: u8| #[trigger] entry_count(table_entries(table@, l, c), k) == sum(
                            occupants(front2, l, c, k),
                        ) by {
                            let y = entry_count(old_entries, k);
                            let z = sum(occupants(front2, l, c, k));
                        }
                    }
                }
            },
            None => {
                proof {
                    assert forall|l: int, c: u32|
                        #![trigger table_entries(table@, l, c)]
                        0 <= l < n_levels implies {
                        &&& forall|k: u8| #[trigger]
                            entry_count(table_entries(table@, l, c), k) == sum(
                                occupants(front2, l, c, k),
                            )
                        &&& sum(entry_counts(table_entries(table@, l, c))) == sum(
                            all_occupants(front2, l, c),
                        )
                    } by {
                        let old_entries = table_entries(table0, l, c);
                        let x = sum(all_occupants(front2, l, c));
                        assert forall|k: u8| #[trigger] entry_count(table_entries(table@, l, c), k) == sum(
                            occupants(front2, l, c, k),
                        ) by {
                            let z = sum(occupants(front2, l, c, k));
                        }
                    }
                }
            },
        }
        j = j + 1;
    }
    assert(codes@.take(codes@.len() as int) =~= codes@);
    table
}

} // verus!
