//! One simple-code level: the buckets of its codes, and who has a code in them.

use vstd::prelude::*;

use crate::bucket_store::{Bucket, BucketStore};
use crate::collisions::sum_over_members;
use crate::context::OptContext;
use crate::sums::{sum, sum_at_least, sum_le, sum_nonnegative, sum_push, sum_remove};
use crate::totals::{
    cell_limit, cell_total, cell_total_bound, cell_total_update, cell_unit, simple_keys_ok, Totals,
    CELLS,
};

verus! {

/// The candidates that have one simple code.
#[derive(Clone)]
pub struct SimpleBucket {
    /// The members, by character index.
    pub members: Vec<u32>,
    /// The sum of the members' frequencies.
    pub freq_sum: u64,
}

impl Default for SimpleBucket {
    fn default() -> (b: Self)
        ensures
            b.members@ == Seq::<u32>::empty(),
            b.freq_sum == 0,
    {
        SimpleBucket { members: Vec::new(), freq_sum: 0 }
    }
}

impl Bucket for SimpleBucket {
    open spec fn spec_is_empty(&self) -> bool {
        self.members@.len() == 0
    }

    fn is_empty(&self) -> (r: bool) {
        self.members.len() == 0
    }

    proof fn default_is_empty(b: Self) {
    }
}

/// The state of one simple-code level.
pub struct SimpleLevelTracker {
    /// The buckets of the level's codes.
    pub buckets: BucketStore<SimpleBucket>,
    /// The code of each candidate that contends at this level.
    pub current_simple_code: Vec<Option<u32>>,
    /// Whether each character has its simple code at this level.
    pub selected: Vec<bool>,
    /// The keys of each character that has, its commit key included.
    pub sel_keys: Vec<Vec<u8>>,
    /// Totals over the characters that have.
    pub totals: Totals,
}

/// What a level holds.
#[verifier::ext_equal]
pub struct LevelView {
    /// The members of each code's bucket.
    pub members: Map<u32, Seq<u32>>,
    /// The code of each candidate that contends.
    pub codes: Seq<Option<u32>>,
    /// Whether each character has its simple code here.
    pub selected: Seq<bool>,
    /// The keys of each character's simple code.
    pub keys: Seq<Seq<u8>>,
}

/// The members of every bucket.
pub open spec fn members_view(m: Map<u32, SimpleBucket>) -> Map<u32, Seq<u32>> {
    Map::new(|c: u32| m.contains_key(c), |c: u32| m[c].members@)
}

/// The keys of every character.
pub open spec fn keys_view(keys: Seq<Vec<u8>>) -> Seq<Seq<u8>> {
    Seq::new(keys.len(), |ci: int| keys[ci]@)
}

/// The members of a code's bucket, none where there is no bucket.
pub open spec fn members_at(members: Map<u32, Seq<u32>>, code: u32) -> Seq<u32> {
    if members.contains_key(code) {
        members[code]
    } else {
        Seq::empty()
    }
}

/// The frequencies of the members of a bucket.
pub open spec fn freqs_of(ctx: &OptContext, members: Seq<u32>) -> Seq<int> {
    Seq::new(members.len(), |j: int| ctx.freq(members[j] as int))
}

/// A list of distinct characters.
pub open spec fn distinct_chars(ctx: &OptContext, members: Seq<u32>) -> bool {
    &&& members.no_duplicates()
    &&& forall|j: int| 0 <= j < members.len() ==> (#[trigger] members[j]) < ctx.n()
}

/// The frequencies of distinct characters add up to at most all frequencies, and to the same in
/// any order.
pub proof fn freqs_of_distinct(ctx: &OptContext, members: Seq<u32>)
    requires
        ctx.wf_full(),
        distinct_chars(ctx, members),
    ensures
        0 <= sum(freqs_of(ctx, members)) <= ctx.total_frequency,
        sum(freqs_of(ctx, members)) == sum(
            Seq::new(ctx.n(), |ci: int| if members.contains(ci as u32) { ctx.freq(ci) } else { 0 }),
        ),
{
    let g = Seq::new(
        ctx.n(),
        |ci: int| if members.contains(ci as u32) { ctx.freq(ci) } else { 0 },
    );
    sum_over_members(members, g);
    assert(Seq::new(members.len(), |j: int| g[members[j] as int]) =~= freqs_of(ctx, members));
    sum_le(g, ctx.freqs());
    sum_nonnegative(g);
}

/// Lists of the same distinct characters have the same frequency.
pub proof fn freqs_of_same(ctx: &OptContext, a: Seq<u32>, b: Seq<u32>)
    requires
        ctx.wf_full(),
        distinct_chars(ctx, a),
        distinct_chars(ctx, b),
        forall|x: u32| #[trigger] a.contains(x) <==> b.contains(x),
    ensures
        sum(freqs_of(ctx, a)) == sum(freqs_of(ctx, b)),
{
    freqs_of_distinct(ctx, a);
    freqs_of_distinct(ctx, b);
    assert(Seq::new(ctx.n(), |ci: int| if a.contains(ci as u32) { ctx.freq(ci) } else { 0 })
        =~= Seq::new(ctx.n(), |ci: int| if b.contains(ci as u32) { ctx.freq(ci) } else { 0 }));
}

impl View for SimpleLevelTracker {
    type V = LevelView;

    open spec fn view(&self) -> LevelView {
        LevelView {
            members: members_view(self.buckets@),
            codes: self.current_simple_code@,
            selected: self.selected@,
            keys: keys_view(self.sel_keys@),
        }
    }
}

impl SimpleLevelTracker {
    /// Buckets hold distinct characters and know their frequency, none is empty, and every
    /// character has its entries.
    pub open spec fn shell(&self, ctx: &OptContext, capacity: usize) -> bool {
        &&& self.buckets.wf()
        &&& self.buckets.pristine()
        &&& self.buckets.spec_capacity() == capacity
        &&& forall|c: u32| #[trigger]
            self.buckets@.contains_key(c) ==> {
                let b = self.buckets@[c];
                &&& b.members@.len() > 0
                &&& distinct_chars(ctx, b.members@)
                &&& b.freq_sum == sum(freqs_of(ctx, b.members@))
            }
        &&& self.current_simple_code@.len() == ctx.n()
        &&& self.selected@.len() == ctx.n()
        &&& self.sel_keys@.len() == ctx.n()
    }

    /// Beside that, the totals are those of the selected characters, and their keys are keys.
    pub open spec fn sane(&self, ctx: &OptContext, capacity: usize) -> bool {
        &&& self.shell(ctx, capacity)
        &&& forall|ci: int|
            0 <= ci < ctx.n() && #[trigger] self.selected@[ci] ==> simple_keys_ok(self.sel_keys@[ci]@)
        &&& totals_fit(ctx, self.totals, self@)
    }

    /// An empty level.
    pub fn new(ctx: &OptContext, capacity: usize) -> (level: SimpleLevelTracker)
        requires
            ctx.wf_full(),
        ensures
            level.sane(ctx, capacity),
            level@.members == Map::<u32, Seq<u32>>::empty(),
            forall|ci: int| 0 <= ci < ctx.n() ==> #[trigger] level@.codes[ci] is None,
            forall|ci: int| 0 <= ci < ctx.n() ==> !#[trigger] level@.selected[ci],
    {
        let n = ctx.char_infos.len();
        let mut current_simple_code: Vec<Option<u32>> = Vec::new();
        let mut selected: Vec<bool> = Vec::new();
        let mut sel_keys: Vec<Vec<u8>> = Vec::new();
        let mut ci: usize = 0;
        while ci < n
            invariant
                ci <= n,
                current_simple_code@.len() == ci,
                selected@.len() == ci,
                sel_keys@.len() == ci,
                forall|i: int| 0 <= i < ci ==> #[trigger] current_simple_code@[i] is None,
                forall|i: int| 0 <= i < ci ==> !#[trigger] selected@[i],
            decreases n - ci,
        {
            current_simple_code.push(None);
            selected.push(false);
            sel_keys.push(Vec::new());
            ci = ci + 1;
        }
        let level = SimpleLevelTracker {
            buckets: BucketStore::new(capacity),
            current_simple_code,
            selected,
            sel_keys,
            totals: Totals::zero(),
        };
        assert(level@.members =~= Map::<u32, Seq<u32>>::empty());
        assert forall|cell: int| 0 <= cell < CELLS implies #[trigger] level.totals.cells@[cell]
            == cell_total(ctx, level@.selected, level@.keys, cell) by {
            crate::sums::sum_zero(
                crate::totals::cell_terms(ctx, level@.selected, level@.keys, cell),
            );
        }
        level
    }

    /// Adds `ci` to the bucket of `code`.
    pub(crate) fn push_member(&mut self, ctx: &OptContext, code: u32, ci: usize, capacity: usize)
        requires
            ctx.wf_full(),
            old(self).sane(ctx, capacity),
            code < capacity,
            ci < ctx.n(),
            !members_at(old(self)@.members, code).contains(ci as u32),
        ensures
            final(self).sane(ctx, capacity),
            final(self)@ == (LevelView {
                members: old(self)@.members.insert(
                    code,
                    members_at(old(self)@.members, code).push(ci as u32),
                ),
                ..old(self)@
            }),
    {
        let freq = ctx.char_infos[ci].frequency;
        let ghost v0 = self.buckets@;
        let b = self.buckets.get_mut_or_insert(code);
        let ghost m0 = b.members@;
        let ghost m1 = m0.push(ci as u32);
        proof {
            assert(m0 =~= members_at(members_view(v0), code));
            assert forall|i: int, j: int| 0 <= i < m1.len() && 0 <= j < m1.len() && i != j implies m1[i]
                != m1[j] by {
                if i == m0.len() {
                    assert(m0.contains(m1[j]));
                } else if j == m0.len() {
                    assert(m0.contains(m1[i]));
                }
            }
            assert(freqs_of(ctx, m1) =~= freqs_of(ctx, m0).push(ctx.freq(ci as int)));
            sum_push(freqs_of(ctx, m0), ctx.freq(ci as int));
            assert(b.freq_sum == sum(freqs_of(ctx, m0)));
            freqs_of_distinct(ctx, m1);
        }
        b.members.push(ci as u32);
        b.freq_sum = b.freq_sum + freq;
        let ghost b2 = *b;
        assert(self.buckets@ == v0.insert(code, b2));
        assert(self@.members =~= old(self)@.members.insert(code, m1));
        assert(self@.keys =~= old(self)@.keys);
    }

    /// Takes `ci` out of the bucket of `code`. The order of the others is not kept.
    pub(crate) fn drop_member(&mut self, ctx: &OptContext, code: u32, ci: usize, capacity: usize)
        requires
            ctx.wf_full(),
            old(self).sane(ctx, capacity),
            code < capacity,
            ci < ctx.n(),
            members_at(old(self)@.members, code).contains(ci as u32),
        ensures
            final(self).sane(ctx, capacity),
            members_at(final(self)@.members, code).len() == members_at(old(self)@.members, code).len()
                - 1,
            forall|x: u32|
                members_at(final(self)@.members, code).contains(x) <==> #[trigger] members_at(
                    old(self)@.members,
                    code,
                ).contains(x) && x != ci,
            final(self)@ == (LevelView {
                members: if members_at(final(self)@.members, code).len() > 0 {
                    old(self)@.members.insert(code, members_at(final(self)@.members, code))
                } else {
                    old(self)@.members.remove(code)
                },
                ..old(self)@
            }),
    {
        let freq = ctx.char_infos[ci].frequency;
        let ghost v0 = self.buckets@;
        assert(v0.contains_key(code));
        let b = self.buckets.get_mut_or_insert(code);
        let ghost m0 = b.members@;
        let count = b.members.len();
        let mut pos: usize = 0;
        while b.members[pos] != ci as u32
            invariant
                m0 == b.members@,
                pos < count == m0.len(),
                m0.contains(ci as u32),
                forall|j: int| 0 <= j < pos ==> m0[j] != ci as u32,
            decreases m0.len() - pos,
        {
            proof {
                let k = m0.index_of(ci as u32);
                assert(m0[k] == ci as u32);
            }
            pos = pos + 1;
        }
        let ghost m1 = m0.update(pos as int, m0.last()).drop_last();
        proof {
            assert forall|x: u32| #[trigger] m0.contains(x) && x != ci implies m1.contains(x) by {
                let k = m0.index_of(x);
                assert(m0[k] == x);
                if k == m0.len() - 1 {
                    assert(m1[pos as int] == x);
                } else {
                    assert(m1[k] == x);
                }
            }
            assert forall|j: int| 0 <= j < m1.len() implies m0.contains(#[trigger] m1[j]) && m1[j]
                != ci as u32 by {
                if j == pos {
                    assert(m1[j] == m0[m0.len() - 1]);
                } else {
                    assert(m1[j] == m0[j]);
                }
            }
            assert forall|i: int, j: int| 0 <= i < m1.len() && 0 <= j < m1.len() && i != j implies m1[i]
                != m1[j] by {
                let a = if i == pos {
                    m0.len() - 1
                } else {
                    i
                };
                let b = if j == pos {
                    m0.len() - 1
                } else {
                    j
                };
                assert(m1[i] == m0[a] && m1[j] == m0[b]);
            }
            assert forall|j: int| 0 <= j < m1.len() implies (#[trigger] m1[j]) < ctx.n() by {
                let k = m0.index_of(m1[j]);
                assert(m0[k] == m1[j]);
            }
            let fewer = m0.remove(pos as int);
            assert(freqs_of(ctx, fewer) =~= freqs_of(ctx, m0).remove(pos as int));
            sum_remove(freqs_of(ctx, m0), pos as int);
            assert forall|j: int| 0 <= j < fewer.len() implies m0.contains(#[trigger] fewer[j]) && fewer[j]
                != ci as u32 by {
                let k = if j < pos {
                    j
                } else {
                    j + 1
                };
                assert(fewer[j] == m0[k]);
            }
            assert forall|x: u32| #[trigger] m0.contains(x) && x != ci implies fewer.contains(x) by {
                let k = m0.index_of(x);
                assert(m0[k] == x);
                let j = if k < pos {
                    k
                } else {
                    k - 1
                };
                assert(fewer[j] == x);
            }
            assert forall|i: int, j: int|
                0 <= i < fewer.len() && 0 <= j < fewer.len() && i != j implies fewer[i] != fewer[j] by {
                let a = if i < pos {
                    i
                } else {
                    i + 1
                };
                let b = if j < pos {
                    j
                } else {
                    j + 1
                };
                assert(fewer[i] == m0[a] && fewer[j] == m0[b]);
            }
            assert forall|j: int| 0 <= j < fewer.len() implies (#[trigger] fewer[j]) < ctx.n() by {
                let k = m0.index_of(fewer[j]);
                assert(m0[k] == fewer[j]);
            }
            assert forall|x: u32| #[trigger] fewer.contains(x) <==> m1.contains(x) by {
                assert(fewer.contains(x) ==> m0.contains(x) && x != ci);
                assert(m1.contains(x) ==> m0.contains(x) && x != ci);
            }
            freqs_of_same(ctx, fewer, m1);
            sum_at_least(freqs_of(ctx, m0), pos as int);
        }
        b.members.swap_remove(pos);
        b.freq_sum = b.freq_sum - freq;
        let now_empty = b.members.len() == 0;
        let ghost b2 = *b;
        if now_empty {
            self.buckets.remove(code);
        }
        proof {
            assert(self.buckets@ == if m1.len() > 0 {
                v0.insert(code, b2)
            } else {
                v0.remove(code)
            });
            assert(self@.members =~= if m1.len() > 0 {
                old(self)@.members.insert(code, m1)
            } else {
                old(self)@.members.remove(code)
            });
            assert(members_at(self@.members, code) =~= m1);
            assert(members_at(old(self)@.members, code) == m0);
            assert(self@.keys =~= old(self)@.keys);
        }
    }

    /// Replaces the members of the bucket of `code`; without members the bucket goes.
    pub(crate) fn set_members(
        &mut self,
        ctx: &OptContext,
        code: u32,
        members: Vec<u32>,
        freq_sum: u64,
        capacity: usize,
    )
        requires
            ctx.wf_full(),
            old(self).sane(ctx, capacity),
            code < capacity,
            distinct_chars(ctx, members@),
            freq_sum == sum(freqs_of(ctx, members@)),
        ensures
            final(self).sane(ctx, capacity),
            final(self)@ == (LevelView {
                members: if members@.len() > 0 {
                    old(self)@.members.insert(code, members@)
                } else {
                    old(self)@.members.remove(code)
                },
                ..old(self)@
            }),
    {
        let ghost v0 = self.buckets@;
        if members.len() == 0 {
            self.buckets.remove(code);
            assert(self@.members =~= old(self)@.members.remove(code));
        } else {
            let ghost m = members@;
            let b = self.buckets.get_mut_or_insert(code);
            b.members = members;
            b.freq_sum = freq_sum;
            let ghost b2 = *b;
            assert(self.buckets@ == v0.insert(code, b2));
            assert(self@.members =~= old(self)@.members.insert(code, m));
        }
        assert(self@.keys =~= old(self)@.keys);
    }

    /// Gives `ci` its simple code at this level.
    pub(crate) fn mark_selected(&mut self, ctx: &OptContext, ci: usize, keys: Vec<u8>, capacity: usize)
        requires
            ctx.wf_full(),
            old(self).sane(ctx, capacity),
            ci < ctx.n(),
            !old(self)@.selected[ci as int],
            simple_keys_ok(keys@),
        ensures
            final(self).sane(ctx, capacity),
            final(self)@ == (LevelView {
                selected: old(self)@.selected.update(ci as int, true),
                keys: old(self)@.keys.update(ci as int, keys@),
                ..old(self)@
            }),
    {
        let freq = ctx.char_infos[ci].frequency;
        let ghost v = self@;
        proof {
            assert forall|cell: int| 0 <= cell < CELLS implies #[trigger] self.totals.cells@[cell]
                + cell_limit() <= u128::MAX by {
                cell_total_bound(ctx, v.selected, v.keys, cell);
            }
        }
        self.totals.add_char(freq, &keys);
        let ghost keys_seq = keys@;
        self.selected.set(ci, true);
        self.sel_keys.set(ci, keys);
        proof {
            assert(self@.keys =~= v.keys.update(ci as int, keys_seq));
            assert forall|cell: int| 0 <= cell < CELLS implies #[trigger] self.totals.cells@[cell]
                == cell_total(ctx, self@.selected, self@.keys, cell) by {
                cell_total_update(ctx, v.selected, v.keys, ci as int, true, keys_seq, cell);
            }
        }
    }

    /// Takes the simple code at this level off `ci`.
    pub(crate) fn mark_deselected(&mut self, ctx: &OptContext, ci: usize, capacity: usize)
        requires
            ctx.wf_full(),
            old(self).sane(ctx, capacity),
            ci < ctx.n(),
            old(self)@.selected[ci as int],
        ensures
            final(self).sane(ctx, capacity),
            final(self)@ == (LevelView {
                selected: old(self)@.selected.update(ci as int, false),
                ..old(self)@
            }),
    {
        let freq = ctx.char_infos[ci].frequency;
        let ghost v = self@;
        proof {
            assert forall|cell: int| 0 <= cell < CELLS implies #[trigger] self.totals.cells@[cell]
                >= freq * cell_unit(self.sel_keys@[ci as int]@, cell) by {
                cell_total_bound(ctx, v.selected, v.keys, cell);
                assert(v.selected[ci as int]);
            }
        }
        self.totals.remove_char(freq, &self.sel_keys[ci]);
        self.selected.set(ci, false);
        proof {
            assert(self@.keys =~= v.keys);
            assert(v.keys.update(ci as int, v.keys[ci as int]) =~= v.keys);
            assert forall|cell: int| 0 <= cell < CELLS implies #[trigger] self.totals.cells@[cell]
                == cell_total(ctx, self@.selected, self@.keys, cell) by {
                cell_total_update(
                    ctx,
                    v.selected,
                    v.keys,
                    ci as int,
                    false,
                    v.keys[ci as int],
                    cell,
                );
            }
        }
    }
}

/// Whether totals are those of the selected characters of a level.
pub open spec fn totals_fit(ctx: &OptContext, totals: Totals, level: LevelView) -> bool {
    &&& totals.wf()
    &&& forall|cell: int|
        0 <= cell < CELLS ==> #[trigger] totals.cells@[cell] == cell_total(
            ctx,
            level.selected,
            level.keys,
            cell,
        )
}

} // verus!
