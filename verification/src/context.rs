//! The data that every part of the optimiser reads: characters, groups, simple-code levels, and
//! what can be computed of them before the search starts.

use rustc_hash::FxHashMap;
use vstd::prelude::*;

use crate::codes::{
    are_keys, encode, encode_bound, mentions, part_key, part_keys, part_keys_are_keys, part_ok,
    parts_ok, space, space_monotone, space_values,
};
use crate::fx::fx_get;
use crate::sums::{sum, sum_nonnegative, sum_prefix};
use crate::types::{
    CharInfo, CharSimpleInfo, FixedSimpleCode, Hand, KeyLayout, RootGroup, SimpleAssignMode,
    SimpleCodeConfig, SimpleCodeLevel, EQUIV_TABLE_SIZE, GROUP_MARKER, MAX_CODE_LEN,
};

verus! {

/// The key under which the occupancy table counts codes that end in no commit key.
pub const OCC_CORE_KEY: u8 = 255;

/// Everything that stays fixed while assignments change.
pub struct OptContext {
    /// Whether simple codes are optimised at all.
    pub enable_simple_code: bool,
    /// The keyboard.
    pub layout: KeyLayout,
    /// The root groups.
    pub groups: Vec<RootGroup>,
    /// The characters that have a part of each group, ascending.
    pub group_to_chars: Vec<Vec<usize>>,
    /// The characters.
    pub char_infos: Vec<CharInfo>,
    /// The sum of all frequencies.
    pub total_frequency: u64,
    /// The largest number of parts of a character.
    pub max_parts: usize,
    /// The number of full codes, and one.
    pub code_space: usize,
    /// The powers of the code base.
    pub code_base_powers: Vec<usize>,
    /// The frequency that the parts of each group carry.
    pub group_freq_sum: Vec<u128>,
    /// The simple-code levels.
    pub simple_config: SimpleCodeConfig,
    /// What the characters' simple codes are made of.
    pub char_simple_infos: Vec<CharSimpleInfo>,
    /// The characters that a simple-code rule ties to each group, ascending.
    pub group_to_simple_affected: Vec<Vec<usize>>,
    /// The same, candidates only.
    pub group_to_simple_affected_candidate: Vec<Vec<usize>>,
    /// The candidates for simple codes during the search, most frequent first.
    pub simple_candidate_chars: Vec<usize>,
    /// Whether each character is such a candidate.
    pub simple_is_candidate: Vec<bool>,
    /// The candidates for simple codes in the final output, most frequent first.
    pub simple_output_candidate_chars: Vec<usize>,
    /// How many of the most frequent characters protect their full codes; 0 for all characters.
    pub simple_protect_top_n: usize,
    /// Whether each character is among them; empty where all are, and where simple codes are not
    /// optimised, as are the three tables below.
    pub simple_is_topn: Vec<bool>,
    /// The frequency of the candidates that the coverage ratio selected, fixed codes included.
    pub simple_active_frequency: u64,
    /// The strokes that a simple code saves, by character and level.
    pub simple_base_saving: Vec<Vec<i64>>,
    /// Whether a simple code is shorter than the full code, by character and level.
    pub simple_eligible: Vec<Vec<bool>>,
    /// The number of codes of each level, and one.
    pub simple_level_capacity: Vec<usize>,
    /// How buckets are ranked.
    pub simple_assign_mode: SimpleAssignMode,
    /// Whether each character has a fixed simple code.
    pub simple_fixed_assigned: Vec<bool>,
    /// How often fixed codes occupy each commit key of each code, by level; empty where no fixed
    /// codes are given.
    pub simple_fixed_occupancy: Vec<FxHashMap<u32, Vec<(u8, u32)>>>,
    /// The frequency of the characters with fixed codes.
    pub fixed_covered_freq: u64,
    /// The frequency that fixed codes put on each key.
    pub fixed_key_usage: Vec<u128>,
    /// The frequency-weighted strokes of all fixed codes.
    pub fixed_key_presses: u128,
    /// The fixed codes that were accepted.
    pub simple_fixed_codes: Vec<FixedSimpleCode>,
}

/// Whether `v` lists the numbers below `n` with property `p`, ascending.
pub open spec fn lists_ascending(v: Seq<usize>, n: nat, p: spec_fn(int) -> bool) -> bool {
    &&& forall|i: int, j: int| 0 <= i < j < v.len() ==> (#[trigger] v[i]) < (#[trigger] v[j])
    &&& forall|i: int| 0 <= i < v.len() ==> (#[trigger] v[i]) < n && p(v[i] as int)
    &&& forall|x: int| 0 <= x < n && #[trigger] p(x) ==> v.contains(x as usize)
}

impl OptContext {
    /// The number of characters.
    pub open spec fn n(&self) -> nat {
        self.char_infos@.len()
    }

    /// The number of groups.
    pub open spec fn num_groups(&self) -> nat {
        self.groups@.len()
    }

    /// The number of simple-code levels.
    pub open spec fn n_levels(&self) -> nat {
        self.simple_config.levels@.len()
    }

    /// The frequency of a character.
    pub open spec fn freq(&self, ci: int) -> int {
        self.char_infos@[ci].frequency as int
    }

    /// The frequencies of all characters.
    pub open spec fn freqs(&self) -> Seq<int> {
        Seq::new(self.n(), |ci: int| self.freq(ci))
    }

    /// The parts of a character's full code.
    pub open spec fn parts(&self, ci: int) -> Seq<u16> {
        self.char_infos@[ci].parts@
    }

    /// The keys of a character's full code.
    pub open spec fn full_keys(&self, assignment: Seq<u8>, ci: int) -> Seq<u8> {
        part_keys(self.parts(ci), assignment)
    }

    /// A character's full code.
    pub open spec fn full_code(&self, assignment: Seq<u8>, ci: int) -> u32 {
        encode(self.full_keys(assignment, ci)) as u32
    }

    /// The full codes of all characters.
    pub open spec fn full_codes(&self, assignment: Seq<u8>) -> Seq<u32> {
        Seq::new(self.n(), |ci: int| self.full_code(assignment, ci))
    }

    /// An assignment puts every group on a key.
    pub open spec fn assigns(&self, assignment: Seq<u8>) -> bool {
        &&& assignment.len() == self.num_groups()
        &&& are_keys(assignment)
    }

    /// What full codes need: parts that are keys or groups, codes that fit in a `u32`, characters
    /// that a `u32` can count, and the tables derived of them.
    pub open spec fn wf_full(&self) -> bool {
        &&& self.layout.wf()
        &&& GROUP_MARKER + self.num_groups() <= 65536
        &&& self.n() <= u32::MAX
        &&& self.max_parts <= MAX_CODE_LEN
        &&& self.code_space == space(self.max_parts as nat)
        &&& self.code_base_powers@.len() == self.max_parts + 1
        &&& forall|i: int|
            0 <= i <= self.max_parts ==> #[trigger] self.code_base_powers@[i] == space(i as nat)
        &&& forall|ci: int| #![trigger self.char_infos@[ci]]
            0 <= ci < self.n() ==> {
                &&& parts_ok(self.parts(ci), self.num_groups())
                &&& self.parts(ci).len() <= self.max_parts
            }
        &&& self.total_frequency == sum(self.freqs())
        &&& self.group_to_chars@.len() == self.num_groups()
        &&& forall|g: int|
            0 <= g < self.num_groups() ==> lists_ascending(
                (#[trigger] self.group_to_chars@[g])@,
                self.n(),
                |ci: int| mentions(self.parts(ci), g),
            )
        &&& self.group_freq_sum@.len() == self.num_groups()
        &&& forall|g: int|
            0 <= g < self.num_groups() ==> (#[trigger] self.group_freq_sum@[g]) == self.group_weight(g)
    }

    /// How many of the parts of a character stand for a group.
    pub open spec fn part_count(parts: Seq<u16>, group: int) -> int
        decreases parts.len(),
    {
        if parts.len() == 0 {
            0
        } else {
            Self::part_count(parts.drop_last(), group) + if parts.last() == GROUP_MARKER + group {
                1int
            } else {
                0
            }
        }
    }

    /// The frequency that the parts of a group carry.
    pub open spec fn group_weight(&self, group: int) -> int {
        sum(
            Seq::new(
                self.n(),
                |ci: int| self.freq(ci) * Self::part_count(self.parts(ci), group),
            ),
        )
    }

    /// The instructions for a character's simple code at a level.
    pub open spec fn instructions(&self, ci: int, li: int) -> Option<Seq<(usize, usize)>> {
        let rows = self.char_simple_infos@[ci].level_instructions@;
        if 0 <= li < rows.len() {
            match rows[li] {
                Some(v) => Some(v@),
                None => None,
            }
        } else {
            None
        }
    }

    /// The number of keys of a character's simple code at a level, without a commit key.
    pub open spec fn step_count(&self, ci: int, li: int) -> nat {
        match self.instructions(ci, li) {
            Some(steps) => steps.len(),
            None => 0,
        }
    }

    /// Whether an instruction points at a part that there is.
    pub open spec fn step_in_range(&self, ci: int, step: (usize, usize)) -> bool {
        step.1 < self.char_simple_infos@[ci].logical_roots@[step.0 as int].full_code_parts@.len()
    }

    /// The part that an instruction picks.
    pub open spec fn step_part(&self, ci: int, step: (usize, usize)) -> u16 {
        self.char_simple_infos@[ci].logical_roots@[step.0 as int].full_code_parts@[step.1 as int]
    }

    /// The parts of a character's simple code at a level; none where an instruction points past
    /// the end of its root.
    pub open spec fn simple_parts(&self, ci: int, li: int) -> Option<Seq<u16>> {
        match self.instructions(ci, li) {
            Some(steps) => if forall|i: int|
                0 <= i < steps.len() ==> self.step_in_range(ci, #[trigger] steps[i]) {
                Some(Seq::new(steps.len(), |i: int| self.step_part(ci, steps[i])))
            } else {
                None
            },
            None => None,
        }
    }

    /// The keys of a character's simple code at a level, without a commit key.
    pub open spec fn simple_keys(&self, assignment: Seq<u8>, ci: int, li: int) -> Option<Seq<u8>> {
        match self.simple_parts(ci, li) {
            Some(parts) => Some(part_keys(parts, assignment)),
            None => None,
        }
    }

    /// Whether there is a simple code that, without its commit key, is shorter than the full code.
    /// There is none where simple codes are not optimised.
    pub open spec fn eligible(&self, ci: int, li: int) -> bool {
        self.enable_simple_code && 0 < self.step_count(ci, li) < self.parts(ci).len()
    }

    /// A character's simple code at a level.
    pub open spec fn simple_code(&self, assignment: Seq<u8>, ci: int, li: int) -> Option<u32> {
        match self.simple_keys(assignment, ci, li) {
            Some(keys) => Some(encode(keys) as u32),
            None => None,
        }
    }

    /// A character's simple code at a level, where that code is shorter than the full code.
    pub open spec fn eligible_code(&self, assignment: Seq<u8>, ci: int, li: int) -> Option<u32> {
        if self.eligible(ci, li) {
            self.simple_code(assignment, ci, li)
        } else {
            None
        }
    }

    /// Whether a character can have a simple code at a level, whatever the assignment is.
    pub open spec fn encodable(&self, ci: int, li: int) -> bool {
        self.eligible(ci, li) && self.simple_parts(ci, li) is Some
    }

    /// The instructions are in order: they are for levels that there are, name roots that there
    /// are, hold few enough steps for a `u32` code, and pick parts that are keys or groups.
    pub open spec fn instructions_ok(&self) -> bool {
        &&& self.char_simple_infos@.len() == self.n()
        &&& forall|ci: int|
            #![trigger self.char_simple_infos@[ci]]
            0 <= ci < self.n() ==> self.char_simple_infos@[ci].level_instructions@.len()
                <= self.n_levels()
        &&& forall|ci: int, li: int|
            #![trigger self.instructions(ci, li)]
            0 <= ci < self.n() ==> match self.instructions(ci, li) {
                Some(steps) => {
                    &&& steps.len() <= MAX_CODE_LEN
                    &&& forall|i: int|
                        0 <= i < steps.len() ==> (#[trigger] steps[i]).0
                            < self.char_simple_infos@[ci].logical_roots@.len()
                },
                None => true,
            }
        &&& forall|ci: int, ri: int|
            0 <= ci < self.n() && 0 <= ri < self.char_simple_infos@[ci].logical_roots@.len()
                ==> parts_ok(
                (#[trigger] self.char_simple_infos@[ci].logical_roots@[ri]).full_code_parts@,
                self.num_groups(),
            )
    }

    /// The entries of the occupancy table for a code.
    pub open spec fn occ_entries(&self, li: int, code: u32) -> Seq<(u8, u32)> {
        if 0 <= li < self.simple_fixed_occupancy@.len()
            && self.simple_fixed_occupancy@[li]@.contains_key(code) {
            self.simple_fixed_occupancy@[li]@[code]@
        } else {
            Seq::empty()
        }
    }

    /// How many fixed codes occupy a code, whatever their commit keys.
    pub open spec fn occ_total(&self, li: int, code: u32) -> int {
        let entries = self.occ_entries(li, code);
        sum(Seq::new(entries.len(), |i: int| entries[i].1 as int))
    }

    /// How many fixed codes occupy a code with commit key `key`.
    pub open spec fn occ_key(&self, li: int, code: u32, key: u8) -> u32 {
        entry_count(self.occ_entries(li, code), key)
    }

    /// The last key of a code; 0 for the empty code.
    pub open spec fn last_key(code: u32) -> u8 {
        if code == 0 {
            0
        } else if code % 32 == 0 {
            255
        } else {
            (code % 32 - 1) as u8
        }
    }

    /// The commit keys of a level for a code, in order of preference.
    pub open spec fn preference(&self, li: int, code: u32) -> Seq<u8> {
        let level = self.simple_config.levels@[li];
        if self.layout.hand_of(Self::last_key(code)) == Hand::Left {
            level.commit_pref_last_left@
        } else {
            level.commit_pref_last_right@
        }
    }

    /// Whether a commit key is left out after a code: a letter of the hand that pressed the code's
    /// last key, on a level that asks for the other hand.
    pub open spec fn same_hand(&self, li: int, code: u32, k: u8) -> bool {
        &&& self.simple_config.levels@[li].commit_alt_hand_only
        &&& k != self.layout.space
        &&& self.layout.hand_of(k) == self.layout.hand_of(Self::last_key(code))
    }

    /// How many characters may still get a code with commit key `k`.
    pub open spec fn key_room(&self, li: int, code: u32, k: u8) -> int {
        let room = self.simple_config.levels@[li].code_num - self.occ_key(li, code, k);
        if room > 0 && !self.same_hand(li, code, k) {
            room
        } else {
            0
        }
    }

    /// How many characters the search may give a code of a level; none where there is no such
    /// level.
    pub open spec fn slots(&self, li: int, code: u32) -> int {
        let level = self.simple_config.levels@[li];
        if !(0 <= li < self.n_levels()) {
            0
        } else if level.commits() {
            let pref = self.preference(li, code);
            sum(Seq::new(pref.len(), |i: int| self.key_room(li, code, pref[i])))
        } else if level.code_num >= self.occ_total(li, code) {
            level.code_num - self.occ_total(li, code)
        } else {
            0
        }
    }

    /// The commit keys that have room in a round, in order of preference.
    pub open spec fn round_keys(&self, li: int, code: u32, round: int) -> Seq<u8> {
        self.preference(li, code).filter(|k: u8| self.key_room(li, code, k) > round)
    }

    /// The commit keys in the order in which they are handed out: one round after the other, each
    /// in order of preference.
    pub open spec fn commit_sequence(&self, li: int, code: u32, rounds: nat) -> Seq<u8>
        decreases rounds,
    {
        if rounds == 0 {
            Seq::empty()
        } else {
            self.commit_sequence(li, code, (rounds - 1) as nat) + self.round_keys(
                li,
                code,
                rounds - 1,
            )
        }
    }

    /// The commit key of the character that comes `rank`-th in the bucket of a code; none where
    /// there is no such level.
    pub open spec fn commit_key(&self, li: int, code: u32, rank: int) -> Option<u8> {
        let level = self.simple_config.levels@[li];
        let handed_out = self.commit_sequence(li, code, level.code_num as nat);
        if 0 <= li < self.n_levels() && level.commits() && rank < handed_out.len() {
            Some(handed_out[rank])
        } else {
            None
        }
    }

    /// The commit keys are keys, and the number of slots fits in a `usize`.
    pub open spec fn level_ok(level: SimpleCodeLevel) -> bool {
        &&& are_keys(level.commit_pref_last_left@)
        &&& are_keys(level.commit_pref_last_right@)
        &&& level.code_num * level.commit_pref_last_left@.len() <= usize::MAX
        &&& level.code_num * level.commit_pref_last_right@.len() <= usize::MAX
    }

    /// The candidates for simple codes: those of the search, or those of the output.
    pub open spec fn candidates(&self, output_scope: bool) -> Seq<usize> {
        if output_scope {
            self.simple_output_candidate_chars@
        } else {
            self.simple_candidate_chars@
        }
    }

    /// A list of candidates holds characters without fixed codes, each once.
    pub open spec fn candidate_list_ok(&self, list: Seq<usize>) -> bool {
        &&& list.no_duplicates()
        &&& forall|i: int|
            0 <= i < list.len() ==> (#[trigger] list[i]) < self.n()
                && !self.simple_fixed_assigned@[list[i] as int]
    }

    /// The tables by character and level hold what they are made for, and so do the marks of the
    /// most frequent characters.
    pub open spec fn tables_filled(&self) -> bool {
        &&& self.simple_level_capacity@.len() == self.n_levels()
        &&& forall|ci: int, li: int|
            #![trigger self.step_count(ci, li)]
            0 <= ci < self.n() && 0 <= li < self.n_levels() ==> space(self.step_count(ci, li))
                <= self.simple_level_capacity@[li]
        &&& self.simple_eligible@.len() == self.n()
        &&& self.simple_base_saving@.len() == self.n()
        &&& forall|ci: int|
            #![trigger self.simple_eligible@[ci]]
            0 <= ci < self.n() ==> self.simple_eligible@[ci]@.len() == self.n_levels()
        &&& forall|ci: int|
            #![trigger self.simple_base_saving@[ci]]
            0 <= ci < self.n() ==> self.simple_base_saving@[ci]@.len() == self.n_levels()
        &&& forall|ci: int, li: int|
            #![trigger self.simple_eligible@[ci]@[li]]
            0 <= ci < self.n() && 0 <= li < self.n_levels() ==> self.simple_eligible@[ci]@[li]
                == self.eligible(ci, li)
        &&& forall|ci: int, li: int|
            #![trigger self.simple_base_saving@[ci]@[li]]
            0 <= ci < self.n() && 0 <= li < self.n_levels() ==> self.simple_base_saving@[ci]@[li]
                == self.saving(ci, li)
        &&& self.simple_is_topn@.len() == if self.simple_protect_top_n > 0 {
            self.n()
        } else {
            0
        }
    }

    /// The tables by character and level are empty, and so are the marks of the most frequent
    /// characters.
    pub open spec fn tables_empty(&self) -> bool {
        &&& self.simple_level_capacity@.len() == 0
        &&& self.simple_eligible@.len() == 0
        &&& self.simple_base_saving@.len() == 0
        &&& self.simple_is_topn@.len() == 0
    }

    /// What simple codes need beside [`OptContext::wf_full`]. The tables are filled where simple
    /// codes are optimised, and nowhere else.
    pub open spec fn wf_simple(&self) -> bool {
        &&& self.instructions_ok()
        &&& self.n_levels() <= u32::MAX
        &&& forall|li: int|
            0 <= li < self.n_levels() ==> Self::level_ok(#[trigger] self.simple_config.levels@[li])
        &&& if self.enable_simple_code {
            self.tables_filled()
        } else {
            self.tables_empty()
        }
        &&& self.simple_fixed_assigned@.len() == self.n()
        &&& self.candidate_list_ok(self.simple_candidate_chars@)
        &&& self.candidate_list_ok(self.simple_output_candidate_chars@)
        &&& self.simple_is_candidate@.len() == self.n()
        &&& forall|ci: int|
            0 <= ci < self.n() ==> (#[trigger] self.simple_is_candidate@[ci]
                <==> self.simple_candidate_chars@.contains(ci as usize))
        &&& self.group_to_simple_affected@.len() == self.num_groups()
        &&& self.group_to_simple_affected_candidate@.len() == self.num_groups()
        &&& forall|g: int|
            0 <= g < self.num_groups() ==> affected_covers(
                self,
                (#[trigger] self.group_to_simple_affected_candidate@[g])@,
                g,
            )
        &&& forall|g: int|
            #![trigger self.group_to_simple_affected@[g]]
            0 <= g < self.num_groups() && self.group_to_simple_affected@[g]@.len() == 0
                ==> self.group_to_simple_affected_candidate@[g]@.len() == 0
        &&& forall|i: int|
            0 <= i < self.simple_fixed_codes@.len() ==> (#[trigger] self.simple_fixed_codes@[i]).ci
                < self.n()
        &&& forall|ci: int|
            0 <= ci < self.n() ==> (#[trigger] self.simple_fixed_assigned@[ci] <==> exists|i: int|
                0 <= i < self.simple_fixed_codes@.len() && (
                #[trigger] self.simple_fixed_codes@[i]).ci == ci)
        &&& self.simple_fixed_occupancy@.len() <= self.n_levels()
        &&& forall|li: int, code: u32| #[trigger] self.occ_total(li, code) <= u32::MAX
        &&& self.fixed_key_usage@.len() == EQUIV_TABLE_SIZE
        &&& forall|k: int|
            0 <= k < EQUIV_TABLE_SIZE ==> #[trigger] self.fixed_key_usage@[k] <= 0x1_0000_0000_0000_0000_0000
        &&& self.fixed_key_presses <= 0x1_0000_0000_0000_0000_0000
    }

    /// What it takes to hand out simple codes: the tables are filled, where anything reads them.
    pub open spec fn wf_levels(&self) -> bool {
        &&& self.wf_simple()
        &&& self.enable_simple_code || (self.n_levels() == 0 && self.simple_protect_top_n == 0)
    }

    /// The strokes that a simple code saves: the length of the full code less that of the simple
    /// code with its commit key.
    pub open spec fn saving(&self, ci: int, li: int) -> int {
        self.parts(ci).len() - self.step_count(ci, li) - if self.simple_config.levels@[li].commits() {
            1int
        } else {
            0
        }
    }
}

/// Whether `list` holds, ascending, candidates only, and every candidate whose simple code at some
/// level has a part of group `g`.
pub open spec fn affected_covers(ctx: &OptContext, list: Seq<usize>, g: int) -> bool {
    &&& forall|i: int, j: int| 0 <= i < j < list.len() ==> (#[trigger] list[i]) < (#[trigger] list[j])
    &&& forall|i: int|
        0 <= i < list.len() ==> (#[trigger] list[i]) < ctx.n() && ctx.simple_is_candidate@[list[i] as int]
    &&& forall|ci: int, li: int|
        #![trigger ctx.simple_parts(ci, li)]
        0 <= ci < ctx.n() && 0 <= li < ctx.n_levels() && ctx.simple_is_candidate@[ci]
            && ctx.simple_parts(ci, li) is Some && mentions(ctx.simple_parts(ci, li)->0, g)
            ==> list.contains(ci as usize)
}

/// The count of the first entry for `key`, 0 where there is none.
pub open spec fn entry_count(entries: Seq<(u8, u32)>, key: u8) -> u32
    decreases entries.len(),
{
    if entries.len() == 0 {
        0
    } else if entries[0].0 == key {
        entries[0].1
    } else {
        entry_count(entries.skip(1), key)
    }
}

impl OptContext {
    /// A full code fits in a `u32` and in the code space.
    pub proof fn full_code_bound(&self, assignment: Seq<u8>, ci: int)
        requires
            self.wf_full(),
            self.assigns(assignment),
            0 <= ci < self.n(),
        ensures
            self.full_code(assignment, ci) < self.code_space,
            self.full_code(assignment, ci) == encode(self.full_keys(assignment, ci)),
    {
        let info = self.char_infos@[ci];
        part_keys_are_keys(self.parts(ci), assignment);
        encode_bound(self.full_keys(assignment, ci));
        space_monotone(self.parts(ci).len(), self.max_parts as nat);
        space_monotone(self.max_parts as nat, 6);
        space_values();
    }

    /// The parts of a simple code are keys or groups.
    pub proof fn simple_parts_ok(&self, ci: int, li: int)
        requires
            self.instructions_ok(),
            0 <= ci < self.n(),
            self.simple_parts(ci, li) is Some,
        ensures
            parts_ok(self.simple_parts(ci, li)->0, self.num_groups()),
            self.simple_parts(ci, li)->0.len() == self.step_count(ci, li),
            self.step_count(ci, li) <= MAX_CODE_LEN,
    {
        let steps = self.instructions(ci, li)->0;
        let parts = self.simple_parts(ci, li)->0;
        assert forall|i: int| 0 <= i < parts.len() implies part_ok(
            #[trigger] parts[i],
            self.num_groups(),
        ) by {
            assert(self.step_in_range(ci, steps[i]));
            let root = self.char_simple_infos@[ci].logical_roots@[steps[i].0 as int];
            assert(parts_ok(root.full_code_parts@, self.num_groups()));
        }
    }

    /// A simple code fits in a `u32` and, where capacities are known, in its level's capacity.
    pub proof fn simple_code_bound(&self, assignment: Seq<u8>, ci: int, li: int)
        requires
            self.wf_simple(),
            self.assigns(assignment),
            0 <= ci < self.n(),
            self.simple_parts(ci, li) is Some,
        ensures
            0 <= li < self.n_levels(),
            self.enable_simple_code ==> self.simple_code(assignment, ci, li)->0
                < self.simple_level_capacity@[li],
            self.simple_code(assignment, ci, li)->0 == encode(
                self.simple_keys(assignment, ci, li)->0,
            ),
            are_keys(self.simple_keys(assignment, ci, li)->0),
            self.simple_keys(assignment, ci, li)->0.len() == self.step_count(ci, li),
    {
        self.simple_parts_ok(ci, li);
        let x = self.char_simple_infos@[ci];
        let keys = self.simple_keys(assignment, ci, li)->0;
        part_keys_are_keys(self.simple_parts(ci, li)->0, assignment);
        encode_bound(keys);
        space_monotone(keys.len(), 6);
        space_values();
    }

    /// The key of a part under an assignment.
    pub fn resolve_key(&self, part: u16, assignment: &[u8]) -> (k: u8)
        requires
            part_ok(part, assignment@.len()),
        ensures
            k == part_key(part, assignment@),
    {
        if part >= GROUP_MARKER {
            assignment[(part - GROUP_MARKER) as usize]
        } else {
            part as u8
        }
    }

    /// The full code of a character.
    pub fn calc_code_only(&self, ci: usize, assignment: &[u8]) -> (code: u32)
        requires
            self.wf_full(),
            self.assigns(assignment@),
            ci < self.n(),
        ensures
            code == self.full_code(assignment@, ci as int),
            code < self.code_space,
            code == encode(self.full_keys(assignment@, ci as int)),
    {
        let info = &self.char_infos[ci];
        let ghost keys = self.full_keys(assignment@, ci as int);
        proof {
            self.full_code_bound(assignment@, ci as int);
            part_keys_are_keys(self.parts(ci as int), assignment@);
            space_values();
        }
        let mut code: u32 = 0;
        let mut i: usize = 0;
        assert(keys.take(0) =~= Seq::<u8>::empty());
        while i < info.parts.len()
            invariant
                i <= info.parts@.len(),
                info.parts@.len() <= 6,
                parts_ok(info.parts@, assignment@.len()),
                keys == part_keys(info.parts@, assignment@),
                are_keys(keys),
                code == encode(keys.take(i as int)),
                space(6) == 1073741824,
            decreases info.parts@.len() - i,
        {
            let k = self.resolve_key(info.parts[i], assignment);
            proof {
                assert(k == keys[i as int]);
                assert(keys.take(i + 1).drop_last() =~= keys.take(i as int));
                assert(are_keys(keys.take(i + 1)));
                encode_bound(keys.take(i + 1));
                space_monotone((i + 1) as nat, 6);
            }
            code = code * 32 + (k as u32 + 1);
            i = i + 1;
        }
        assert(keys.take(keys.len() as int) =~= keys);
        code
    }

    /// The keys of a character's simple code at a level, without a commit key, written to `buf`.
    /// Returns whether the character has a simple code there; if not, `buf` is left empty.
    pub fn get_simple_keys_into(
        &self,
        ci: usize,
        level_idx: usize,
        assignment: &[u8],
        buf: &mut Vec<u8>,
    ) -> (found: bool)
        requires
            self.wf_simple(),
            self.assigns(assignment@),
            ci < self.n(),
        ensures
            match self.simple_keys(assignment@, ci as int, level_idx as int) {
                Some(keys) => found && final(buf)@ == keys,
                None => !found && final(buf)@.len() == 0,
            },
    {
        buf.clear();
        let si = &self.char_simple_infos[ci];
        if level_idx >= si.level_instructions.len() {
            return false;
        }
        match &si.level_instructions[level_idx] {
            None => false,
            Some(steps) => {
                let ghost all = self.instructions(ci as int, level_idx as int)->0;
                assert(all == steps@);
                let mut i: usize = 0;
                while i < steps.len()
                    invariant
                        i <= steps@.len(),
                        ci < self.n(),
                        self.instructions_ok(),
                        self.assigns(assignment@),
                        *si == self.char_simple_infos@[ci as int],
                        self.instructions(ci as int, level_idx as int) == Some(steps@),
                        forall|j: int|
                            0 <= j < i ==> self.step_in_range(ci as int, #[trigger] steps@[j]),
                        buf@.len() == i,
                        forall|j: int|
                            0 <= j < i ==> #[trigger] buf@[j] == part_key(
                                self.step_part(ci as int, steps@[j]),
                                assignment@,
                            ),
                    decreases steps@.len() - i,
                {
                    let (root_idx, code_idx) = steps[i];
                    let lr = &si.logical_roots[root_idx];
                    if code_idx >= lr.full_code_parts.len() {
                        assert(!self.step_in_range(ci as int, steps@[i as int]));
                        buf.clear();
                        return false;
                    }
                    assert(parts_ok(lr.full_code_parts@, self.num_groups()));
                    let k = self.resolve_key(lr.full_code_parts[code_idx], assignment);
                    buf.push(k);
                    i = i + 1;
                }
                proof {
                    let parts = self.simple_parts(ci as int, level_idx as int)->0;
                    assert(buf@ =~= part_keys(parts, assignment@));
                }
                true
            },
        }
    }

    /// The keys of a character's simple code at a level, without a commit key.
    pub fn get_simple_keys(&self, ci: usize, level_idx: usize, assignment: &[u8]) -> (keys: Option<
        Vec<u8>,
    >)
        requires
            self.wf_simple(),
            self.assigns(assignment@),
            ci < self.n(),
        ensures
            match keys {
                Some(keys) => self.simple_keys(assignment@, ci as int, level_idx as int) == Some(
                    keys@,
                ),
                None => self.simple_keys(assignment@, ci as int, level_idx as int) is None,
            },
    {
        let mut keys: Vec<u8> = Vec::new();
        if self.get_simple_keys_into(ci, level_idx, assignment, &mut keys) {
            Some(keys)
        } else {
            None
        }
    }

    /// The simple code of a character at a level.
    pub fn calc_simple_code(&self, ci: usize, level_idx: usize, assignment: &[u8]) -> (code: Option<
        u32,
    >)
        requires
            self.wf_simple(),
            self.assigns(assignment@),
            ci < self.n(),
        ensures
            code == self.simple_code(assignment@, ci as int, level_idx as int),
            code matches Some(c) ==> level_idx < self.n_levels() && (self.enable_simple_code ==> c
                < self.simple_level_capacity@[level_idx as int]),
    {
        match self.get_simple_keys(ci, level_idx, assignment) {
            None => None,
            Some(keys) => {
                proof {
                    self.simple_code_bound(assignment@, ci as int, level_idx as int);
                    space_values();
                    self.simple_parts_ok(ci as int, level_idx as int);
                }
                let mut code: u32 = 0;
                let mut i: usize = 0;
                assert(keys@.take(0) =~= Seq::<u8>::empty());
                while i < keys.len()
                    invariant
                        i <= keys@.len(),
                        keys@.len() <= 6,
                        are_keys(keys@),
                        code == encode(keys@.take(i as int)),
                        space(6) == 1073741824,
                    decreases keys@.len() - i,
                {
                    proof {
                        assert(keys@.take(i + 1).drop_last() =~= keys@.take(i as int));
                        assert(are_keys(keys@.take(i + 1)));
                        encode_bound(keys@.take(i + 1));
                        space_monotone((i + 1) as nat, 6);
                    }
                    code = code * 32 + (keys[i] as u32 + 1);
                    i = i + 1;
                }
                assert(keys@.take(keys@.len() as int) =~= keys@);
                Some(code)
            },
        }
    }

    /// Whether a character's simple code at a level, without its commit key, is shorter than its
    /// full code. Never so where there is no such character or level, or simple codes are not
    /// optimised.
    pub fn simple_is_eligible(&self, ci: usize, level_idx: usize) -> (r: bool)
        requires
            self.wf_simple(),
        ensures
            r == (ci < self.n() && self.eligible(ci as int, level_idx as int)),
    {
        if ci >= self.simple_eligible.len() {
            return false;
        }
        let row = &self.simple_eligible[ci];
        proof {
            let x = self.char_simple_infos@[ci as int];
        }
        level_idx < row.len() && row[level_idx]
    }

    /// The simple code of a character at a level, where that code is shorter than the full code.
    pub fn calc_simple_code_eligible(
        &self,
        ci: usize,
        level_idx: usize,
        assignment: &[u8],
    ) -> (code: Option<u32>)
        requires
            self.wf_simple(),
            self.assigns(assignment@),
            ci < self.n(),
        ensures
            code == self.eligible_code(assignment@, ci as int, level_idx as int),
            code matches Some(c) ==> level_idx < self.n_levels() && c
                < self.simple_level_capacity@[level_idx as int],
    {
        if self.simple_is_eligible(ci, level_idx) {
            self.calc_simple_code(ci, level_idx, assignment)
        } else {
            None
        }
    }

    /// How many fixed codes occupy a code of a level.
    pub fn simple_fixed_occ_total(&self, level_idx: usize, code: u32) -> (total: usize)
        requires
            self.wf_simple(),
        ensures
            total == self.occ_total(level_idx as int, code),
    {
        if level_idx >= self.simple_fixed_occupancy.len() {
            return 0;
        }
        match fx_get(&self.simple_fixed_occupancy[level_idx], code) {
            None => 0,
            Some(entries) => {
                let ghost counts = Seq::new(entries@.len(), |i: int| entries@[i].1 as int);
                assert(counts == Seq::new(
                    self.occ_entries(level_idx as int, code).len(),
                    |i: int| self.occ_entries(level_idx as int, code)[i].1 as int,
                ));
                assert(self.occ_total(level_idx as int, code) == sum(counts));
                let mut total: usize = 0;
                let mut i: usize = 0;
                assert(counts.take(0) =~= Seq::<int>::empty());
                while i < entries.len()
                    invariant
                        i <= entries@.len(),
                        counts == Seq::new(entries@.len(), |i: int| entries@[i].1 as int),
                        sum(counts) <= u32::MAX,
                        total == sum(counts.take(i as int)),
                    decreases entries@.len() - i,
                {
                    proof {
                        assert(counts.take(i + 1).drop_last() =~= counts.take(i as int));
                        sum_prefix(counts, i + 1);
                    }
                    total = total + entries[i].1 as usize;
                    i = i + 1;
                }
                assert(counts.take(counts.len() as int) =~= counts);
                total
            },
        }
    }

    /// How many fixed codes occupy a code of a level with commit key `key`.
    pub fn simple_fixed_occ_key(&self, level_idx: usize, code: u32, key: u8) -> (count: u32)
        ensures
            count == self.occ_key(level_idx as int, code, key),
    {
        if level_idx >= self.simple_fixed_occupancy.len() {
            return 0;
        }
        match fx_get(&self.simple_fixed_occupancy[level_idx], code) {
            None => 0,
            Some(entries) => {
                let mut i: usize = 0;
                assert(entries@.skip(0) =~= entries@);
                while i < entries.len()
                    invariant
                        i <= entries@.len(),
                        entries@ == self.occ_entries(level_idx as int, code),
                        entry_count(entries@, key) == entry_count(entries@.skip(i as int), key),
                    decreases entries@.len() - i,
                {
                    assert(entries@.skip(i as int)[0] == entries@[i as int]);
                    if entries[i].0 == key {
                        return entries[i].1;
                    }
                    assert(entries@.skip(i as int).skip(1) =~= entries@.skip(i + 1));
                    i = i + 1;
                }
                0
            },
        }
    }

    /// The last key of a code; 0 for the empty code.
    pub fn bucket_last_core_key(&self, code: u32) -> (k: u8)
        ensures
            k == Self::last_key(code),
    {
        if code == 0 {
            0
        } else if code % 32 == 0 {
            255
        } else {
            (code % 32 - 1) as u8
        }
    }

    /// The commit keys of a level for a code, in order of preference.
    fn preference_of(&self, li: usize, code: u32) -> (pref: &Vec<u8>)
        requires
            li < self.n_levels(),
        ensures
            pref@ == self.preference(li as int, code),
    {
        let level = &self.simple_config.levels[li];
        match self.layout.key_hand(self.bucket_last_core_key(code)) {
            Hand::Left => &level.commit_pref_last_left,
            _ => &level.commit_pref_last_right,
        }
    }

    /// How many characters may still get a code with commit key `k`.
    fn key_room_of(&self, li: usize, code: u32, k: u8) -> (room: usize)
        requires
            li < self.n_levels(),
        ensures
            room == self.key_room(li as int, code, k),
    {
        let level = &self.simple_config.levels[li];
        if level.commit_alt_hand_only && k != self.layout.space && self.layout.key_hand(k)
            == self.layout.key_hand(self.bucket_last_core_key(code)) {
            return 0;
        }
        let occupied = self.simple_fixed_occ_key(li, code, k) as usize;
        if level.code_num > occupied {
            level.code_num - occupied
        } else {
            0
        }
    }

    /// How many characters the search may give a code of a level: the room that fixed codes leave,
    /// over all commit keys that may follow the code, or of the code itself where it commits
    /// itself. There is none where there is no such level.
    pub fn simple_annealing_slots(&self, li: usize, code: u32) -> (slots: usize)
        requires
            self.wf_simple(),
        ensures
            slots == self.slots(li as int, code),
    {
        if li >= self.simple_config.levels.len() {
            return 0;
        }
        let level = &self.simple_config.levels[li];
        if !level.has_commit() {
            let occupied = self.simple_fixed_occ_total(li, code);
            return if level.code_num >= occupied {
                level.code_num - occupied
            } else {
                0
            };
        }
        let pref = self.preference_of(li, code);
        let ghost rooms = Seq::new(pref@.len(), |i: int| self.key_room(li as int, code, pref@[i]));
        let mut total: usize = 0;
        let mut i: usize = 0;
        assert(rooms.take(0) =~= Seq::<int>::empty());
        proof {
            self.slots_bound(li as int, code);
        }
        while i < pref.len()
            invariant
                i <= pref@.len(),
                li < self.n_levels(),
                pref@ == self.preference(li as int, code),
                rooms == Seq::new(
                    pref@.len(),
                    |i: int| self.key_room(li as int, code, pref@[i]),
                ),
                sum(rooms) <= usize::MAX,
                total == sum(rooms.take(i as int)),
            decreases pref@.len() - i,
        {
            proof {
                assert(rooms.take(i + 1).drop_last() =~= rooms.take(i as int));
                sum_prefix(rooms, i + 1);
            }
            total = total + self.key_room_of(li, code, pref[i]);
            i = i + 1;
        }
        assert(rooms.take(rooms.len() as int) =~= rooms);
        total
    }

    /// The commit key of the character that comes `rank`-th in the bucket of a code: keys are
    /// handed out in rounds, and in each round every key with room left gets one character, in
    /// order of preference. `None` where there is no such level, the level has no commit keys or all
    /// room is taken.
    pub fn commit_key_for_rank(&self, li: usize, code: u32, rank: usize) -> (k: Option<u8>)
        ensures
            k == self.commit_key(li as int, code, rank as int),
    {
        if li >= self.simple_config.levels.len() {
            return None;
        }
        let level = &self.simple_config.levels[li];
        if !level.has_commit() {
            return None;
        }
        let pref = self.preference_of(li, code);
        let code_num = level.code_num;
        let mut left: usize = rank;
        let mut round: usize = 0;
        while round < code_num
            invariant
                round <= code_num,
                li < self.n_levels(),
                code_num == self.simple_config.levels@[li as int].code_num,
                self.simple_config.levels@[li as int].commits(),
                pref@ == self.preference(li as int, code),
                left <= rank,
                rank - left == self.commit_sequence(li as int, code, round as nat).len(),
            decreases code_num - round,
        {
            let ghost done = self.commit_sequence(li as int, code, round as nat);
            let ghost keeps = |k: u8| self.key_room(li as int, code, k) > round as int;
            let ghost now = self.commit_sequence(li as int, code, (round + 1) as nat);
            let mut i: usize = 0;
            assert(pref@.take(0) =~= Seq::<u8>::empty());
            assert(pref@.take(0).filter(keeps).len() == 0) by {
                reveal(Seq::filter);
            }
            while i < pref.len()
                invariant
                    i <= pref@.len(),
                    round < code_num,
                    li < self.n_levels(),
                    code_num == self.simple_config.levels@[li as int].code_num,
                    self.simple_config.levels@[li as int].commits(),
                    pref@ == self.preference(li as int, code),
                    done == self.commit_sequence(li as int, code, round as nat),
                    keeps == (|k: u8| self.key_room(li as int, code, k) > round as int),
                    now == done + pref@.filter(keeps),
                    now == self.commit_sequence(li as int, code, (round + 1) as nat),
                    left <= rank,
                    rank - left == done.len() + pref@.take(i as int).filter(keeps).len(),
                decreases pref@.len() - i,
            {
                let k = pref[i];
                proof {
                    filter_step(pref@, keeps, i as int);
                }
                if self.key_room_of(li, code, k) > round {
                    if left == 0 {
                        proof {
                            self.commit_sequence_grows(
                                li as int,
                                code,
                                (round + 1) as nat,
                                code_num as nat,
                            );
                        }
                        return Some(k);
                    }
                    left = left - 1;
                }
                i = i + 1;
            }
            assert(pref@.take(pref@.len() as int) =~= pref@);
            round = round + 1;
        }
        None
    }

    /// Later rounds add to the commit keys handed out.
    proof fn commit_sequence_grows(&self, li: int, code: u32, a: nat, b: nat)
        requires
            a <= b,
        ensures
            self.commit_sequence(li, code, a).len() <= self.commit_sequence(li, code, b).len(),
            forall|i: int|
                0 <= i < self.commit_sequence(li, code, a).len()
                    ==> self.commit_sequence(li, code, a)[i] == self.commit_sequence(li, code, b)[i],
        decreases b,
    {
        if a < b {
            self.commit_sequence_grows(li, code, a, (b - 1) as nat);
        }
    }

    /// The commit keys handed out are keys.
    pub proof fn commit_key_is_key(&self, li: int, code: u32, rank: int)
        requires
            self.wf_simple(),
            0 <= li < self.n_levels(),
            0 <= rank,
        ensures
            self.commit_key(li, code, rank) matches Some(k) ==> k < EQUIV_TABLE_SIZE,
    {
        assert(Self::level_ok(self.simple_config.levels@[li]));
        self.commit_sequence_keys(li, code, self.simple_config.levels@[li].code_num as nat);
    }

    proof fn commit_sequence_keys(&self, li: int, code: u32, rounds: nat)
        requires
            are_keys(self.preference(li, code)),
        ensures
            are_keys(self.commit_sequence(li, code, rounds)),
        decreases rounds,
    {
        if rounds > 0 {
            self.commit_sequence_keys(li, code, (rounds - 1) as nat);
            let pref = self.preference(li, code);
            let keeps = |k: u8| self.key_room(li, code, k) > rounds - 1;
            let now = pref.filter(keeps);
            assert forall|i: int| 0 <= i < now.len() implies (#[trigger] now[i]) < EQUIV_TABLE_SIZE by {
                assert(now.contains(now[i]));
                pref.lemma_filter_contains_rev(keeps, now[i]);
            }
        }
    }

    /// As many commit keys are handed out as there are slots: every character that gets a code of
    /// a committing level gets a commit key with it.
    pub proof fn commit_keys_match_slots(&self, li: int, code: u32)
        requires
            0 <= li < self.n_levels(),
            self.simple_config.levels@[li].commits(),
        ensures
            self.commit_sequence(li, code, self.simple_config.levels@[li].code_num as nat).len()
                == self.slots(li, code),
    {
        let code_num = self.simple_config.levels@[li].code_num as nat;
        let pref = self.preference(li, code);
        self.commit_sequence_len(li, code, code_num);
        assert(Seq::new(pref.len(), |i: int| min_of(self.key_room(li, code, pref[i]), code_num as int))
            =~= Seq::new(pref.len(), |i: int| self.key_room(li, code, pref[i])));
    }

    proof fn commit_sequence_len(&self, li: int, code: u32, rounds: nat)
        ensures
            self.commit_sequence(li, code, rounds).len() == sum(
                Seq::new(
                    self.preference(li, code).len(),
                    |i: int| min_of(self.key_room(li, code, self.preference(li, code)[i]), rounds as int),
                ),
            ),
        decreases rounds,
    {
        let pref = self.preference(li, code);
        let rooms = Seq::new(pref.len(), |i: int| min_of(self.key_room(li, code, pref[i]), rounds as int));
        if rounds == 0 {
            crate::sums::sum_zero(rooms);
        } else {
            let before = (rounds - 1) as nat;
            let keeps = |k: u8| self.key_room(li, code, k) > before;
            let earlier = Seq::new(
                pref.len(),
                |i: int| min_of(self.key_room(li, code, pref[i]), before as int),
            );
            let added = Seq::new(pref.len(), |i: int| if keeps(pref[i]) { 1int } else { 0 });
            self.commit_sequence_len(li, code, before);
            filter_len(pref, keeps);
            crate::sums::sum_plus(earlier, added);
            assert(rooms =~= Seq::new(pref.len(), |i: int| earlier[i] + added[i]));
        }
    }

    /// The number of slots of a committing level fits in a `usize`.
    proof fn slots_bound(&self, li: int, code: u32)
        requires
            self.wf_simple(),
            0 <= li < self.n_levels(),
            self.simple_config.levels@[li].commits(),
        ensures
            0 <= self.slots(li, code) <= usize::MAX,
    {
        let level = self.simple_config.levels@[li];
        assert(Self::level_ok(level));
        let pref = self.preference(li, code);
        let rooms = Seq::new(pref.len(), |i: int| self.key_room(li, code, pref[i]));
        let most = Seq::new(pref.len(), |i: int| level.code_num as int);
        crate::sums::sum_le(rooms, most);
        crate::sums::sum_constant(pref.len(), level.code_num as int);
        sum_nonnegative(rooms);
        assert(pref.len() * level.code_num == level.code_num * pref.len()) by (nonlinear_arith);
    }
}

spec fn min_of(a: int, b: int) -> int {
    if a < b {
        a
    } else {
        b
    }
}

/// What one more element adds to a filtered prefix.
proof fn filter_step(s: Seq<u8>, keeps: spec_fn(u8) -> bool, i: int)
    requires
        0 <= i < s.len(),
    ensures
        s.take(i + 1).filter(keeps) == if keeps(s[i]) {
            s.take(i).filter(keeps).push(s[i])
        } else {
            s.take(i).filter(keeps)
        },
        s.take(i + 1).filter(keeps).len() <= s.filter(keeps).len(),
        keeps(s[i]) ==> s.filter(keeps)[s.take(i).filter(keeps).len() as int] == s[i],
    decreases s.len() - i,
{
    reveal(Seq::filter);
    let longer = s.take(i + 1);
    assert(longer.drop_last() =~= s.take(i));
    assert(longer.last() == s[i]);
    if i + 1 < s.len() {
        filter_step(s, keeps, i + 1);
        filter_prefix(s, keeps, i + 1);
    } else {
        assert(longer =~= s);
    }
}

/// A filtered prefix is a prefix of the whole, filtered.
proof fn filter_prefix(s: Seq<u8>, keeps: spec_fn(u8) -> bool, k: int)
    requires
        0 <= k <= s.len(),
    ensures
        s.take(k).filter(keeps).len() <= s.filter(keeps).len(),
        forall|j: int|
            0 <= j < s.take(k).filter(keeps).len() ==> s.take(k).filter(keeps)[j] == s.filter(keeps)[j],
    decreases s.len() - k,
{
    if k == s.len() {
        assert(s.take(k) =~= s);
    } else {
        reveal(Seq::filter);
        filter_prefix(s, keeps, k + 1);
        assert(s.take(k + 1).drop_last() =~= s.take(k));
    }
}

/// The length of a filtered sequence counts the elements kept.
proof fn filter_len(s: Seq<u8>, keeps: spec_fn(u8) -> bool)
    ensures
        s.filter(keeps).len() == sum(
            Seq::new(s.len(), |i: int| if keeps(s[i]) { 1int } else { 0 }),
        ),
    decreases s.len(),
{
    reveal(Seq::filter);
    let counts = Seq::new(s.len(), |i: int| if keeps(s[i]) { 1int } else { 0 });
    if s.len() > 0 {
        let shorter = s.drop_last();
        filter_len(shorter, keeps);
        assert(counts.drop_last() =~= Seq::new(
            shorter.len(),
            |i: int| if keeps(shorter[i]) { 1int } else { 0 },
        ));
    }
}

} // verus!
