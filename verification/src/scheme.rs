//! What an encoding scheme is given as, and the parts that its characters' full codes are made of.

use vstd::prelude::*;

use crate::codes::{mentions, part_group, part_ok, parts_ok};
use crate::context::OptContext;
use crate::sums::sum;
use crate::types::{
    CharSimpleInfo, KeyLayout, RootGroup, SimpleAssignMode, SimpleCodeConfig, EQUIV_TABLE_SIZE, GROUP_MARKER,
    MAX_CODE_LEN,
};

verus! {

/// An encoding scheme.
pub struct Scheme {
    /// The characters: each with the names of its roots and its frequency.
    pub splits: Vec<(char, Vec<String>, u64)>,
    /// The roots that have a key of their own.
    pub fixed_roots: Vec<(String, u8)>,
    /// The roots that the search puts on keys.
    pub groups: Vec<RootGroup>,
    /// The keyboard.
    pub layout: KeyLayout,
    /// The simple-code levels.
    pub simple_config: SimpleCodeConfig,
    /// What the characters' simple codes are made of.
    pub char_simple_infos: Vec<CharSimpleInfo>,
    /// The steps of every rule of every level that a character can follow.
    pub resolved_rules: Vec<Vec<Vec<(usize, usize)>>>,
    /// Whether simple codes are optimised at all.
    pub enable_simple_code: bool,
    /// How buckets are ranked.
    pub simple_assign_mode: SimpleAssignMode,
    /// How many of the most frequent characters protect their full codes; 0 for all characters.
    pub simple_protect_top_n: usize,
    /// The frequency that the candidates of the output have to cover; none to take everybody.
    pub output_coverage: Option<u64>,
    /// The frequency that the candidates of the search have to cover; none to take everybody.
    pub active_coverage: Option<u64>,
}

/// Whether a group holds a root.
pub open spec fn group_has(group: RootGroup, root: Seq<char>) -> bool {
    exists|i: int| 0 <= i < group.roots@.len() && #[trigger] group.roots@[i]@ == root
}

/// The key of a root that has one of its own: that of its first entry.
pub open spec fn fixed_key(fixed: Seq<(String, u8)>, root: Seq<char>) -> Option<u8>
    decreases fixed.len(),
{
    if fixed.len() == 0 {
        None
    } else if fixed[0].0@ == root {
        Some(fixed[0].1)
    } else {
        fixed_key(fixed.skip(1), root)
    }
}

/// The group of a root: the last that holds it.
pub open spec fn root_group(groups: Seq<RootGroup>, root: Seq<char>) -> Option<int>
    decreases groups.len(),
{
    if groups.len() == 0 {
        None
    } else if group_has(groups.last(), root) {
        Some(groups.len() - 1)
    } else {
        root_group(groups.drop_last(), root)
    }
}

/// The part that a root stands for: its own key, else its group. An unknown root stands for none.
pub open spec fn root_part(fixed: Seq<(String, u8)>, groups: Seq<RootGroup>, root: Seq<char>) -> Option<u16> {
    match fixed_key(fixed, root) {
        Some(key) => Some(key as u16),
        None => match root_group(groups, root) {
            Some(g) => Some((GROUP_MARKER + g) as u16),
            None => None,
        },
    }
}

/// The parts that roots stand for, unknown roots left out.
pub open spec fn roots_parts(
    fixed: Seq<(String, u8)>,
    groups: Seq<RootGroup>,
    roots: Seq<String>,
) -> Seq<u16>
    decreases roots.len(),
{
    if roots.len() == 0 {
        Seq::empty()
    } else {
        let front = roots_parts(fixed, groups, roots.drop_last());
        match root_part(fixed, groups, roots.last()@) {
            Some(p) => front.push(p),
            None => front,
        }
    }
}

impl Scheme {
    /// The number of characters.
    pub open spec fn n(&self) -> nat {
        self.splits@.len()
    }

    /// The parts of a character's full code.
    pub open spec fn parts(&self, ci: int) -> Seq<u16> {
        roots_parts(self.fixed_roots@, self.groups@, self.splits@[ci].1@)
    }

    /// The frequency of a character.
    pub open spec fn freq(&self, ci: int) -> int {
        self.splits@[ci].2 as int
    }

    /// The frequencies of all characters.
    pub open spec fn freqs(&self) -> Seq<int> {
        Seq::new(self.n(), |ci: int| self.freq(ci))
    }

    /// What full codes need: keys that there are, codes short enough for a `u32`, and frequencies
    /// whose sum fits in a `u64`.
    pub open spec fn ok_full(&self) -> bool {
        &&& self.layout.wf()
        &&& GROUP_MARKER + self.groups@.len() <= 65536
        &&& self.n() <= u32::MAX
        &&& forall|i: int|
            0 <= i < self.fixed_roots@.len() ==> (#[trigger] self.fixed_roots@[i]).1 < EQUIV_TABLE_SIZE
        &&& forall|ci: int|
            #![trigger self.splits@[ci]]
            0 <= ci < self.n() ==> self.parts(ci).len() <= MAX_CODE_LEN
        &&& sum(self.freqs()) <= u64::MAX
    }

    /// What simple codes need: instructions that name roots that there are, codes short enough for
    /// a `u32`, and commit keys that are keys.
    pub open spec fn ok_simple(&self) -> bool {
        &&& self.char_simple_infos@.len() == self.n()
        &&& self.resolved_rules@.len() == self.n()
        &&& self.simple_config.levels@.len() <= u32::MAX
        &&& forall|li: int|
            0 <= li < self.simple_config.levels@.len() ==> OptContext::level_ok(
                #[trigger] self.simple_config.levels@[li],
            )
        &&& forall|ci: int|
            #![trigger self.char_simple_infos@[ci]]
            0 <= ci < self.n() ==> simple_info_ok(
                self.char_simple_infos@[ci],
                self.groups@.len(),
                self.simple_config.levels@.len(),
            )
        &&& forall|ci: int|
            #![trigger self.resolved_rules@[ci]]
            0 <= ci < self.n() ==> rules_ok(
                self.char_simple_infos@[ci],
                self.resolved_rules@[ci]@,
            )
    }
}

/// Whether instructions name roots that there are.
pub open spec fn steps_ok(info: CharSimpleInfo, steps: Seq<(usize, usize)>) -> bool {
    forall|i: int| 0 <= i < steps.len() ==> (#[trigger] steps[i]).0 < info.logical_roots@.len()
}

/// Whether rules name roots that there are.
pub open spec fn rules_ok(info: CharSimpleInfo, rules: Seq<Vec<(usize, usize)>>) -> bool {
    forall|k: int| 0 <= k < rules.len() ==> steps_ok(info, (#[trigger] rules[k])@)
}

/// Whether what a character's simple codes are made of is in order: there are instructions for no
/// more levels than there are, and they name roots that there are.
pub open spec fn simple_info_ok(info: CharSimpleInfo, num_groups: nat, n_levels: nat) -> bool {
    &&& info.level_instructions@.len() <= n_levels
    &&& forall|ri: int|
        0 <= ri < info.logical_roots@.len() ==> parts_ok(
            (#[trigger] info.logical_roots@[ri]).full_code_parts@,
            num_groups,
        )
    &&& forall|li: int|
        #![trigger info.level_instructions@[li]]
        0 <= li < info.level_instructions@.len() ==> match info.level_instructions@[li] {
            Some(steps) => steps@.len() <= MAX_CODE_LEN && steps_ok(info, steps@),
            None => true,
        }
}

/// The key of a root that has one of its own.
fn find_fixed_key(fixed: &Vec<(String, u8)>, root: &String) -> (r: Option<u8>)
    ensures
        r == fixed_key(fixed@, root@),
{
    let mut i: usize = 0;
    assert(fixed@.skip(0) =~= fixed@);
    while i < fixed.len()
        invariant
            i <= fixed@.len(),
            fixed_key(fixed@, root@) == fixed_key(fixed@.skip(i as int), root@),
        decreases fixed@.len() - i,
    {
        assert(fixed@.skip(i as int)[0] == fixed@[i as int]);
        if fixed[i].0.eq(root) {
            return Some(fixed[i].1);
        }
        assert(fixed@.skip(i as int).skip(1) =~= fixed@.skip(i + 1));
        i = i + 1;
    }
    None
}

/// Whether a group holds a root.
fn holds_root(group: &RootGroup, root: &String) -> (r: bool)
    ensures
        r == group_has(*group, root@),
{
    let mut i: usize = 0;
    while i < group.roots.len()
        invariant
            i <= group.roots@.len(),
            forall|j: int| 0 <= j < i ==> #[trigger] group.roots@[j]@ != root@,
        decreases group.roots@.len() - i,
    {
        if group.roots[i].eq(root) {
            assert(group.roots@[i as int]@ == root@);
            return true;
        }
        i = i + 1;
    }
    false
}

/// The group of a root.
fn find_group(groups: &Vec<RootGroup>, root: &String) -> (r: Option<usize>)
    ensures
        match r {
            Some(g) => root_group(groups@, root@) == Some(g as int) && g < groups@.len(),
            None => root_group(groups@, root@) is None,
        },
{
    let mut k: usize = groups.len();
    assert(groups@.take(k as int) =~= groups@);
    while k > 0
        invariant
            k <= groups@.len(),
            root_group(groups@, root@) == root_group(groups@.take(k as int), root@),
        decreases k,
    {
        assert(groups@.take(k as int).last() == groups@[k - 1]);
        if holds_root(&groups[k - 1], root) {
            return Some(k - 1);
        }
        assert(groups@.take(k as int).drop_last() =~= groups@.take(k - 1));
        k = k - 1;
    }
    None
}

/// A root's group is one of the groups.
proof fn root_group_bound(groups: Seq<RootGroup>, root: Seq<char>)
    ensures
        root_group(groups, root) matches Some(g) ==> 0 <= g < groups.len(),
    decreases groups.len(),
{
    if groups.len() > 0 && !group_has(groups.last(), root) {
        root_group_bound(groups.drop_last(), root);
    }
}

/// A root's own key is a key.
proof fn fixed_key_bound(fixed: Seq<(String, u8)>, root: Seq<char>)
    requires
        forall|i: int| 0 <= i < fixed.len() ==> (#[trigger] fixed[i]).1 < EQUIV_TABLE_SIZE,
    ensures
        fixed_key(fixed, root) matches Some(k) ==> k < EQUIV_TABLE_SIZE,
    decreases fixed.len(),
{
    if fixed.len() > 0 {
        assert(fixed[0].1 < EQUIV_TABLE_SIZE);
        assert forall|i: int| 0 <= i < fixed.skip(1).len() implies (#[trigger] fixed.skip(1)[i]).1
            < EQUIV_TABLE_SIZE by {
            assert(fixed[i + 1].1 < EQUIV_TABLE_SIZE);
        }
        fixed_key_bound(fixed.skip(1), root);
    }
}

/// The parts of roots are keys or groups.
pub proof fn roots_parts_ok(fixed: Seq<(String, u8)>, groups: Seq<RootGroup>, roots: Seq<String>)
    requires
        forall|i: int| 0 <= i < fixed.len() ==> (#[trigger] fixed[i]).1 < EQUIV_TABLE_SIZE,
        GROUP_MARKER + groups.len() <= 65536,
    ensures
        parts_ok(roots_parts(fixed, groups, roots), groups.len()),
        roots_parts(fixed, groups, roots).len() <= roots.len(),
    decreases roots.len(),
{
    if roots.len() > 0 {
        roots_parts_ok(fixed, groups, roots.drop_last());
        fixed_key_bound(fixed, roots.last()@);
        root_group_bound(groups, roots.last()@);
        let front = roots_parts(fixed, groups, roots.drop_last());
        let all = roots_parts(fixed, groups, roots);
        assert forall|i: int| 0 <= i < all.len() implies part_ok(#[trigger] all[i], groups.len()) by {
            if i < front.len() {
                assert(part_ok(front[i], groups.len()));
            }
        }
    }
}

/// The parts that roots stand for.
pub fn parts_from_roots(
    fixed: &Vec<(String, u8)>,
    groups: &Vec<RootGroup>,
    roots: &Vec<String>,
) -> (parts: Vec<u16>)
    requires
        GROUP_MARKER + groups@.len() <= 65536,
    ensures
        parts@ == roots_parts(fixed@, groups@, roots@),
{
    let mut parts: Vec<u16> = Vec::new();
    let mut i: usize = 0;
    assert(roots@.take(0) =~= Seq::<String>::empty());
    while i < roots.len()
        invariant
            i <= roots@.len(),
            GROUP_MARKER + groups@.len() <= 65536,
            parts@ == roots_parts(fixed@, groups@, roots@.take(i as int)),
        decreases roots@.len() - i,
    {
        assert(roots@.take(i + 1).drop_last() =~= roots@.take(i as int));
        assert(roots@.take(i + 1).last() == roots@[i as int]);
        match find_fixed_key(fixed, &roots[i]) {
            Some(key) => {
                parts.push(key as u16);
            },
            None => match find_group(groups, &roots[i]) {
                Some(g) => {
                    parts.push(g as u16 + GROUP_MARKER);
                },
                None => {},
            },
        }
        i = i + 1;
    }
    assert(roots@.take(roots@.len() as int) =~= roots@);
    parts
}

/// Whether a group has one of its parts among `parts`.
pub fn has_part_of(parts: &Vec<u16>, g: usize) -> (r: bool)
    requires
        GROUP_MARKER + g < 65536,
    ensures
        r == mentions(parts@, g as int),
{
    let wanted = GROUP_MARKER + g as u16;
    let mut i: usize = 0;
    while i < parts.len()
        invariant
            i <= parts@.len(),
            wanted == GROUP_MARKER + g,
            forall|j: int| 0 <= j < i ==> part_group(#[trigger] parts@[j]) != Some(g as int),
        decreases parts@.len() - i,
    {
        if parts[i] == wanted {
            assert(part_group(parts@[i as int]) == Some(g as int));
            return true;
        }
        i = i + 1;
    }
    false
}

/// How many of the parts stand for a group.
pub fn count_parts_of(parts: &Vec<u16>, g: usize) -> (r: usize)
    requires
        GROUP_MARKER + g < 65536,
    ensures
        r == OptContext::part_count(parts@, g as int),
        r <= parts@.len(),
{
    let wanted = GROUP_MARKER + g as u16;
    let mut count: usize = 0;
    let mut i: usize = 0;
    assert(parts@.take(0) =~= Seq::<u16>::empty());
    while i < parts.len()
        invariant
            i <= parts@.len(),
            count <= i,
            wanted == GROUP_MARKER + g,
            count == OptContext::part_count(parts@.take(i as int), g as int),
        decreases parts@.len() - i,
    {
        assert(parts@.take(i + 1).drop_last() =~= parts@.take(i as int));
        if parts[i] == wanted {
            count = count + 1;
        }
        i = i + 1;
    }
    assert(parts@.take(parts@.len() as int) =~= parts@);
    count
}

} // verus!
