//! The parts of the configuration that decide which simple-code levels there are.

use vstd::prelude::*;

use crate::text::{chars_of, is_like, reads_like, trimmed, trimmed_chars};
use crate::types::{SimpleAssignMode, SimpleCodeConfig, SimpleCodeLevel, SimpleCodeStep};

verus! {

/// The input files.
#[derive(Clone, Debug)]
pub struct FilesConfig {
    pub fixed: String,
    pub dynamic: String,
    pub splits: String,
    pub pair_equiv: String,
    pub key_dist: String,
}

/// The keys that roots may be put on, and the order in which they are shown.
#[derive(Clone, Debug)]
pub struct KeysConfig {
    pub allowed: String,
    pub display_order: String,
}

/// A simple-code level as it is configured.
#[derive(Clone, Debug)]
pub struct SimpleLevelConfig {
    pub level: usize,
    pub code_num: usize,
    pub rules: Vec<String>,
    /// Whether codes of this level are committed with the space key.
    pub space_commit: bool,
}

/// How buckets are ranked unless the configuration says so.
pub fn default_simple_assign_mode() -> (r: String)
    ensures
        r@ == "efficiency"@,
{
    String::from_str("efficiency")
}

/// How many characters' full codes are protected unless the configuration says so: 0, for all.
pub fn default_simple_protect_top_n() -> (r: usize)
    ensures
        r == 0,
{
    0
}

/// After how many steps the list of collisions is made anew unless the configuration says so.
pub fn default_conflict_refresh_interval() -> (r: usize)
    ensures
        r == 1000,
{
    1000
}

/// Among how many collisions one is picked unless the configuration says so.
pub fn default_conflict_sample_window() -> (r: usize)
    ensures
        r == 20,
{
    20
}

/// Whether collisions are picked by frequency unless the configuration says so.
pub fn default_conflict_weight_by_freq() -> (r: bool)
    ensures
        !r,
{
    false
}

/// How a configured name ranks buckets: `frequency` by frequency, anything else by efficiency.
/// White space around the name and the case of its letters do not matter.
pub open spec fn assign_mode(s: Seq<char>) -> SimpleAssignMode {
    if reads_like(trimmed(s), "frequency"@) {
        SimpleAssignMode::Frequency
    } else {
        SimpleAssignMode::Efficiency
    }
}

/// The ranking with a given name; by efficiency where there is none of that name.
pub fn parse_simple_assign_mode(s: &str) -> (r: SimpleAssignMode)
    ensures
        r == assign_mode(s@),
{
    let name = trimmed_chars(s);
    if is_like(&name, "frequency") {
        SimpleAssignMode::Frequency
    } else {
        SimpleAssignMode::Efficiency
    }
}

/// The first `n` pairs of characters as steps.
pub open spec fn pairs(t: Seq<char>, n: nat) -> Seq<SimpleCodeStep>
    decreases n,
{
    if n == 0 {
        Seq::empty()
    } else {
        pairs(t, (n - 1) as nat).push(
            SimpleCodeStep { root_selector: t[2 * n - 2], code_selector: t[2 * n - 1] },
        )
    }
}

/// The steps of a rule: its characters in pairs, without white space around them. An empty rule
/// and one with a character left over are no rules.
pub open spec fn rule_steps(rule: Seq<char>) -> Option<Seq<SimpleCodeStep>> {
    let t = trimmed(rule);
    if t.len() == 0 || t.len() % 2 != 0 {
        None
    } else {
        Some(pairs(t, t.len() / 2))
    }
}

/// The steps of a rule, or `None` where it is no rule.
pub fn parse_rule_string(rule: &str) -> (r: Option<Vec<SimpleCodeStep>>)
    ensures
        match r {
            Some(steps) => rule_steps(rule@) == Some(steps@),
            None => rule_steps(rule@) is None,
        },
{
    let chars = trimmed_chars(rule);
    if chars.len() % 2 != 0 || chars.len() == 0 {
        return None;
    }
    let count = chars.len() / 2;
    let mut steps: Vec<SimpleCodeStep> = Vec::new();
    let mut i: usize = 0;
    while i < count
        invariant
            i <= count,
            2 * count == chars@.len(),
            steps@ == pairs(chars@, i as nat),
        decreases count - i,
    {
        steps.push(SimpleCodeStep { root_selector: chars[2 * i], code_selector: chars[2 * i + 1] });
        i = i + 1;
    }
    Some(steps)
}

/// The length of a fixed code without the `_` at its end.
pub open spec fn core_len(code: Seq<char>) -> nat
    decreases code.len(),
{
    if code.len() > 0 && code.last() == '_' {
        core_len(code.drop_last())
    } else {
        code.len()
    }
}

/// The length of a fixed code without the `_` at its end.
pub fn fixed_core_len(code: &str) -> (r: usize)
    ensures
        r == core_len(code@),
{
    let chars = chars_of(code);
    let mut n: usize = chars.len();
    assert(chars@.take(n as int) =~= chars@);
    while n > 0 && chars[n - 1] == '_'
        invariant
            n <= chars@.len(),
            core_len(chars@) == core_len(chars@.take(n as int)),
        decreases n,
    {
        assert(chars@.take(n as int).drop_last() =~= chars@.take(n - 1));
        n = n - 1;
    }
    n
}

/// The configured fixed codes: of each entry that names a character, its first character and its
/// code.
pub open spec fn fixed_codes(entries: Seq<(String, String)>) -> Seq<(char, Seq<char>)>
    decreases entries.len(),
{
    if entries.len() == 0 {
        Seq::empty()
    } else {
        let front = fixed_codes(entries.drop_last());
        let (name, code) = entries.last();
        if name@.len() == 0 {
            front
        } else {
            front.push((name@[0], code@))
        }
    }
}

/// The configured fixed codes.
pub fn get_fixed_simple_codes(entries: &Vec<(String, String)>) -> (r: Vec<(char, String)>)
    ensures
        r@.map_values(|e: (char, String)| (e.0, e.1@)) == fixed_codes(entries@),
{
    let mut r: Vec<(char, String)> = Vec::new();
    let mut i: usize = 0;
    assert(entries@.take(0) =~= Seq::<(String, String)>::empty());
    assert(r@.map_values(|e: (char, String)| (e.0, e.1@)) =~= fixed_codes(entries@.take(0)));
    while i < entries.len()
        invariant
            i <= entries@.len(),
            r@.map_values(|e: (char, String)| (e.0, e.1@)) == fixed_codes(entries@.take(i as int)),
        decreases entries@.len() - i,
    {
        let ghost before = r@;
        assert(entries@.take(i + 1).drop_last() =~= entries@.take(i as int));
        assert(entries@.take(i + 1).last() == entries@[i as int]);
        let entry = &entries[i];
        let name = entry.0.as_str();
        if name.unicode_len() > 0 {
            let item = (name.get_char(0), entry.1.clone());
            r.push(item);
            assert(r@.map_values(|e: (char, String)| (e.0, e.1@)) =~= before.map_values(
                |e: (char, String)| (e.0, e.1@),
            ).push((item.0, item.1@)));
        }
        i = i + 1;
    }
    assert(entries@.take(entries@.len() as int) =~= entries@);
    r
}

/// What a level is like.
pub struct LevelShape {
    pub level: usize,
    pub code_num: usize,
    pub rules: Seq<Seq<SimpleCodeStep>>,
    pub commit_keys: Seq<u8>,
}

/// What a level is like.
pub open spec fn level_shape(l: SimpleCodeLevel) -> LevelShape {
    LevelShape {
        level: l.level,
        code_num: l.code_num,
        rules: l.rule_candidates@.map_values(|r: Vec<SimpleCodeStep>| r@),
        commit_keys: l.commit_keys@,
    }
}

/// The rules of a level, those left out that are no rules.
pub open spec fn level_rules(rules: Seq<String>) -> Seq<Seq<SimpleCodeStep>>
    decreases rules.len(),
{
    if rules.len() == 0 {
        Seq::empty()
    } else {
        let front = level_rules(rules.drop_last());
        match rule_steps(rules.last()@) {
            Some(steps) => front.push(steps),
            None => front,
        }
    }
}

/// The number of steps of the longest rule.
pub open spec fn longest_rule(rules: Seq<Seq<SimpleCodeStep>>) -> nat
    decreases rules.len(),
{
    if rules.len() == 0 {
        0
    } else {
        let front = longest_rule(rules.drop_last());
        if rules.last().len() > front {
            rules.last().len()
        } else {
            front
        }
    }
}

/// Whether some fixed code has `len` keys.
pub open spec fn some_fixed_code_has(fixed: Seq<(char, String)>, len: nat) -> bool {
    exists|i: int| 0 <= i < fixed.len() && core_len((#[trigger] fixed[i]).1@) == len
}

/// Whether a level is kept: it gives out codes, or it has a rule and there is a fixed code of its
/// length.
pub open spec fn level_kept(l: SimpleLevelConfig, fixed: Seq<(char, String)>) -> bool {
    let rules = level_rules(l.rules@);
    l.code_num > 0 || (rules.len() > 0 && some_fixed_code_has(fixed, longest_rule(rules)))
}

/// The levels that the configuration gives: those that are kept, each committed with the space key
/// if it is so configured.
pub open spec fn kept_levels(
    levels: Seq<SimpleLevelConfig>,
    fixed: Seq<(char, String)>,
    space_key: u8,
) -> Seq<LevelShape>
    decreases levels.len(),
{
    if levels.len() == 0 {
        Seq::empty()
    } else {
        let front = kept_levels(levels.drop_last(), fixed, space_key);
        let l = levels.last();
        if level_kept(l, fixed) {
            front.push(
                LevelShape {
                    level: l.level,
                    code_num: l.code_num,
                    rules: level_rules(l.rules@),
                    commit_keys: if l.space_commit {
                        seq![space_key]
                    } else {
                        Seq::empty()
                    },
                },
            )
        } else {
            front
        }
    }
}

/// The rules of a level, and the number of steps of the longest.
fn parse_rules(rules: &Vec<String>) -> (r: (Vec<Vec<SimpleCodeStep>>, usize))
    ensures
        r.0@.map_values(|v: Vec<SimpleCodeStep>| v@) == level_rules(rules@),
        r.1 == longest_rule(level_rules(rules@)),
{
    let mut out: Vec<Vec<SimpleCodeStep>> = Vec::new();
    let mut longest: usize = 0;
    let mut i: usize = 0;
    assert(rules@.take(0) =~= Seq::<String>::empty());
    assert(out@.map_values(|v: Vec<SimpleCodeStep>| v@) =~= level_rules(rules@.take(0)));
    while i < rules.len()
        invariant
            i <= rules@.len(),
            out@.map_values(|v: Vec<SimpleCodeStep>| v@) == level_rules(rules@.take(i as int)),
            longest == longest_rule(level_rules(rules@.take(i as int))),
        decreases rules@.len() - i,
    {
        let ghost before = out@;
        let ghost parsed = level_rules(rules@.take(i as int));
        assert(rules@.take(i + 1).drop_last() =~= rules@.take(i as int));
        match parse_rule_string(rules[i].as_str()) {
            Some(steps) => {
                proof {
                    assert(parsed.push(steps@).drop_last() =~= parsed);
                }
                if steps.len() > longest {
                    longest = steps.len();
                }
                out.push(steps);
                assert(out@.map_values(|v: Vec<SimpleCodeStep>| v@) =~= before.map_values(
                    |v: Vec<SimpleCodeStep>| v@,
                ).push(steps@));
            },
            None => {},
        }
        i = i + 1;
    }
    assert(rules@.take(rules@.len() as int) =~= rules@);
    (out, longest)
}

/// Whether some fixed code has `len` keys.
fn has_fixed_of_len(fixed: &Vec<(char, String)>, len: usize) -> (r: bool)
    ensures
        r == some_fixed_code_has(fixed@, len as nat),
{
    let mut i: usize = 0;
    while i < fixed.len()
        invariant
            i <= fixed@.len(),
            forall|j: int| 0 <= j < i ==> core_len((#[trigger] fixed@[j]).1@) != len,
        decreases fixed@.len() - i,
    {
        if fixed_core_len(fixed[i].1.as_str()) == len {
            assert(core_len(fixed@[i as int].1@) == len);
            return true;
        }
        i = i + 1;
    }
    false
}

fn keys_of_one(key: u8, present: bool) -> (r: Vec<u8>)
    ensures
        r@ == if present {
            seq![key]
        } else {
            Seq::empty()
        },
{
    let mut r: Vec<u8> = Vec::new();
    if present {
        r.push(key);
    }
    assert(r@ =~= if present {
        seq![key]
    } else {
        Seq::empty()
    });
    r
}

/// The simple-code levels that the configuration gives, each with those of its rules that are rules.
/// A level that gives out codes is always kept, one that gives out none only for the sake of a fixed
/// code of its length.
pub fn get_simple_code_config(
    simple_levels: &Vec<SimpleLevelConfig>,
    fixed: &Vec<(char, String)>,
    space_key: u8,
) -> (r: SimpleCodeConfig)
    ensures
        r.levels@.map_values(|l: SimpleCodeLevel| level_shape(l)) == kept_levels(
            simple_levels@,
            fixed@,
            space_key,
        ),
        forall|i: int|
            #![trigger r.levels@[i]]
            0 <= i < r.levels@.len() ==> {
                let l = r.levels@[i];
                &&& l.commit_pref_last_left@ == l.commit_keys@
                &&& l.commit_pref_last_right@ == l.commit_keys@
                &&& !l.commit_alt_hand_only
            },
{
    let mut levels: Vec<SimpleCodeLevel> = Vec::new();
    let mut i: usize = 0;
    assert(simple_levels@.take(0) =~= Seq::<SimpleLevelConfig>::empty());
    assert(levels@.map_values(|l: SimpleCodeLevel| level_shape(l)) =~= kept_levels(
        simple_levels@.take(0),
        fixed@,
        space_key,
    ));
    while i < simple_levels.len()
        invariant
            i <= simple_levels@.len(),
            levels@.map_values(|l: SimpleCodeLevel| level_shape(l)) == kept_levels(
                simple_levels@.take(i as int),
                fixed@,
                space_key,
            ),
            forall|j: int|
                #![trigger levels@[j]]
                0 <= j < levels@.len() ==> {
                    let l = levels@[j];
                    &&& l.commit_pref_last_left@ == l.commit_keys@
                    &&& l.commit_pref_last_right@ == l.commit_keys@
                    &&& !l.commit_alt_hand_only
                },
        decreases simple_levels@.len() - i,
    {
        let ghost before = levels@;
        assert(simple_levels@.take(i + 1).drop_last() =~= simple_levels@.take(i as int));
        let l = &simple_levels[i];
        let (rule_candidates, longest) = parse_rules(&l.rules);
        assert(rule_candidates@.map_values(|v: Vec<SimpleCodeStep>| v@).len()
            == rule_candidates@.len());
        if l.code_num > 0 || (rule_candidates.len() > 0 && has_fixed_of_len(fixed, longest)) {
            let level = SimpleCodeLevel {
                level: l.level,
                code_num: l.code_num,
                rule_candidates,
                commit_keys: keys_of_one(space_key, l.space_commit),
                commit_pref_last_left: keys_of_one(space_key, l.space_commit),
                commit_pref_last_right: keys_of_one(space_key, l.space_commit),
                commit_alt_hand_only: false,
            };
            levels.push(level);
            assert(levels@.map_values(|l: SimpleCodeLevel| level_shape(l)) =~= before.map_values(
                |l: SimpleCodeLevel| level_shape(l),
            ).push(level_shape(level)));
        }
        i = i + 1;
    }
    assert(simple_levels@.take(simple_levels@.len() as int) =~= simple_levels@);
    SimpleCodeConfig { levels }
}

} // verus!
