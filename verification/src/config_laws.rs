//! What the configuration and the texts around a run come to, told character by character and entry by
//! entry.

use vstd::prelude::*;

use crate::backend_log::dense_megabytes;
use crate::bucket_store::{backend_for, BackendKind};
use crate::checkpoint::{meta_path, thread_archive_path, thread_path, thread_stem};
use crate::config::{
    assign_mode, core_len, fixed_codes, kept_levels, level_rules, longest_rule, pairs, rule_steps,
    SimpleLevelConfig,
};
use crate::fsutil::suffixed;
use crate::sums::sum;
use crate::text::{
    decimal, decimal_of_two, digit, joined, reads_as, reads_like, trimmed, trimmed_end, trimmed_start,
    white_space,
};
use crate::types::{first_key, SimpleAssignMode, SimpleCodeStep};

verus! {

/// Whether all the characters of a text, from one place up to another, are white space.
pub open spec fn blank(s: Seq<char>, from: int, to: int) -> bool {
    forall|i: int| from <= i < to ==> white_space(#[trigger] s[i])
}

/// Whether the rest of a text is white space around its characters from one place up to another, which
/// neither begin nor end with white space.
pub open spec fn stands_at(s: Seq<char>, from: int, to: int) -> bool {
    &&& 0 <= from <= to <= s.len()
    &&& blank(s, 0, from)
    &&& blank(s, to, s.len() as int)
    &&& from < to ==> !white_space(s[from]) && !white_space(s[to - 1])
}

proof fn start_told(s: Seq<char>)
    ensures
        exists|i: int|
            0 <= i <= s.len() && #[trigger] blank(s, 0, i) && trimmed_start(s) == s.skip(i) && (i < s.len()
                ==> !white_space(s[i])),
    decreases s.len(),
{
    if s.len() > 0 && white_space(s[0]) {
        let t = s.skip(1);
        start_told(t);
        let i = choose|i: int|
            0 <= i <= t.len() && #[trigger] blank(t, 0, i) && trimmed_start(t) == t.skip(i) && (i < t.len()
                ==> !white_space(t[i]));
        assert forall|j: int| 0 <= j < i + 1 implies white_space(#[trigger] s[j]) by {
            if j > 0 {
                assert(t[j - 1] == s[j]);
            }
        }
        assert(blank(s, 0, i + 1));
        assert(t.skip(i) =~= s.skip(i + 1));
    } else {
        assert(s.skip(0) =~= s);
        assert(blank(s, 0, 0));
    }
}

proof fn end_told(s: Seq<char>)
    ensures
        exists|j: int|
            0 <= j <= s.len() && #[trigger] blank(s, j, s.len() as int) && trimmed_end(s) == s.take(j) && (0 < j
                ==> !white_space(s[j - 1])),
    decreases s.len(),
{
    if s.len() > 0 && white_space(s.last()) {
        let t = s.drop_last();
        end_told(t);
        let j = choose|j: int|
            0 <= j <= t.len() && #[trigger] blank(t, j, t.len() as int) && trimmed_end(t) == t.take(j) && (0 < j
                ==> !white_space(t[j - 1]));
        assert forall|i: int| j <= i < s.len() implies white_space(#[trigger] s[i]) by {
            if i < t.len() {
                assert(t[i] == s[i]);
            }
        }
        assert(blank(s, j, s.len() as int));
        assert(t.take(j) =~= s.take(j));
    } else {
        assert(s.take(s.len() as int) =~= s);
        assert(blank(s, s.len() as int, s.len() as int));
    }
}

/// Trimming takes the white space off both ends of a text, all of it, and nothing else. What is written
/// in ASCII without a space is no white space; the space, the tab and the ends of lines are.
pub proof fn trimming_told(s: Seq<char>, from: int, to: int)
    ensures
        exists|i: int, j: int| #[trigger] stands_at(s, i, j) && trimmed(s) == s.subrange(i, j),
        stands_at(s, from, to) ==> trimmed(s) == s.subrange(from, to),
        forall|c: char| '!' <= c <= '~' ==> !#[trigger] white_space(c),
        white_space(' ') && white_space('\t') && white_space('\n') && white_space('\r'),
{
    start_told(s);
    let i = choose|i: int|
        0 <= i <= s.len() && #[trigger] blank(s, 0, i) && trimmed_start(s) == s.skip(i) && (i < s.len()
            ==> !white_space(s[i]));
    let t = s.skip(i);
    end_told(t);
    let k = choose|j: int|
        0 <= j <= t.len() && #[trigger] blank(t, j, t.len() as int) && trimmed_end(t) == t.take(j) && (0 < j
            ==> !white_space(t[j - 1]));
    let j = i + k;
    assert forall|x: int| j <= x < s.len() implies white_space(#[trigger] s[x]) by {
        assert(t[x - i] == s[x]);
    }
    assert(t.take(k) =~= s.subrange(i, j));
    if i < j {
        assert(t[k - 1] == s[j - 1]);
        if t.len() > 0 && k > 0 {
            assert(i < s.len());
        }
    }
    assert(stands_at(s, i, j));
    if stands_at(s, from, to) {
        if from < to {
            if i == s.len() {
                assert(white_space(s[from]));
            }
            if from < i {
                assert(white_space(s[from]));
            }
            if i < from {
                assert(white_space(s[i]));
            }
            if i < j {
                if to < j {
                    assert(white_space(s[j - 1]));
                }
                if j < to {
                    assert(white_space(s[to - 1]));
                }
            } else {
                assert(white_space(s[from]));
            }
        } else if i < j {
            if i < from {
                assert(white_space(s[i]));
            } else {
                assert(white_space(s[i]));
            }
        }
        assert(s.subrange(i, j) =~= s.subrange(from, to));
    }
}

/// A character has one number.
proof fn same_number(c: char)
    ensures
        c as u32 == c as int,
        0 <= c as int <= 0xd7ff || 0xe000 <= c as int <= 0x10ffff,
{
}

/// A name of a ranking means ranking by frequency exactly if it is `frequency`, in small letters or in
/// capitals, with or without white space around it.
pub proof fn ranking_names_told(s: Seq<char>, from: int, to: int)
    requires
        stands_at(s, from, to),
    ensures
        assign_mode(s) == SimpleAssignMode::Frequency <==> {
            &&& to - from == "frequency"@.len()
            &&& forall|i: int|
                from <= i < to ==> (#[trigger] s[i] as int == "frequency"@[i - from] as int || s[i] as int + 32
                    == "frequency"@[i - from] as int)
        },
        "frequency"@.len() == 9,
        assign_mode(s) == SimpleAssignMode::Frequency || assign_mode(s) == SimpleAssignMode::Efficiency,
{
    reveal_strlit("frequency");
    trimming_told(s, from, to);
    let word = "frequency"@;
    let t = trimmed(s);
    assert(forall|i: int| 0 <= i < 9 ==> 'a' <= #[trigger] word[i] <= 'z');
    if reads_like(t, word) {
        assert forall|i: int| from <= i < to implies (#[trigger] s[i] as int == word[i - from] as int || s[i] as int
            + 32 == word[i - from] as int) by {
            assert(t[i - from] == s[i]);
            assert(reads_as(t[i - from], word[i - from]));
            same_number(s[i]);
            same_number(word[i - from]);
        }
    }
    if to - from == word.len() && forall|i: int|
        from <= i < to ==> (#[trigger] s[i] as int == word[i - from] as int || s[i] as int + 32 == word[i
            - from] as int) {
        assert forall|i: int| #![trigger t[i]] 0 <= i < t.len() implies reads_as(t[i], word[i]) by {
            assert(t[i] == s[i + from]);
            assert('a' <= word[i] <= 'z');
        }
    }
}

/// The last of the pairs of characters.
proof fn last_pair(t: Seq<char>, n: nat)
    requires
        n > 0,
    ensures
        pairs(t, n).len() == pairs(t, (n - 1) as nat).len() + 1,
        pairs(t, n).last().root_selector == t[2 * n - 2],
        pairs(t, n).last().code_selector == t[2 * n - 1],
        pairs(t, n).drop_last() == pairs(t, (n - 1) as nat),
{
    same_number(t[2 * n - 2]);
    same_number(t[2 * n - 1]);
    let step = SimpleCodeStep { root_selector: t[2 * n - 2], code_selector: t[2 * n - 1] };
    assert(pairs(t, n) == pairs(t, (n - 1) as nat).push(step));
}

/// Each pair of characters is a step.
proof fn pairs_told(t: Seq<char>, n: nat)
    ensures
        pairs(t, n).len() == n,
        forall|i: int|
            #![trigger pairs(t, n)[i]]
            0 <= i < n ==> pairs(t, n)[i].root_selector == t[2 * i] && pairs(t, n)[i].code_selector == t[2 * i
                + 1],
    decreases n,
{
    if n > 0 {
        last_pair(t, n);
        pairs_told(t, (n - 1) as nat);
        let all = pairs(t, n);
        assert forall|i: int|
            #![trigger all[i]]
            0 <= i < n implies all[i].root_selector == t[2 * i] && all[i].code_selector == t[2 * i + 1] by {
            if i < n - 1 {
                assert(all.drop_last()[i] == all[i]);
            } else {
                assert(2 * n - 2 == 2 * i);
                assert(all[i] == all.last());
            }
        }
    }
}

/// A rule has a step for every two characters: the first says which root, the second which key of it.
/// It is a rule exactly if there are characters, and an even number of them.
pub proof fn rules_told(rule: Seq<char>, from: int, to: int)
    requires
        stands_at(rule, from, to),
    ensures
        rule_steps(rule) is Some <==> from < to && (to - from) % 2 == 0,
        rule_steps(rule) matches Some(steps) ==> {
            &&& 2 * steps.len() == to - from
            &&& forall|i: int|
                #![trigger steps[i]]
                0 <= i < steps.len() ==> steps[i].root_selector == rule[from + 2 * i] && steps[i].code_selector
                    == rule[from + 2 * i + 1]
        },
{
    trimming_told(rule, from, to);
    let t = trimmed(rule);
    pairs_told(t, t.len() / 2);
}

/// The keys of a fixed code end where nothing but `_` follows, and no sooner.
pub proof fn core_len_told(code: Seq<char>)
    ensures
        core_len(code) <= code.len(),
        forall|i: int| core_len(code) <= i < code.len() ==> #[trigger] code[i] == '_',
        core_len(code) > 0 ==> code[core_len(code) - 1] != '_',
    decreases code.len(),
{
    if code.len() > 0 && code.last() == '_' {
        let front = code.drop_last();
        core_len_told(front);
        assert forall|i: int| core_len(code) <= i < code.len() implies #[trigger] code[i] == '_' by {
            if i < front.len() {
                assert(front[i] == code[i]);
            }
        }
    }
}

/// How many of the first `i` entries hold.
pub open spec fn holding(which: Seq<bool>, i: int) -> int {
    sum(ones_of(which, i))
}

/// One for each of the first `i` entries that holds.
pub open spec fn ones_of(which: Seq<bool>, i: int) -> Seq<int> {
    Seq::new(i as nat, |j: int| if which[j] { 1int } else { 0 })
}

proof fn holding_step(which: Seq<bool>, i: int)
    requires
        0 <= i,
    ensures
        holding(which, i) >= 0,
        holding(which, i + 1) == holding(which, i) + if which[i] {
            1int
        } else {
            0
        },
        holding(which, 0) == 0,
    decreases i,
{
    assert(ones_of(which, i + 1).drop_last() =~= ones_of(which, i));
    if i > 0 {
        holding_step(which, i - 1);
    }
}

proof fn holding_same(a: Seq<bool>, b: Seq<bool>, i: int)
    requires
        0 <= i,
        forall|j: int| 0 <= j < i ==> a[j] == #[trigger] b[j],
    ensures
        holding(a, i) == holding(b, i),
{
    assert(ones_of(a, i) =~= ones_of(b, i));
}

/// Which entries name a character.
pub open spec fn naming(entries: Seq<(String, String)>) -> Seq<bool> {
    Seq::new(entries.len(), |i: int| entries[i].0@.len() > 0)
}

/// Every entry that names a character gives a fixed code: the first character of the name with the code
/// as it is written, in the order of the entries. No other entry gives one.
pub proof fn entries_told(entries: Seq<(String, String)>)
    ensures
        fixed_codes(entries).len() == holding(naming(entries), entries.len() as int),
        forall|i: int|
            #![trigger entries[i]]
            0 <= i < entries.len() && entries[i].0@.len() > 0 ==> {
                let at = holding(naming(entries), i);
                &&& 0 <= at < fixed_codes(entries).len()
                &&& fixed_codes(entries)[at] == (entries[i].0@[0], entries[i].1@)
            },
    decreases entries.len(),
{
    let n = entries.len() as int;
    if n == 0 {
        assert(ones_of(naming(entries), 0).len() == 0);
    } else {
        let front = entries.drop_last();
        entries_told(front);
        holding_step(naming(entries), n - 1);
        assert forall|i: int| 0 <= i < n implies holding(naming(entries), i) == #[trigger] holding(
            naming(front),
            i,
        ) by {
            holding_same(naming(entries), naming(front), i);
        }
        assert forall|i: int|
            #![trigger entries[i]]
            0 <= i < entries.len() && entries[i].0@.len() > 0 implies {
            let at = holding(naming(entries), i);
            &&& 0 <= at < fixed_codes(entries).len()
            &&& fixed_codes(entries)[at] == (entries[i].0@[0], entries[i].1@)
        } by {
            let x = holding(naming(front), i);
            if i < n - 1 {
                assert(front[i] == entries[i]);
            }
        }
    }
}

/// Which texts are rules.
pub open spec fn being_rules(rules: Seq<String>) -> Seq<bool> {
    Seq::new(rules.len(), |i: int| rule_steps(rules[i]@) is Some)
}

/// A level has the rules among its texts, in the order of the texts.
pub proof fn level_rules_told(rules: Seq<String>)
    ensures
        level_rules(rules).len() == holding(being_rules(rules), rules.len() as int),
        forall|i: int|
            #![trigger rules[i]]
            0 <= i < rules.len() && rule_steps(rules[i]@) is Some ==> {
                let at = holding(being_rules(rules), i);
                &&& 0 <= at < level_rules(rules).len()
                &&& Some(level_rules(rules)[at]) == rule_steps(rules[i]@)
            },
    decreases rules.len(),
{
    let n = rules.len() as int;
    if n == 0 {
        assert(ones_of(being_rules(rules), 0).len() == 0);
    } else {
        let front = rules.drop_last();
        level_rules_told(front);
        holding_step(being_rules(rules), n - 1);
        assert forall|i: int| 0 <= i < n implies holding(being_rules(rules), i) == #[trigger] holding(
            being_rules(front),
            i,
        ) by {
            holding_same(being_rules(rules), being_rules(front), i);
        }
        assert forall|i: int|
            #![trigger rules[i]]
            0 <= i < rules.len() && rule_steps(rules[i]@) is Some implies {
            let at = holding(being_rules(rules), i);
            &&& 0 <= at < level_rules(rules).len()
            &&& Some(level_rules(rules)[at]) == rule_steps(rules[i]@)
        } by {
            let x = holding(being_rules(front), i);
            if i < n - 1 {
                assert(front[i] == rules[i]);
            }
        }
    }
}

/// The longest of the rules of a level is as long as one of them, and none is longer.
pub proof fn longest_rule_told(rules: Seq<Seq<SimpleCodeStep>>)
    ensures
        forall|i: int| #![trigger rules[i]] 0 <= i < rules.len() ==> rules[i].len() <= longest_rule(rules),
        rules.len() == 0 ==> longest_rule(rules) == 0,
        longest_rule(rules) > 0 ==> exists|i: int|
            #![trigger rules[i]]
            0 <= i < rules.len() && rules[i].len() == longest_rule(rules),
    decreases rules.len(),
{
    if rules.len() > 0 {
        let front = rules.drop_last();
        longest_rule_told(front);
        assert forall|i: int| #![trigger rules[i]] 0 <= i < rules.len() implies rules[i].len() <= longest_rule(
            rules,
        ) by {
            if i < front.len() {
                assert(front[i] == rules[i]);
            }
        }
        if longest_rule(rules) > 0 {
            if rules.last().len() > longest_rule(front) {
                assert(rules[rules.len() - 1].len() == longest_rule(rules));
            } else {
                let i = choose|i: int|
                    #![trigger front[i]]
                    0 <= i < front.len() && front[i].len() == longest_rule(front);
                assert(rules[i] == front[i]);
            }
        }
    }
}

/// Whether a level is wanted: it gives out codes, or one of its rules, no shorter than any other of them,
/// has a step for each key of some fixed code.
pub open spec fn wanted(l: SimpleLevelConfig, fixed: Seq<(char, String)>) -> bool {
    l.code_num > 0 || exists|i: int, j: int|
        #![trigger level_rules(l.rules@)[i], fixed[j]]
        {
            let rules = level_rules(l.rules@);
            &&& 0 <= i < rules.len()
            &&& 0 <= j < fixed.len()
            &&& rules[i].len() == core_len(fixed[j].1@)
            &&& forall|k: int| #![trigger rules[k]] 0 <= k < rules.len() ==> rules[k].len() <= rules[i].len()
        }
}

/// Which levels are wanted.
pub open spec fn wanting(levels: Seq<SimpleLevelConfig>, fixed: Seq<(char, String)>) -> Seq<bool> {
    Seq::new(levels.len(), |i: int| wanted(levels[i], fixed))
}

proof fn wanted_told(l: SimpleLevelConfig, fixed: Seq<(char, String)>)
    ensures
        crate::config::level_kept(l, fixed) <==> wanted(l, fixed),
{
    let rules = level_rules(l.rules@);
    longest_rule_told(rules);
    some_step(l.rules@);
    if rules.len() > 0 && crate::config::some_fixed_code_has(fixed, longest_rule(rules)) {
        let j = choose|j: int| 0 <= j < fixed.len() && core_len((#[trigger] fixed[j]).1@) == longest_rule(rules);
        assert(rules[0].len() > 0);
        let i = choose|i: int|
            #![trigger rules[i]]
            0 <= i < rules.len() && rules[i].len() == longest_rule(rules);
        let (x, y) = (level_rules(l.rules@)[i], fixed[j]);
    }
    if wanted(l, fixed) && l.code_num == 0 {
        let (i, j) = choose|i: int, j: int|
            #![trigger level_rules(l.rules@)[i], fixed[j]]
            {
                &&& 0 <= i < rules.len()
                &&& 0 <= j < fixed.len()
                &&& rules[i].len() == core_len(fixed[j].1@)
                &&& forall|k: int| #![trigger rules[k]] 0 <= k < rules.len() ==> rules[k].len() <= rules[i].len()
            };
        assert(rules[i].len() > 0);
        let k = choose|k: int|
            #![trigger rules[k]]
            0 <= k < rules.len() && rules[k].len() == longest_rule(rules);
        assert(rules[k].len() <= rules[i].len());
        let y = fixed[j];
    }
}

/// Every rule of a level has a step.
proof fn some_step(rules: Seq<String>)
    ensures
        forall|i: int|
            #![trigger level_rules(rules)[i]]
            0 <= i < level_rules(rules).len() ==> level_rules(rules)[i].len() > 0,
    decreases rules.len(),
{
    if rules.len() > 0 {
        let front = level_rules(rules.drop_last());
        some_step(rules.drop_last());
        let t = trimmed(rules.last()@);
        pairs_told(t, t.len() / 2);
            assert forall|i: int|
            #![trigger level_rules(rules)[i]]
            0 <= i < level_rules(rules).len() implies level_rules(rules)[i].len() > 0 by {
            if i < front.len() {
                assert(level_rules(rules)[i] == front[i]);
            }
        }
    }
}

/// The levels of a run are those that are wanted, in the order of the configuration. Each has its number,
/// its number of codes and its rules, and commits with the space key, and that alone, exactly if it is so
/// configured.
pub proof fn levels_told(levels: Seq<SimpleLevelConfig>, fixed: Seq<(char, String)>, space: u8)
    ensures
        kept_levels(levels, fixed, space).len() == holding(wanting(levels, fixed), levels.len() as int),
        forall|i: int|
            #![trigger levels[i]]
            0 <= i < levels.len() && wanted(levels[i], fixed) ==> {
                let at = holding(wanting(levels, fixed), i);
                let l = kept_levels(levels, fixed, space)[at];
                &&& 0 <= at < kept_levels(levels, fixed, space).len()
                &&& l.level == levels[i].level
                &&& l.code_num == levels[i].code_num
                &&& l.rules == level_rules(levels[i].rules@)
                &&& levels[i].space_commit ==> l.commit_keys == seq![space]
                &&& !levels[i].space_commit ==> l.commit_keys.len() == 0
            },
    decreases levels.len(),
{
    let n = levels.len() as int;
    if n == 0 {
        assert(ones_of(wanting(levels, fixed), 0).len() == 0);
    } else {
        let front = levels.drop_last();
        levels_told(front, fixed, space);
        wanted_told(levels.last(), fixed);
        holding_step(wanting(levels, fixed), n - 1);
        assert forall|i: int| 0 <= i < n implies holding(wanting(levels, fixed), i) == #[trigger] holding(
            wanting(front, fixed),
            i,
        ) by {
            holding_same(wanting(levels, fixed), wanting(front, fixed), i);
        }
        assert forall|i: int|
            #![trigger levels[i]]
            0 <= i < levels.len() && wanted(levels[i], fixed) implies {
            let at = holding(wanting(levels, fixed), i);
            let l = kept_levels(levels, fixed, space)[at];
            &&& 0 <= at < kept_levels(levels, fixed, space).len()
            &&& l.level == levels[i].level
            &&& l.code_num == levels[i].code_num
            &&& l.rules == level_rules(levels[i].rules@)
            &&& levels[i].space_commit ==> l.commit_keys == seq![space]
            &&& !levels[i].space_commit ==> l.commit_keys.len() == 0
        } by {
            let x = holding(wanting(front, fixed), i);
            if i < n - 1 {
                assert(front[i] == levels[i]);
            }
        }
    }
}

/// The number that a text of digits stands for.
pub open spec fn number(s: Seq<char>) -> int
    decreases s.len(),
{
    if s.len() == 0 {
        0
    } else {
        10 * number(s.drop_last()) + (s.last() as int - '0' as int)
    }
}

/// A number written in decimal reads as that number. It has digits only, and does not begin with a zero
/// unless it is 0. With two digits at least it reads as the same number, and a zero is put in front of a
/// single digit only.
pub proof fn decimals_told(n: nat)
    ensures
        number(decimal(n)) == n,
        decimal(n).len() > 0,
        forall|i: int| 0 <= i < decimal(n).len() ==> '0' <= #[trigger] decimal(n)[i] <= '9',
        decimal(n)[0] == '0' ==> n == 0,
        number(decimal_of_two(n)) == n,
        decimal_of_two(n).len() >= 2,
        n >= 10 ==> decimal_of_two(n) == decimal(n),
        n < 100 ==> decimal_of_two(n).len() == 2,
    decreases n,
{
    reveal_with_fuel(number, 3);
    reveal_with_fuel(decimal, 3);
    if n >= 10 {
        decimals_told(n / 10);
        let front = decimal(n / 10);
        assert(decimal(n).drop_last() =~= front);
        assert(decimal(n)[0] == front[0]);
        assert(number(decimal(n)) == 10 * number(front) + n % 10);
    } else {
        assert(seq![digit(n)].drop_last() =~= Seq::empty());
        assert(seq!['0', digit(n)].drop_last() =~= seq!['0']);
        assert(seq!['0'].drop_last() =~= Seq::empty());
    }
}

/// The path of a file begins with its directory and ends with its name. Between them stands `/`, unless
/// the directory ends with one or is empty.
pub proof fn paths_told(dir: Seq<char>, name: Seq<char>)
    ensures
        ({
            let p = joined(dir, name);
            let gap = p.len() - dir.len() - name.len();
            &&& p.take(dir.len() as int) == dir
            &&& p.skip(p.len() - name.len()) == name
            &&& dir.len() == 0 ==> gap == 0
            &&& dir.len() > 0 ==> p[p.len() - name.len() - 1] == '/'
            &&& gap == 0 || (gap == 1 && dir.last() != '/')
        }),
{
    let p = joined(dir, name);
    assert(p.take(dir.len() as int) =~= dir);
    assert(p.skip(p.len() - name.len()) =~= name);
}

/// No two files of a directory have one path, and no two times one archive.
pub proof fn names_apart(dir: Seq<char>, a: Seq<char>, b: Seq<char>, ts: Seq<char>, us: Seq<char>)
    ensures
        joined(dir, a) == joined(dir, b) ==> a == b,
        suffixed(a, ts) == suffixed(a, us) ==> ts == us,
        suffixed(a, ts) == suffixed(b, ts) ==> a == b,
        suffixed(a, ts).len() == a.len() + 1 + ts.len(),
        suffixed(a, ts).take(a.len() as int) == a,
        suffixed(a, ts)[a.len() as int] == '.',
{
    paths_told(dir, a);
    paths_told(dir, b);
    if joined(dir, a) == joined(dir, b) {
        assert(a.len() == b.len());
    }
    assert(suffixed(a, ts).take(a.len() as int) =~= a);
    assert(suffixed(b, ts).take(b.len() as int) =~= b);
    assert(suffixed(a, ts).skip(a.len() as int + 1) =~= ts);
    assert(suffixed(a, us).skip(a.len() as int + 1) =~= us);
}

/// Every thread has a checkpoint of its own: the name begins with `thread-` and ends with the thread's
/// number, in two digits at least.
pub proof fn threads_apart(i: nat, j: nat)
    ensures
        thread_stem(i) == thread_stem(j) ==> i == j,
        thread_stem(i).take(7) == "thread-"@,
        number(thread_stem(i).skip(7)) == i,
        i < 100 ==> thread_stem(i).len() == 9,
{
    reveal_strlit("thread-");
    decimals_told(i);
    decimals_told(j);
    assert(thread_stem(i).take(7) =~= "thread-"@);
    assert(thread_stem(i).skip(7) =~= decimal_of_two(i));
    assert(thread_stem(j).skip(7) =~= decimal_of_two(j));
}

/// The files of a directory of checkpoints are all different: the latest of each thread, those archived by
/// their time, and the description of the run. Their paths begin with the directory.
pub proof fn checkpoint_files_apart(
    dir: &str,
    i: usize,
    j: usize,
    ts: &str,
    us: &str,
    latest: (String, String),
    archived: (String, String),
    meta: String,
)
    requires
        call_ensures(thread_path, (dir, i), latest.0),
        call_ensures(thread_path, (dir, j), latest.1),
        call_ensures(thread_archive_path, (dir, i, ts), archived.0),
        call_ensures(thread_archive_path, (dir, i, us), archived.1),
        call_ensures(meta_path, (dir,), meta),
    ensures
        latest.0@ == latest.1@ <==> i == j,
        archived.0@ == archived.1@ <==> ts@ == us@,
        archived.0@ != latest.0@,
        meta@ != latest.0@,
        latest.0@.take(dir@.len() as int) == dir@,
        archived.0@.take(dir@.len() as int) == dir@,
        meta@.take(dir@.len() as int) == dir@,
{
    reveal_strlit(".json");
    reveal_strlit("-");
    reveal_strlit("meta.json");
    reveal_strlit("thread-");
    let (d, end) = (dir@, ".json"@);
    let (a, b) = (thread_stem(i as nat) + end, thread_stem(j as nat) + end);
    let (x, y) = (thread_stem(i as nat) + "-"@ + ts@ + end, thread_stem(i as nat) + "-"@ + us@ + end);
    paths_told(d, a);
    paths_told(d, x);
    paths_told(d, "meta.json"@);
    names_apart(d, a, b, d, d);
    names_apart(d, a, x, d, d);
    names_apart(d, x, y, d, d);
    names_apart(d, a, "meta.json"@, d, d);
    threads_apart(i as nat, j as nat);
    let n = thread_stem(i as nat).len() as int;
    if a == b {
        assert(a.take(a.len() - 5) =~= thread_stem(i as nat));
        assert(b.take(b.len() - 5) =~= thread_stem(j as nat));
    }
    if x == y {
        assert(x.subrange(n + 1, x.len() - 5) =~= ts@);
        assert(y.subrange(n + 1, y.len() - 5) =~= us@);
    }
    assert(a.len() < x.len());
    assert(a[0] == 't') by {
        assert(a[0] == thread_stem(i as nat)[0]);
        assert(thread_stem(i as nat).take(7)[0] == thread_stem(i as nat)[0]);
    }
    assert("meta.json"@[0] == 'm');
}

/// A character stands for the key of its first entry, and for none if it has no entry.
pub proof fn layout_told(chars: Seq<(char, usize)>, c: char)
    ensures
        match first_key(chars, c) {
            Some(k) => exists|i: int|
                #![trigger chars[i]]
                {
                    &&& 0 <= i < chars.len()
                    &&& chars[i] == (c, k)
                    &&& forall|j: int| 0 <= j < i ==> (#[trigger] chars[j]).0 != c
                },
            None => forall|i: int| 0 <= i < chars.len() ==> (#[trigger] chars[i]).0 != c,
        },
    decreases chars.len(),
{
    if chars.len() > 0 && chars[0].0 != c {
        let rest = chars.skip(1);
        layout_told(rest, c);
        match first_key(rest, c) {
            Some(k) => {
                let i = choose|i: int|
                    #![trigger rest[i]]
                    {
                        &&& 0 <= i < rest.len()
                        &&& rest[i] == (c, k)
                        &&& forall|j: int| 0 <= j < i ==> (#[trigger] rest[j]).0 != c
                    };
                assert(chars[i + 1] == rest[i]);
                assert forall|j: int| 0 <= j < i + 1 implies (#[trigger] chars[j]).0 != c by {
                    if j > 0 {
                        assert(rest[j - 1] == chars[j]);
                    }
                }
            },
            None => {
                assert forall|i: int| 0 <= i < chars.len() implies (#[trigger] chars[i]).0 != c by {
                    if i > 0 {
                        assert(rest[i - 1] == chars[i]);
                    }
                }
            },
        }
    } else if chars.len() > 0 {
        let x = chars[0];
    }
}

/// A store is dense up to its limit and sparse beyond, whatever the limit.
pub proof fn backends_told(capacity: usize, limit: usize)
    ensures
        backend_for(limit, limit) == BackendKind::Dense,
        limit < usize::MAX ==> backend_for((limit + 1) as usize, limit) == BackendKind::Sparse,
        forall|c: usize|
            c <= capacity && backend_for(capacity, limit) == BackendKind::Dense ==> #[trigger] backend_for(c, limit)
                == BackendKind::Dense,
        forall|c: usize|
            c >= capacity && backend_for(capacity, limit) == BackendKind::Sparse ==> #[trigger] backend_for(
                c,
                limit,
            ) == BackendKind::Sparse,
{
}

/// The megabytes of a dense store are the whole ones that its slots fill, as far as that can be counted.
pub proof fn megabytes_told(capacity: usize, elem_size: usize)
    ensures
        ({
            let mb = dense_megabytes(capacity, elem_size);
            &&& mb * 1_048_576 <= capacity * elem_size
            &&& capacity * elem_size <= usize::MAX ==> capacity * elem_size < (mb + 1) * 1_048_576
            &&& mb * 1_048_576 <= usize::MAX
        }),
{
    assert(0 <= capacity * elem_size) by (nonlinear_arith);
}

} // verus!
