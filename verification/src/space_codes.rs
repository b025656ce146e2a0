//! Fixed codes that end in `_`: they are committed with the space key, so that they belong on a level
//! that commits with it.

use vstd::prelude::*;

use crate::builder::{are_level_lens, built, built_fixed, level_lens, longest_steps};
use crate::context::OptContext;
use crate::fixed::{
    accepted_codes, char_index, desc_of, find_char, find_level, fixed_desc, has_key, level_for, read_keys, written_keys,
};
use crate::scheme::Scheme;
use crate::text::chars_of;
use crate::types::SimpleCodeLevel;

verus! {

/// Whether a code asks for the space key.
pub open spec fn asks_for_space(code: Seq<char>) -> bool {
    code.len() > 0 && code.last() == '_'
}

/// Whether some level commits with a key.
pub open spec fn some_level_commits_with(levels: Seq<SimpleCodeLevel>, k: u8) -> bool {
    exists|li: int| 0 <= li < levels.len() && (#[trigger] levels[li]).commit_keys@.contains(k)
}

/// Whether a code with `keys` finds no space key to be committed with: the level that it counts for
/// does not commit with it or, where it counts for none, no level does.
pub open spec fn lacks_space(levels: Seq<SimpleCodeLevel>, lens: Seq<usize>, space: u8, keys: Seq<u8>) -> bool {
    match level_for(levels, lens, keys) {
        Some(li) => !levels[li].commit_keys@.contains(space),
        None => !some_level_commits_with(levels, space),
    }
}

/// The lengths of the longest simple codes of a scheme, level by level.
pub open spec fn scheme_lens(scheme: Scheme) -> Seq<usize> {
    Seq::new(
        scheme.simple_config.levels@.len(),
        |li: int| longest_steps(scheme.char_simple_infos@, li, scheme.char_simple_infos@.len()) as usize,
    )
}

/// Whether a fixed code is a mistake in the scheme: a known character's code that ends in `_` and
/// finds no space key to be committed with.
pub open spec fn space_misplaced(scheme: Scheme, entry: (char, String)) -> bool {
    &&& scheme.enable_simple_code
    &&& char_index(scheme.splits@, entry.0) is Some
    &&& asks_for_space(entry.1@)
    &&& written_keys(&scheme.layout, entry.1@) matches Some(keys) && lacks_space(
        scheme.simple_config.levels@,
        scheme_lens(scheme),
        scheme.layout.space,
        keys,
    )
}

/// Whether some level commits with a key.
fn commits_somewhere(levels: &Vec<SimpleCodeLevel>, k: u8) -> (r: bool)
    ensures
        r == some_level_commits_with(levels@, k),
{
    let mut li: usize = 0;
    while li < levels.len()
        invariant
            li <= levels@.len(),
            forall|l: int| 0 <= l < li ==> !(#[trigger] levels@[l]).commit_keys@.contains(k),
        decreases levels@.len() - li,
    {
        if has_key(&levels[li].commit_keys, k) {
            assert(levels@[li as int].commit_keys@.contains(k));
            return true;
        }
        li = li + 1;
    }
    false
}

/// Whether a fixed code ends in `_` and finds no space key to be committed with.
fn is_misplaced(scheme: &Scheme, lens: &Vec<usize>, entry: &(char, String)) -> (r: bool)
    requires
        scheme.enable_simple_code,
        lens@ == scheme_lens(*scheme),
    ensures
        r == space_misplaced(*scheme, *entry),
{
    let chars = chars_of(entry.1.as_str());
    if chars.len() == 0 || chars[chars.len() - 1] != '_' {
        return false;
    }
    match (find_char(&scheme.splits, entry.0), read_keys(&scheme.layout, &entry.1)) {
        (Some(_ci), Some(keys)) => {
            assert(keys@.len() > 0);
            match find_level(&scheme.simple_config.levels, lens, &keys) {
                Some(li) => !has_key(&scheme.simple_config.levels[li].commit_keys, scheme.layout.space),
                None => !commits_somewhere(&scheme.simple_config.levels, scheme.layout.space),
            }
        },
        _ => false,
    }
}

/// The first fixed code that ends in `_` though its level does not commit with the space key.
pub fn find_misplaced_space(scheme: &Scheme, fixed_simple_codes: &Vec<(char, String)>) -> (r: Option<usize>)
    ensures
        match r {
            Some(i) => {
                &&& i < fixed_simple_codes@.len()
                &&& space_misplaced(*scheme, fixed_simple_codes@[i as int])
                &&& forall|j: int|
                    0 <= j < i ==> !space_misplaced(*scheme, #[trigger] fixed_simple_codes@[j])
            },
            None => forall|j: int|
                0 <= j < fixed_simple_codes@.len() ==> !space_misplaced(
                    *scheme,
                    #[trigger] fixed_simple_codes@[j],
                ),
        },
{
    if !scheme.enable_simple_code {
        return None;
    }
    let lens = level_lens(&scheme.char_simple_infos, scheme.simple_config.levels.len());
    assert(lens@ =~= scheme_lens(*scheme));
    let mut i: usize = 0;
    while i < fixed_simple_codes.len()
        invariant
            i <= fixed_simple_codes@.len(),
            scheme.enable_simple_code,
            lens@ == scheme_lens(*scheme),
            forall|j: int| 0 <= j < i ==> !space_misplaced(*scheme, #[trigger] fixed_simple_codes@[j]),
        decreases fixed_simple_codes@.len() - i,
    {
        if is_misplaced(scheme, &lens, &fixed_simple_codes[i]) {
            return Some(i);
        }
        i = i + 1;
    }
    None
}

/// A fixed code that counts and ends in `_`, taken from entries of which none is misplaced, finds
/// the space key.
proof fn accepted_find_space(ctx: &OptContext, scheme: Scheme, lens: Seq<usize>, entries: Seq<(char, String)>, j: int)
    requires
        scheme.enable_simple_code,
        ctx.layout == scheme.layout,
        ctx.simple_config == scheme.simple_config,
        lens == scheme_lens(scheme),
        forall|i: int| 0 <= i < entries.len() ==> !space_misplaced(scheme, #[trigger] entries[i]),
        0 <= j < accepted_codes(
            ctx.layout,
            ctx.simple_config.levels@,
            ctx.char_infos@,
            scheme.splits@,
            lens,
            entries,
        ).len(),
    ensures
        ({
            let code = accepted_codes(
                ctx.layout,
                ctx.simple_config.levels@,
                ctx.char_infos@,
                scheme.splits@,
                lens,
                entries,
            )[j];
            asks_for_space(code.text) ==> match code.li {
                Some(li) => ctx.simple_config.levels@[li].commit_keys@.contains(ctx.layout.space),
                None => some_level_commits_with(ctx.simple_config.levels@, ctx.layout.space),
            }
        }),
    decreases entries.len(),
{
    let levels = ctx.simple_config.levels@;
    let front = accepted_codes(ctx.layout, levels, ctx.char_infos@, scheme.splits@, lens, entries.drop_last());
    let x = entries[entries.len() - 1];
    assert forall|i: int| 0 <= i < entries.drop_last().len() implies !space_misplaced(
        scheme,
        #[trigger] entries.drop_last()[i],
    ) by {
        let y = entries[i];
    }
    if j < front.len() {
        accepted_find_space(ctx, scheme, lens, entries.drop_last(), j);
    } else {
        let d = fixed_desc(ctx.layout, levels, ctx.char_infos@, scheme.splits@, lens, x, front);
        assert(!space_misplaced(scheme, x));
    }
}

/// In a context whose fixed codes are all well placed, a fixed code that ends in `_` counts for a
/// level that commits with the space key or, where it counts for none, some level does.
pub proof fn space_codes_find_space(ctx: &OptContext, scheme: Scheme, entries: Seq<(char, String)>, j: int)
    requires
        ctx.wf_simple(),
        built(ctx, scheme, entries),
        forall|i: int| 0 <= i < entries.len() ==> !space_misplaced(scheme, #[trigger] entries[i]),
        0 <= j < ctx.simple_fixed_codes@.len(),
        asks_for_space(ctx.simple_fixed_codes@[j].code_str@),
    ensures
        match ctx.simple_fixed_codes@[j].li {
            Some(li) => ctx.simple_config.levels@[li as int].commit_keys@.contains(ctx.layout.space),
            None => some_level_commits_with(ctx.simple_config.levels@, ctx.layout.space),
        },
{
    let lens = choose|lens: Seq<usize>| #[trigger] built_fixed(ctx, scheme, lens, entries);
    assert(are_level_lens(lens, scheme.char_simple_infos@, scheme.simple_config.levels@.len()));
    assert(lens =~= scheme_lens(scheme));
    if scheme.enable_simple_code {
        accepted_find_space(ctx, scheme, lens, entries, j);
        assert(desc_of(ctx.simple_fixed_codes@[j]).text == ctx.simple_fixed_codes@[j].code_str@);
    }
}

} // verus!
