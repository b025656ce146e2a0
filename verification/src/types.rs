//! The plain data of an encoding scheme: keys, characters, root groups and simple-code levels.

use vstd::prelude::*;

verus! {

/// The number of keys, the space key among them. Keys are the numbers below it.
pub const EQUIV_TABLE_SIZE: usize = 31;

/// A part from here on stands for a root group, counted from the marker; a part below it is a key.
pub const GROUP_MARKER: u16 = 1000;

/// The base of a code: a code is a numeral whose digits are keys plus one.
pub const CODE_BASE: usize = 32;

/// The longest code that a `u32` holds in that base.
pub const MAX_CODE_LEN: usize = 6;

/// The hand that presses a key.
#[derive(Clone, Copy, Debug, PartialEq, Eq, Structural)]
pub enum Hand {
    Left,
    Right,
    Neither,
}

/// How the characters of a simple-code bucket are ranked.
#[derive(Clone, Copy, Debug, PartialEq, Eq, Structural)]
pub enum SimpleAssignMode {
    /// By the key strokes saved, weighted by frequency.
    Efficiency,
    /// By frequency alone.
    Frequency,
}

/// The keyboard: which key a character of a code stands for, which key is the space bar, and which
/// hand presses each key.
#[derive(Clone, Debug)]
pub struct KeyLayout {
    /// The characters that codes are written with, each with its key.
    pub chars: Vec<(char, usize)>,
    /// The space key.
    pub space: u8,
    /// The hand of each key.
    pub hands: Vec<Hand>,
}

impl KeyLayout {
    /// The space key is a key, and every key has a hand.
    pub open spec fn wf(&self) -> bool {
        &&& self.space < EQUIV_TABLE_SIZE
        &&& self.hands@.len() == EQUIV_TABLE_SIZE
    }

    /// The hand of key `k`; no hand presses what is not a key.
    pub open spec fn hand_of(&self, k: u8) -> Hand {
        if k < self.hands@.len() {
            self.hands@[k as int]
        } else {
            Hand::Neither
        }
    }

    /// The hand of key `k`.
    pub fn key_hand(&self, k: u8) -> (h: Hand)
        ensures
            h == self.hand_of(k),
    {
        if (k as usize) < self.hands.len() {
            self.hands[k as usize]
        } else {
            Hand::Neither
        }
    }

    /// The key that `c` stands for: that of its first entry.
    pub open spec fn key_of_char(&self, c: char) -> Option<usize> {
        first_key(self.chars@, c)
    }

    /// The key that `c` stands for, or `None` where it stands for none.
    pub fn char_to_key_index(&self, c: char) -> (r: Option<usize>)
        ensures
            r == self.key_of_char(c),
    {
        let mut i: usize = 0;
        assert(self.chars@.skip(0) =~= self.chars@);
        while i < self.chars.len()
            invariant
                i <= self.chars@.len(),
                first_key(self.chars@, c) == first_key(self.chars@.skip(i as int), c),
            decreases self.chars@.len() - i,
        {
            assert(self.chars@.skip(i as int)[0] == self.chars@[i as int]);
            if self.chars[i].0 == c {
                return Some(self.chars[i].1);
            }
            assert(self.chars@.skip(i as int).skip(1) =~= self.chars@.skip(i + 1));
            i = i + 1;
        }
        None
    }
}

/// The key of the first entry for `c`.
pub open spec fn first_key(chars: Seq<(char, usize)>, c: char) -> Option<usize>
    decreases chars.len(),
{
    if chars.len() == 0 {
        None
    } else if chars[0].0 == c {
        Some(chars[0].1)
    } else {
        first_key(chars.skip(1), c)
    }
}

/// A character's full-code parts and its frequency.
#[derive(Clone, Debug)]
pub struct CharInfo {
    pub parts: Vec<u16>,
    pub frequency: u64,
}

/// The code of one logical root, as parts.
#[derive(Clone, Debug)]
pub struct LogicalRoot {
    pub full_code_parts: Vec<u16>,
}

/// What the simple codes of a character are made of. An instruction picks part `.1` of logical
/// root `.0`; a level without instructions gives the character no simple code.
#[derive(Clone, Debug)]
pub struct CharSimpleInfo {
    pub logical_roots: Vec<LogicalRoot>,
    pub level_instructions: Vec<Option<Vec<(usize, usize)>>>,
}

/// Roots that move together, and the keys they may be put on.
#[derive(Clone, Debug)]
pub struct RootGroup {
    pub roots: Vec<String>,
    pub allowed_keys: Vec<u8>,
}

/// One step of a simple-code rule.
#[derive(Clone, Copy, Debug, PartialEq, Eq, Structural)]
pub struct SimpleCodeStep {
    pub root_selector: char,
    pub code_selector: char,
}

/// One simple-code level.
#[derive(Clone, Debug)]
pub struct SimpleCodeLevel {
    /// The number that the configuration gives the level.
    pub level: usize,
    /// How many characters may share one simple code.
    pub code_num: usize,
    /// The rules, tried in order.
    pub rule_candidates: Vec<Vec<SimpleCodeStep>>,
    /// The keys that commit a code of this level; none if the code commits itself.
    pub commit_keys: Vec<u8>,
    /// The commit keys in order of preference after a key of the left hand.
    pub commit_pref_last_left: Vec<u8>,
    /// The commit keys in order of preference after any other key.
    pub commit_pref_last_right: Vec<u8>,
    /// Whether a letter may not commit after a key of its own hand.
    pub commit_alt_hand_only: bool,
}

impl SimpleCodeLevel {
    /// Whether codes of this level end in a commit key.
    pub open spec fn commits(&self) -> bool {
        self.commit_keys@.len() > 0
    }

    /// Whether codes of this level end in a commit key.
    pub fn has_commit(&self) -> (r: bool)
        ensures
            r == self.commits(),
    {
        self.commit_keys.len() > 0
    }
}

/// The simple-code levels, lowest first.
#[derive(Clone, Debug)]
pub struct SimpleCodeConfig {
    pub levels: Vec<SimpleCodeLevel>,
}

/// A simple code that a character has whatever the assignment is.
#[derive(Clone, Debug)]
pub struct FixedSimpleCode {
    /// The character.
    pub ci: usize,
    /// The level it counts for, if any.
    pub li: Option<usize>,
    /// Its keys without the commit key.
    pub keys: Vec<u8>,
    /// Its commit key, if any.
    pub commit_key: Option<u8>,
    /// The code as it was written.
    pub code_str: String,
}

} // verus!
