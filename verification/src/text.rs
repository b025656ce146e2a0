//! Pieces of text: white space, decimal numerals, and paths.

use vstd::prelude::*;

verus! {

/// Whether a character has the Unicode property White_Space.
pub open spec fn white_space(c: char) -> bool {
    ||| '\u{9}' <= c <= '\u{d}'
    ||| c == ' '
    ||| c == '\u{85}'
    ||| c == '\u{a0}'
    ||| c == '\u{1680}'
    ||| '\u{2000}' <= c <= '\u{200a}'
    ||| c == '\u{2028}'
    ||| c == '\u{2029}'
    ||| c == '\u{202f}'
    ||| c == '\u{205f}'
    ||| c == '\u{3000}'
}

/// Whether a character has the Unicode property White_Space.
fn is_white_space(c: char) -> (r: bool)
    ensures
        r == white_space(c),
{
    ('\u{9}' <= c && c <= '\u{d}') || c == ' ' || c == '\u{85}' || c == '\u{a0}' || c == '\u{1680}' || (
    '\u{2000}' <= c && c <= '\u{200a}') || c == '\u{2028}' || c == '\u{2029}' || c == '\u{202f}' || c
        == '\u{205f}' || c == '\u{3000}'
}

/// Text without the white space at its start.
pub open spec fn trimmed_start(s: Seq<char>) -> Seq<char>
    decreases s.len(),
{
    if s.len() > 0 && white_space(s[0]) {
        trimmed_start(s.skip(1))
    } else {
        s
    }
}

/// Text without the white space at its end.
pub open spec fn trimmed_end(s: Seq<char>) -> Seq<char>
    decreases s.len(),
{
    if s.len() > 0 && white_space(s.last()) {
        trimmed_end(s.drop_last())
    } else {
        s
    }
}

/// Text without the white space at its start and end.
pub open spec fn trimmed(s: Seq<char>) -> Seq<char> {
    trimmed_end(trimmed_start(s))
}

/// The characters of a text.
pub fn chars_of(s: &str) -> (r: Vec<char>)
    ensures
        r@ == s@,
{
    let n = s.unicode_len();
    let mut r: Vec<char> = Vec::new();
    let mut i: usize = 0;
    while i < n
        invariant
            i <= n == s@.len(),
            r@ == s@.take(i as int),
        decreases n - i,
    {
        r.push(s.get_char(i));
        assert(s@.take(i as int).push(s@[i as int]) =~= s@.take(i + 1));
        i = i + 1;
    }
    assert(s@.take(n as int) =~= s@);
    r
}

/// The characters of a text without the white space at its start and end.
pub fn trimmed_chars(s: &str) -> (r: Vec<char>)
    ensures
        r@ == trimmed(s@),
{
    let all = chars_of(s);
    let n = all.len();
    let mut i: usize = 0;
    assert(all@.skip(0) =~= all@);
    while i < n && is_white_space(all[i])
        invariant
            i <= n == all@.len(),
            trimmed_start(all@) == trimmed_start(all@.skip(i as int)),
        decreases n - i,
    {
        assert(all@.skip(i as int)[0] == all@[i as int]);
        assert(all@.skip(i as int).skip(1) =~= all@.skip(i + 1));
        i = i + 1;
    }
    let ghost front = all@.skip(i as int);
    assert(trimmed_start(all@) == front) by {
        if i < n {
            assert(front[0] == all@[i as int]);
        }
    }
    let mut j: usize = n;
    assert(all@.subrange(i as int, j as int) =~= front);
    while j > i && is_white_space(all[j - 1])
        invariant
            i <= j <= n == all@.len(),
            trimmed_end(front) == trimmed_end(all@.subrange(i as int, j as int)),
        decreases j,
    {
        assert(all@.subrange(i as int, j as int).last() == all@[j - 1]);
        assert(all@.subrange(i as int, j as int).drop_last() =~= all@.subrange(i as int, j - 1));
        j = j - 1;
    }
    let ghost core = all@.subrange(i as int, j as int);
    assert(trimmed_end(front) == core) by {
        if j > i {
            assert(core.last() == all@[j - 1]);
        }
    }
    let mut r: Vec<char> = Vec::new();
    let mut k: usize = i;
    while k < j
        invariant
            i <= k <= j <= all@.len(),
            r@ == all@.subrange(i as int, k as int),
        decreases j - k,
    {
        r.push(all[k]);
        assert(all@.subrange(i as int, k as int).push(all@[k as int]) =~= all@.subrange(
            i as int,
            k + 1,
        ));
        k = k + 1;
    }
    r
}

/// Whether a character, as a small letter if it is an ASCII capital, is `w`.
pub open spec fn reads_as(c: char, w: char) -> bool {
    if 'A' <= c <= 'Z' {
        c as u32 + 32 == w as u32
    } else {
        c as u32 == w as u32
    }
}

/// Whether a text, its ASCII capitals as small letters, reads like `word`.
pub open spec fn reads_like(s: Seq<char>, word: Seq<char>) -> bool {
    &&& s.len() == word.len()
    &&& forall|i: int| #![trigger s[i]] 0 <= i < s.len() ==> reads_as(s[i], word[i])
}

/// Whether a text, its ASCII capitals as small letters, reads like `word`.
pub fn is_like(s: &Vec<char>, word: &str) -> (r: bool)
    ensures
        r == reads_like(s@, word@),
{
    let w = chars_of(word);
    if s.len() != w.len() {
        return false;
    }
    let mut i: usize = 0;
    while i < s.len()
        invariant
            i <= s@.len() == w@.len(),
            w@ == word@,
            forall|j: int| #![trigger s@[j]] 0 <= j < i ==> reads_as(s@[j], w@[j]),
        decreases s@.len() - i,
    {
        let c = s[i] as u32;
        let d = w[i] as u32;
        let same = if 'A' <= s[i] && s[i] <= 'Z' {
            c + 32 == d
        } else {
            c == d
        };
        assert(same == reads_as(s@[i as int], w@[i as int]));
        if !same {
            return false;
        }
        i = i + 1;
    }
    true
}

/// The character of a decimal digit.
pub open spec fn digit(d: nat) -> char {
    (48 + d) as char
}

/// A number in decimal.
pub open spec fn decimal(n: nat) -> Seq<char>
    decreases n,
{
    if n < 10 {
        seq![digit(n)]
    } else {
        decimal(n / 10).push(digit(n % 10))
    }
}

/// A number in decimal, with a zero before a single digit.
pub open spec fn decimal_of_two(n: nat) -> Seq<char> {
    if n < 10 {
        seq!['0', digit(n)]
    } else {
        decimal(n)
    }
}

fn push_digit(s: &mut String, d: usize)
    requires
        d < 10,
    ensures
        final(s)@ == old(s)@.push(digit(d as nat)),
{
    proof {
        reveal_strlit("0");
        reveal_strlit("1");
        reveal_strlit("2");
        reveal_strlit("3");
        reveal_strlit("4");
        reveal_strlit("5");
        reveal_strlit("6");
        reveal_strlit("7");
        reveal_strlit("8");
        reveal_strlit("9");
    }
    let t: &str = match d {
        0 => "0",
        1 => "1",
        2 => "2",
        3 => "3",
        4 => "4",
        5 => "5",
        6 => "6",
        7 => "7",
        8 => "8",
        _ => "9",
    };
    assert(t@ =~= seq![digit(d as nat)]);
    s.append(t);
    assert(s@ =~= old(s)@.push(digit(d as nat)));
}

/// Writes a number in decimal.
pub fn push_decimal(s: &mut String, n: usize)
    ensures
        final(s)@ == old(s)@ + decimal(n as nat),
    decreases n,
{
    if n >= 10 {
        push_decimal(s, n / 10);
    }
    push_digit(s, n % 10);
    proof {
        if n >= 10 {
            assert(s@ =~= old(s)@ + decimal(n as nat));
        } else {
            assert(s@ =~= old(s)@ + decimal(n as nat));
        }
    }
}

/// Writes a number in decimal, with a zero before a single digit.
pub fn push_decimal_of_two(s: &mut String, n: usize)
    ensures
        final(s)@ == old(s)@ + decimal_of_two(n as nat),
{
    if n < 10 {
        push_digit(s, 0);
        push_digit(s, n);
        assert(s@ =~= old(s)@ + decimal_of_two(n as nat));
    } else {
        push_decimal(s, n);
    }
}

/// The path of a file in a directory, with `/` between them.
pub open spec fn joined(dir: Seq<char>, name: Seq<char>) -> Seq<char> {
    if dir.len() == 0 || dir.last() == '/' {
        dir + name
    } else {
        dir.push('/') + name
    }
}

/// The path of a directory, ready for the name of a file in it.
pub fn dir_prefix(dir: &str) -> (s: String)
    ensures
        forall|name: Seq<char>| #[trigger] joined(dir@, name) == s@ + name,
{
    let mut s: String = String::from_str(dir);
    let n = dir.unicode_len();
    if n > 0 && dir.get_char(n - 1) != '/' {
        proof {
            reveal_strlit("/");
        }
        s.append("/");
        assert(s@ =~= dir@.push('/'));
    }
    s
}

} // verus!
