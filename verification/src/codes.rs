//! Codes: numerals in base [`CODE_BASE`] whose digits are keys plus one.

use vstd::arithmetic::power::{lemma_pow0, lemma_pow1, lemma_pow_adds, lemma_pow_increases, lemma_pow_positive, pow};
use vstd::prelude::*;

use crate::types::{CODE_BASE, EQUIV_TABLE_SIZE, GROUP_MARKER, MAX_CODE_LEN};

verus! {

/// The code of a sequence of keys.
pub open spec fn encode(keys: Seq<u8>) -> nat
    decreases keys.len(),
{
    if keys.len() == 0 {
        0
    } else {
        encode(keys.drop_last()) * 32 + (keys.last() as nat + 1)
    }
}

/// Whether every element is a key.
pub open spec fn are_keys(keys: Seq<u8>) -> bool {
    forall|i: int| 0 <= i < keys.len() ==> (#[trigger] keys[i]) < EQUIV_TABLE_SIZE
}

/// The number of codes of up to `len` keys, and one: every such code is smaller.
pub open spec fn space(len: nat) -> nat {
    pow(32, len) as nat
}

/// The powers of the base.
pub proof fn space_step(len: nat)
    ensures
        space(0) == 1,
        space(len + 1) == 32 * space(len),
        space(len) > 0,
{
    lemma_pow0(32);
    lemma_pow1(32);
    lemma_pow_adds(32, len, 1);
    lemma_pow_positive(32, len);
    assert(pow(32, len) * 32 == 32 * pow(32, len)) by (nonlinear_arith);
}

/// The powers of the base grow.
pub proof fn space_monotone(a: nat, b: nat)
    requires
        a <= b,
    ensures
        space(a) <= space(b),
{
    lemma_pow_increases(32, a, b);
    lemma_pow_positive(32, a);
}

/// The powers of the base that codes need.
pub proof fn space_values()
    ensures
        space(0) == 1,
        space(1) == 32,
        space(2) == 1024,
        space(3) == 32768,
        space(4) == 1048576,
        space(5) == 33554432,
        space(6) == 1073741824,
        space(7) == 34359738368,
{
    space_step(0);
    space_step(1);
    space_step(2);
    space_step(3);
    space_step(4);
    space_step(5);
    space_step(6);
}

/// A code lies below the power of the base that its length gives.
pub proof fn encode_bound(keys: Seq<u8>)
    requires
        are_keys(keys),
    ensures
        encode(keys) < space(keys.len()),
    decreases keys.len(),
{
    if keys.len() == 0 {
        space_step(0);
    } else {
        assert(are_keys(keys.drop_last()));
        encode_bound(keys.drop_last());
        space_step((keys.len() - 1) as nat);
    }
}

/// Codes of one length are equal only for equal keys.
pub proof fn encode_injective(a: Seq<u8>, b: Seq<u8>)
    requires
        are_keys(a),
        are_keys(b),
        a.len() == b.len(),
        encode(a) == encode(b),
    ensures
        a == b,
    decreases a.len(),
{
    if a.len() > 0 {
        assert(are_keys(a.drop_last()));
        assert(are_keys(b.drop_last()));
        assert(encode(a.drop_last()) == encode(b.drop_last()) && a.last() == b.last());
        encode_injective(a.drop_last(), b.drop_last());
        assert(a =~= a.drop_last().push(a.last()));
        assert(b =~= b.drop_last().push(b.last()));
    } else {
        assert(a =~= b);
    }
}

/// Computes `base` to the power `len`, for as long as the result fits.
pub fn pow_base(len: usize) -> (r: usize)
    requires
        len <= MAX_CODE_LEN,
    ensures
        r == space(len as nat),
        r <= 1073741824,
{
    let mut r: usize = 1;
    let mut i: usize = 0;
    proof {
        space_values();
    }
    while i < len
        invariant
            i <= len <= MAX_CODE_LEN,
            r == space(i as nat),
            space(0) == 1,
            space(1) == 32,
            space(2) == 1024,
            space(3) == 32768,
            space(4) == 1048576,
            space(5) == 33554432,
            space(6) == 1073741824,
        decreases len - i,
    {
        proof {
            space_step(i as nat);
        }
        r = r * CODE_BASE;
        i = i + 1;
    }
    proof {
        space_monotone(len as nat, 6);
    }
    r
}

/// Whether `part` is a key or stands for one of `num_groups` groups.
pub open spec fn part_ok(part: u16, num_groups: nat) -> bool {
    part < EQUIV_TABLE_SIZE || GROUP_MARKER <= part < GROUP_MARKER + num_groups
}

/// The group that `part` stands for, if it stands for one.
pub open spec fn part_group(part: u16) -> Option<int> {
    if part >= GROUP_MARKER {
        Some(part - GROUP_MARKER)
    } else {
        None
    }
}

/// The key that `part` has under an assignment of keys to groups.
pub open spec fn part_key(part: u16, assignment: Seq<u8>) -> u8 {
    if part >= GROUP_MARKER {
        assignment[part - GROUP_MARKER]
    } else {
        part as u8
    }
}

/// The keys that `parts` have under an assignment.
pub open spec fn part_keys(parts: Seq<u16>, assignment: Seq<u8>) -> Seq<u8> {
    Seq::new(parts.len(), |i: int| part_key(parts[i], assignment))
}

/// Whether all `parts` are keys or stand for one of `num_groups` groups.
pub open spec fn parts_ok(parts: Seq<u16>, num_groups: nat) -> bool {
    forall|i: int| 0 <= i < parts.len() ==> part_ok(#[trigger] parts[i], num_groups)
}

/// Whether a group has one of its parts among `parts`.
pub open spec fn mentions(parts: Seq<u16>, group: int) -> bool {
    exists|i: int| 0 <= i < parts.len() && part_group(#[trigger] parts[i]) == Some(group)
}

/// Parts of the groups at hand get keys.
pub proof fn part_keys_are_keys(parts: Seq<u16>, assignment: Seq<u8>)
    requires
        parts_ok(parts, assignment.len()),
        are_keys(assignment),
    ensures
        are_keys(part_keys(parts, assignment)),
{
    assert forall|i: int| 0 <= i < parts.len() implies (#[trigger] part_keys(parts, assignment)[i])
        < EQUIV_TABLE_SIZE by {
        assert(part_ok(parts[i], assignment.len()));
    }
}

/// Parts keep their keys where no group among them moves.
pub proof fn part_keys_frame(parts: Seq<u16>, a: Seq<u8>, b: Seq<u8>)
    requires
        parts_ok(parts, a.len()),
        a.len() == b.len(),
        forall|g: int| 0 <= g < a.len() && a[g] != b[g] ==> !#[trigger] mentions(parts, g),
    ensures
        part_keys(parts, a) == part_keys(parts, b),
{
    assert forall|i: int| 0 <= i < parts.len() implies part_key(parts[i], a) == part_key(
        parts[i],
        b,
    ) by {
        assert(part_ok(parts[i], a.len()));
        if parts[i] >= GROUP_MARKER {
            let g = parts[i] - GROUP_MARKER;
            assert(part_group(parts[i]) == Some(g));
            assert(mentions(parts, g));
        }
    }
    assert(part_keys(parts, a) =~= part_keys(parts, b));
}

} // verus!
