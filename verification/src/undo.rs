//! Logs of overwritten entries, and playing them back.

use rustc_hash::FxHashMap;
use vstd::prelude::*;

use crate::fx::{fx_get, fx_insert, fx_remove};

verus! {

/// What a map holds under a key.
pub open spec fn found<V>(m: Map<u32, V>, c: u32) -> Option<V> {
    if m.contains_key(c) {
        Some(m[c])
    } else {
        None
    }
}

/// A map with an entry written or deleted.
pub open spec fn put<V>(m: Map<u32, V>, c: u32, v: Option<V>) -> Map<u32, V> {
    match v {
        Some(x) => m.insert(c, x),
        None => m.remove(c),
    }
}

/// A map before the writes of a log, whose entries say what was under a key before each.
pub open spec fn unwound<V>(log: Seq<(u32, Option<V>)>, m: Map<u32, V>) -> Map<u32, V>
    decreases log.len(),
{
    if log.len() == 0 {
        m
    } else {
        unwound(log.drop_last(), put(m, log.last().0, log.last().1))
    }
}

/// A write that is logged leads back to the same start.
pub proof fn unwound_step<V>(log: Seq<(u32, Option<V>)>, m: Map<u32, V>, c: u32, v: Option<V>)
    ensures
        unwound(log.push((c, found(m, c))), put(m, c, v)) == unwound(log, m),
{
    let longer = log.push((c, found(m, c)));
    assert(longer.drop_last() =~= log);
    assert(put(put(m, c, v), c, found(m, c)) =~= m);
}

/// A sequence before the writes of a log, whose entries say what was at a place before each.
pub open spec fn unwound_entries<T>(log: Seq<(usize, T)>, s: Seq<T>) -> Seq<T>
    decreases log.len(),
{
    if log.len() == 0 {
        s
    } else {
        unwound_entries(log.drop_last(), s.update(log.last().0 as int, log.last().1))
    }
}

/// A write that is logged leads back to the same start.
pub proof fn unwound_entries_step<T>(log: Seq<(usize, T)>, s: Seq<T>, i: usize, v: T)
    requires
        i < s.len(),
    ensures
        unwound_entries(log.push((i, s[i as int])), s.update(i as int, v)) == unwound_entries(log, s),
{
    let longer = log.push((i, s[i as int]));
    assert(longer.drop_last() =~= log);
    assert(s.update(i as int, v).update(i as int, s[i as int]) =~= s);
}

/// What a map holds under a key.
pub(crate) fn fx_found<V: Copy>(m: &FxHashMap<u32, V>, c: u32) -> (r: Option<V>)
    ensures
        r == found(m@, c),
{
    match fx_get(m, c) {
        Some(v) => Some(*v),
        None => None,
    }
}

/// Writes or deletes an entry.
pub(crate) fn fx_put<V>(m: &mut FxHashMap<u32, V>, c: u32, v: Option<V>)
    ensures
        final(m)@ == put(old(m)@, c, v),
{
    match v {
        Some(x) => fx_insert(m, c, x),
        None => fx_remove(m, c),
    }
}

/// Takes back the writes of a log, the last first.
pub(crate) fn unwind<V: Copy>(m: &mut FxHashMap<u32, V>, log: &Vec<(u32, Option<V>)>)
    ensures
        final(m)@ == unwound(log@, old(m)@),
{
    let mut k: usize = log.len();
    assert(log@.take(k as int) =~= log@);
    while k > 0
        invariant
            k <= log@.len(),
            unwound(log@.take(k as int), m@) == unwound(log@, old(m)@),
        decreases k,
    {
        let (c, v) = log[k - 1];
        assert(log@.take(k as int).drop_last() =~= log@.take(k - 1));
        fx_put(m, c, v);
        k = k - 1;
    }
}

/// Takes back the writes of a log, the last first.
pub(crate) fn unwind_entries(s: &mut Vec<u32>, log: &Vec<(usize, u32)>)
    requires
        forall|i: int| 0 <= i < log@.len() ==> (#[trigger] log@[i]).0 < old(s)@.len(),
    ensures
        final(s)@ == unwound_entries(log@, old(s)@),
{
    let mut k: usize = log.len();
    assert(log@.take(k as int) =~= log@);
    while k > 0
        invariant
            k <= log@.len(),
            s@.len() == old(s)@.len(),
            forall|i: int| 0 <= i < log@.len() ==> (#[trigger] log@[i]).0 < old(s)@.len(),
            unwound_entries(log@.take(k as int), s@) == unwound_entries(log@, old(s)@),
        decreases k,
    {
        let (i, v) = log[k - 1];
        assert(log@[k - 1].0 < s@.len());
        assert(log@.take(k as int).drop_last() =~= log@.take(k - 1));
        s.set(i, v);
        k = k - 1;
    }
}

} // verus!
