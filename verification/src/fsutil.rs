//! Names for files that would otherwise be overwritten.

use vstd::prelude::*;

use crate::checkpoint::now_timestamp_ms;

verus! {

/// The path of an archived file.
pub open spec fn suffixed(path: Seq<char>, ts: Seq<char>) -> Seq<char> {
    path.push('.') + ts
}

/// The path under which a file is archived: its own with `.` and the timestamp behind it.
pub fn with_timestamp_suffix(path: &str, ts: &str) -> (r: String)
    ensures
        r@ == suffixed(path@, ts@),
{
    let mut s: String = String::from_str(path);
    proof {
        reveal_strlit(".");
    }
    s.append(".");
    s.append(ts);
    assert(s@ =~= suffixed(path@, ts@));
    s
}

/// Where a file has to be moved before another is written in its place: nowhere if there is none.
/// Otherwise to its own path with `.` and the current time behind it.
pub fn archive_target(path: &str, exists: bool) -> (r: Option<String>)
    ensures
        r is Some <==> exists,
        exists ==> exists|ts: Seq<char>| r->0@ == #[trigger] suffixed(path@, ts),
{
    if exists {
        let ts = now_timestamp_ms();
        let s = with_timestamp_suffix(path, ts.as_str());
        assert(s@ == suffixed(path@, ts@));
        Some(s)
    } else {
        None
    }
}

} // verus!
