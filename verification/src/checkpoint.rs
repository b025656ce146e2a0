//! Where checkpoints are kept, and which of them can be read.

use vstd::prelude::*;

use crate::fsutil::{archive_target, suffixed};
use crate::text::{decimal_of_two, dir_prefix, joined, push_decimal_of_two};

verus! {

/// The version of the checkpoint format.
pub const CHECKPOINT_VERSION: u32 = 1;

/// Calls `chrono::Local::now` and formats the time that it returns with `%Y%m%d-%H%M%S%.3f`: the
/// date and time to the millisecond. Nothing is claimed of the text, which depends on the clock and
/// the time zone.
#[verifier::external_body]
pub fn now_timestamp_ms() -> (r: String) {
    chrono::Local::now().format("%Y%m%d-%H%M%S%.3f").to_string()
}

/// The name of a thread's checkpoint file, without `.json`.
pub open spec fn thread_stem(thread_id: nat) -> Seq<char> {
    "thread-"@ + decimal_of_two(thread_id)
}

/// The directory of the checkpoints: `checkpoint` in the output directory.
pub fn checkpoint_dir(output_dir: &str) -> (r: String)
    ensures
        r@ == joined(output_dir@, "checkpoint"@),
{
    let mut s = dir_prefix(output_dir);
    assert(joined(output_dir@, "checkpoint"@) == s@ + "checkpoint"@);
    s.append("checkpoint");
    s
}

/// The path of a thread's latest checkpoint: `thread-NN.json`.
pub fn thread_path(ckpt_dir: &str, thread_id: usize) -> (r: String)
    ensures
        r@ == joined(ckpt_dir@, thread_stem(thread_id as nat) + ".json"@),
{
    let mut s = dir_prefix(ckpt_dir);
    let ghost name = thread_stem(thread_id as nat) + ".json"@;
    let ghost dir = s@;
    assert(joined(ckpt_dir@, name) == dir + name);
    s.append("thread-");
    push_decimal_of_two(&mut s, thread_id);
    s.append(".json");
    assert(s@ =~= dir + name);
    s
}

/// The path of an archived checkpoint of a thread: `thread-NN-TS.json`.
pub fn thread_archive_path(ckpt_dir: &str, thread_id: usize, ts: &str) -> (r: String)
    ensures
        r@ == joined(ckpt_dir@, thread_stem(thread_id as nat) + "-"@ + ts@ + ".json"@),
{
    let mut s = dir_prefix(ckpt_dir);
    let ghost name = thread_stem(thread_id as nat) + "-"@ + ts@ + ".json"@;
    let ghost dir = s@;
    assert(joined(ckpt_dir@, name) == dir + name);
    s.append("thread-");
    push_decimal_of_two(&mut s, thread_id);
    s.append("-");
    s.append(ts);
    s.append(".json");
    assert(s@ =~= dir + name);
    s
}

/// The path of the run's description: `meta.json`.
pub fn meta_path(ckpt_dir: &str) -> (r: String)
    ensures
        r@ == joined(ckpt_dir@, "meta.json"@),
{
    let mut s = dir_prefix(ckpt_dir);
    assert(joined(ckpt_dir@, "meta.json"@) == s@ + "meta.json"@);
    s.append("meta.json");
    s
}

/// Where a thread's checkpoint has to be moved before the next is written: nowhere if there is
/// none. Otherwise to the archive path of its own timestamp, or, where that is not known, to its own
/// path with `.` and the current time behind it.
pub fn checkpoint_archive(
    ckpt_dir: &str,
    thread_id: usize,
    prev_ts: Option<&str>,
    exists: bool,
) -> (r: Option<String>)
    ensures
        r is Some <==> exists,
        exists ==> match prev_ts {
            Some(ts) => r->0@ == joined(
                ckpt_dir@,
                thread_stem(thread_id as nat) + "-"@ + ts@ + ".json"@,
            ),
            None => exists|now: Seq<char>|
                r->0@ == #[trigger] suffixed(
                    joined(ckpt_dir@, thread_stem(thread_id as nat) + ".json"@),
                    now,
                ),
        },
{
    match prev_ts {
        Some(ts) => if exists {
            Some(thread_archive_path(ckpt_dir, thread_id, ts))
        } else {
            None
        },
        None => {
            let canonical = thread_path(ckpt_dir, thread_id);
            archive_target(canonical.as_str(), exists)
        },
    }
}

/// Whether a run's description can be read: its version is the current one. The error is the
/// version found.
pub fn check_version(version: u32) -> (r: Result<(), u32>)
    ensures
        r is Ok <==> version == CHECKPOINT_VERSION,
        r matches Err(v) ==> v == version,
{
    if version != CHECKPOINT_VERSION {
        Err(version)
    } else {
        Ok(())
    }
}

} // verus!
