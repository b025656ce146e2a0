//! What a run says of the stores that its buckets are kept in.

use vstd::prelude::*;

use crate::bucket_store::{backend_for, choose_backend, BackendKind, SPARSE_THRESHOLD};
use crate::text::{decimal, push_decimal};

verus! {

/// How many megabytes a dense store takes, as far as that can be counted.
pub open spec fn dense_megabytes(capacity: usize, elem_size: usize) -> int {
    let bytes = capacity * elem_size;
    if bytes > usize::MAX {
        usize::MAX as int / 1_048_576
    } else {
        bytes / 1_048_576
    }
}

/// The line for a store: its label, its kind, and the numbers behind the choice.
pub open spec fn backend_line(label: Seq<char>, capacity: usize, elem_size: usize, n_chars: usize) -> Seq<char> {
    let head = "   · "@ + label;
    let size = decimal(capacity as nat);
    let limit = decimal(SPARSE_THRESHOLD as nat);
    let mb = decimal(dense_megabytes(capacity, elem_size) as nat);
    match backend_for(capacity, SPARSE_THRESHOLD) {
        BackendKind::Dense => head + ": Dense (容量 "@ + size + " ≤ 阈值 "@ + limit + "；预估 ~"@ + mb
            + " MB/线程)"@,
        BackendKind::Sparse => head + ": Sparse (容量 "@ + size + " > 阈值 "@ + limit
            + "；Dense 将需 ~"@ + mb + " MB/线程，改用稀疏存储，内存随非空桶数 ≤ n_chars("@ + decimal(
            n_chars as nat,
        ) + ") 增长)"@,
    }
}

/// The line for a store.
pub fn backend_log_line(label: &str, capacity: usize, elem_size: usize, n_chars: usize) -> (r: String)
    ensures
        r@ == backend_line(label@, capacity, elem_size, n_chars),
{
    let bytes: usize = match capacity.checked_mul(elem_size) {
        Some(b) => b,
        None => usize::MAX,
    };
    let mb: usize = bytes / 1_048_576;
    assert(mb == dense_megabytes(capacity, elem_size));
    let mut s = String::from_str("   · ");
    s.append(label);
    match choose_backend(capacity) {
        BackendKind::Dense => {
            s.append(": Dense (容量 ");
            push_decimal(&mut s, capacity);
            s.append(" ≤ 阈值 ");
            push_decimal(&mut s, SPARSE_THRESHOLD);
            s.append("；预估 ~");
            push_decimal(&mut s, mb);
            s.append(" MB/线程)");
        },
        BackendKind::Sparse => {
            s.append(": Sparse (容量 ");
            push_decimal(&mut s, capacity);
            s.append(" > 阈值 ");
            push_decimal(&mut s, SPARSE_THRESHOLD);
            s.append("；Dense 将需 ~");
            push_decimal(&mut s, mb);
            s.append(" MB/线程，改用稀疏存储，内存随非空桶数 ≤ n_chars(");
            push_decimal(&mut s, n_chars);
            s.append(") 增长)");
        },
    }
    s
}

} // verus!
