//! Sorting by lexicographic keys.

use vstd::prelude::*;
use vstd::multiset::Multiset;

verus! {

/// A key to sort by: `major` first, then `minor`, then `id`, each ascending.
#[derive(Clone, Copy, Debug, PartialEq, Eq, Structural)]
pub struct SortKey {
    pub major: i128,
    pub minor: i128,
    pub id: usize,
}

impl SortKey {
    /// Whether `self` sorts strictly before `other`.
    pub open spec fn before(self, other: SortKey) -> bool {
        ||| self.major < other.major
        ||| self.major == other.major && self.minor < other.minor
        ||| self.major == other.major && self.minor == other.minor && self.id < other.id
    }

    /// Whether `self` sorts strictly before `other`.
    pub fn is_before(&self, other: &SortKey) -> (r: bool)
        ensures
            r == self.before(*other),
    {
        if self.major != other.major {
            self.major < other.major
        } else if self.minor != other.minor {
            self.minor < other.minor
        } else {
            self.id < other.id
        }
    }
}

/// No element sorts before an earlier one.
pub open spec fn sorted(s: Seq<SortKey>) -> bool {
    forall|i: int, j: int| 0 <= i < j < s.len() ==> !(#[trigger] s[j]).before(#[trigger] s[i])
}

fn merge(a: &Vec<SortKey>, b: &Vec<SortKey>) -> (r: Vec<SortKey>)
    requires
        sorted(a@),
        sorted(b@),
    ensures
        sorted(r@),
        r@.to_multiset() == a@.to_multiset().add(b@.to_multiset()),
        r@.len() == a@.len() + b@.len(),
{
    broadcast use vstd::seq_lib::group_to_multiset_ensures;

    let mut r: Vec<SortKey> = Vec::new();
    let mut i: usize = 0;
    let mut j: usize = 0;
    assert(a@.take(0).to_multiset().add(b@.take(0).to_multiset()) =~= Multiset::empty());
    while i < a.len() || j < b.len()
        invariant
            sorted(a@),
            sorted(b@),
            i <= a@.len(),
            j <= b@.len(),
            r@.len() == i + j,
            sorted(r@),
            forall|k: int, l: int|
                0 <= k < r@.len() && i <= l < a@.len() ==> !(#[trigger] a@[l]).before(
                    #[trigger] r@[k],
                ),
            forall|k: int, l: int|
                0 <= k < r@.len() && j <= l < b@.len() ==> !(#[trigger] b@[l]).before(
                    #[trigger] r@[k],
                ),
            r@.to_multiset() == a@.take(i as int).to_multiset().add(
                b@.take(j as int).to_multiset(),
            ),
        decreases a@.len() - i + b@.len() - j,
    {
        broadcast use vstd::seq_lib::group_to_multiset_ensures;

        let from_a = if i >= a.len() {
            false
        } else if j >= b.len() {
            true
        } else {
            !b[j].is_before(&a[i])
        };
        if from_a {
            r.push(a[i]);
            assert(a@.take(i + 1) =~= a@.take(i as int).push(a@[i as int]));
            i = i + 1;
        } else {
            r.push(b[j]);
            assert(b@.take(j + 1) =~= b@.take(j as int).push(b@[j as int]));
            j = j + 1;
        }
    }
    assert(a@.take(a@.len() as int) =~= a@);
    assert(b@.take(b@.len() as int) =~= b@);
    r
}

/// Sorts the keys.
pub fn sort_keys(v: Vec<SortKey>) -> (r: Vec<SortKey>)
    ensures
        sorted(r@),
        r@.to_multiset() == v@.to_multiset(),
        r@.len() == v@.len(),
    decreases v@.len(),
{
    broadcast use vstd::seq_lib::group_to_multiset_ensures;

    let n = v.len();
    if n <= 1 {
        return v;
    }
    let half: usize = n / 2;
    let mut left: Vec<SortKey> = Vec::new();
    let mut right: Vec<SortKey> = Vec::new();
    let mut i: usize = 0;
    while i < n
        invariant
            n == v@.len(),
            half < n,
            i <= n,
            left@ == v@.take(if i < half { i as int } else { half as int }),
            right@ == if i < half { Seq::<SortKey>::empty() } else { v@.subrange(half as int, i as int) },
        decreases n - i,
    {
        if i < half {
            left.push(v[i]);
        } else {
            right.push(v[i]);
        }
        i = i + 1;
    }
    proof {
        assert(v@ =~= left@ + right@);
        vstd::seq_lib::lemma_multiset_commutative(left@, right@);
    }
    let left = sort_keys(left);
    let right = sort_keys(right);
    merge(&left, &right)
}

/// Sorting keys with distinct ids puts them in strict order, each of them once.
pub proof fn sorted_strictly(before: Seq<SortKey>, after: Seq<SortKey>)
    requires
        sorted(after),
        after.to_multiset() == before.to_multiset(),
        forall|i: int, j: int|
            #![trigger before[i], before[j]]
            0 <= i < j < before.len() ==> before[i].id != before[j].id,
    ensures
        after.len() == before.len(),
        forall|i: int, j: int|
            #![trigger after[i], after[j]]
            0 <= i < j < after.len() ==> after[i].before(after[j]) && after[i].id != after[j].id,
        forall|x: SortKey| #[trigger] after.contains(x) <==> before.contains(x),
{
    broadcast use vstd::seq_lib::group_to_multiset_ensures;

    assert(before.to_multiset().len() == before.len());
    assert(after.to_multiset().len() == after.len());
    assert(before.no_duplicates());
    before.lemma_multiset_has_no_duplicates();
    after.lemma_multiset_has_no_duplicates_conv();
    assert forall|x: SortKey| #[trigger] after.contains(x) <==> before.contains(x) by {
        assert(after.contains(x) <==> after.to_multiset().count(x) > 0);
        assert(before.contains(x) <==> before.to_multiset().count(x) > 0);
    }
    assert forall|i: int, j: int|
        #![trigger after[i], after[j]]
        0 <= i < j < after.len() implies after[i].before(after[j]) && after[i].id != after[j].id by {
        assert(after.contains(after[i]) && after.contains(after[j]));
        let a = before.index_of(after[i]);
        let b = before.index_of(after[j]);
        assert(before[a] == after[i] && before[b] == after[j]);
        assert(after[i] != after[j]);
        assert(a != b);
        if a < b {
            assert(before[a].id != before[b].id);
        } else {
            assert(before[b].id != before[a].id);
        }
    }
}

/// Whether a list holds the numbers below `values.len()` once each, those with the greatest values
/// first, and of those with equal values the least.
pub open spec fn descending(values: Seq<u64>, order: Seq<usize>) -> bool {
    &&& order.len() == values.len()
    &&& order.no_duplicates()
    &&& forall|i: int| 0 <= i < order.len() ==> (#[trigger] order[i]) < values.len()
    &&& forall|i: int, j: int|
        #![trigger order[i], order[j]]
        0 <= i < j < order.len() ==> {
            let (a, b) = (values[order[i] as int], values[order[j] as int]);
            a > b || (a == b && order[i] < order[j])
        }
}

/// Sorting names everybody once, in order.
proof fn sorted_ids(values: Seq<u64>, unsorted: Seq<SortKey>, s: Seq<SortKey>)
    requires
        unsorted.len() == values.len(),
        forall|i: int|
            0 <= i < unsorted.len() ==> #[trigger] unsorted[i] == (SortKey {
                major: -(values[i] as int) as i128,
                minor: 0,
                id: i as usize,
            }),
        values.len() <= usize::MAX,
        sorted(s),
        s.to_multiset() == unsorted.to_multiset(),
    ensures
        s.len() == values.len(),
        forall|i: int, j: int|
            #![trigger s[i], s[j]]
            0 <= i < j < s.len() ==> s[i].before(s[j]) && s[i].id != s[j].id,
        forall|i: int|
            #![trigger s[i]]
            0 <= i < s.len() ==> s[i].id < values.len() && s[i].minor == 0 && s[i].major
                == -(values[s[i].id as int] as int),
{
    sorted_strictly(unsorted, s);
    assert forall|i: int| #![trigger s[i]] 0 <= i < s.len() implies s[i].id < values.len() && s[i].minor == 0
        && s[i].major == -(values[s[i].id as int] as int) by {
        assert(s.contains(s[i]));
        let j = unsorted.index_of(s[i]);
        assert(unsorted[j] == s[i]);
    }
}

/// The numbers below `values.len()`, those with the greatest values first.
pub fn rank_descending(values: &Vec<u64>) -> (order: Vec<usize>)
    ensures
        descending(values@, order@),
{
    let mut keys: Vec<SortKey> = Vec::new();
    let mut i: usize = 0;
    while i < values.len()
        invariant
            i <= values@.len(),
            keys@.len() == i,
            forall|j: int|
                0 <= j < i ==> #[trigger] keys@[j] == (SortKey {
                    major: -(values@[j] as int) as i128,
                    minor: 0,
                    id: j as usize,
                }),
        decreases values@.len() - i,
    {
        keys.push(SortKey { major: -(values[i] as i128), minor: 0, id: i });
        i = i + 1;
    }
    let ghost unsorted = keys@;
    let sorted_list = sort_keys(keys);
    let mut order: Vec<usize> = Vec::new();
    let mut k: usize = 0;
    proof {
        sorted_ids(values@, unsorted, sorted_list@);
    }
    while k < sorted_list.len()
        invariant
            k <= sorted_list@.len(),
            order@.len() == k,
            forall|i: int| 0 <= i < k ==> #[trigger] order@[i] == sorted_list@[i].id,
        decreases sorted_list@.len() - k,
    {
        order.push(sorted_list[k].id);
        k = k + 1;
    }
    proof {
        let s = sorted_list@;
        assert forall|i: int| 0 <= i < order@.len() implies (#[trigger] order@[i]) < values@.len() by {
            let x = s[i];
        }
        assert forall|i: int, j: int|
            #![trigger order@[i], order@[j]]
            0 <= i < j < order@.len() implies {
            let (a, b) = (values@[order@[i] as int], values@[order@[j] as int]);
            a > b || (a == b && order@[i] < order@[j])
        } by {
            assert(s[i].before(s[j]));
        }
        assert(order@.no_duplicates()) by {
            assert forall|i: int, j: int|
                0 <= i < order@.len() && 0 <= j < order@.len() && i != j implies order@[i] != order@[j] by {
                if i < j {
                    assert(s[i].before(s[j]));
                } else {
                    assert(s[j].before(s[i]));
                }
            }
        }
    }
    order
}

} // verus!
