//! Lists.

use vstd::prelude::*;

verus! {

/// A copy of a list.
pub fn copy_of<T: Copy>(v: &Vec<T>) -> (r: Vec<T>)
    ensures
        r@ == v@,
{
    let mut r: Vec<T> = Vec::new();
    let mut i: usize = 0;
    while i < v.len()
        invariant
            i <= v@.len(),
            r@ == v@.take(i as int),
        decreases v@.len() - i,
    {
        r.push(v[i]);
        assert(r@ =~= v@.take(i + 1));
        i = i + 1;
    }
    assert(v@.take(i as int) =~= v@);
    r
}

/// Whether numbers ascend, none twice.
pub open spec fn ascending(s: Seq<usize>) -> bool {
    forall|i: int, j: int| 0 <= i < j < s.len() ==> (#[trigger] s[i]) < (#[trigger] s[j])
}

/// A number behind those below it keeps them ascending, and adds itself alone.
proof fn ascending_push(s: Seq<usize>, x: usize)
    requires
        ascending(s),
        s.len() > 0 ==> s.last() < x,
    ensures
        ascending(s.push(x)),
        forall|y: usize| #[trigger] s.push(x).contains(y) <==> s.contains(y) || y == x,
{
    let t = s.push(x);
    assert forall|i: int, j: int| 0 <= i < j < t.len() implies (#[trigger] t[i]) < (#[trigger] t[j]) by {
        if j == s.len() && i < s.len() - 1 {
            assert(s[i] < s[s.len() - 1]);
        }
    }
    assert forall|y: usize| #[trigger] t.contains(y) <==> s.contains(y) || y == x by {
        if t.contains(y) && y != x {
            let i = t.index_of(y);
            assert(s[i] == y);
        }
        if s.contains(y) {
            let i = s.index_of(y);
            assert(t[i] == y);
        }
        assert(t[s.len() as int] == x);
    }
}

/// What is in either of two ascending lists, ascending.
fn merged(a: &Vec<usize>, b: &Vec<usize>) -> (r: Vec<usize>)
    requires
        ascending(a@),
        ascending(b@),
    ensures
        ascending(r@),
        forall|x: usize| #[trigger] r@.contains(x) <==> a@.contains(x) || b@.contains(x),
{
    let mut r: Vec<usize> = Vec::new();
    let mut i: usize = 0;
    let mut j: usize = 0;
    proof {
        assert(a@.take(0) =~= Seq::<usize>::empty());
        assert(b@.take(0) =~= Seq::<usize>::empty());
    }
    while i < a.len() || j < b.len()
        invariant
            i <= a@.len(),
            j <= b@.len(),
            ascending(a@),
            ascending(b@),
            ascending(r@),
            forall|x: usize| #[trigger]
                r@.contains(x) <==> a@.take(i as int).contains(x) || b@.take(j as int).contains(x),
            r@.len() > 0 && i < a@.len() ==> r@.last() < a@[i as int],
            r@.len() > 0 && j < b@.len() ==> r@.last() < b@[j as int],
        decreases a@.len() - i + b@.len() - j,
    {
        let from_a = j >= b.len() || (i < a.len() && a[i] <= b[j]);
        let from_b = i >= a.len() || (j < b.len() && b[j] <= a[i]);
        let x = if from_a {
            a[i]
        } else {
            b[j]
        };
        proof {
            ascending_push(r@, x);
            if from_a {
                ascending_front(a@, i as int);
            }
            if from_b {
                ascending_front(b@, j as int);
            }
        }
        r.push(x);
        if from_a {
            i = i + 1;
        }
        if from_b {
            j = j + 1;
        }
    }
    proof {
        assert(a@.take(a@.len() as int) =~= a@);
        assert(b@.take(b@.len() as int) =~= b@);
    }
    r
}

/// The front of a list with one more holds one more, which is below the next.
proof fn ascending_front(s: Seq<usize>, i: int)
    requires
        0 <= i < s.len(),
        ascending(s),
    ensures
        forall|x: usize| #[trigger] s.take(i + 1).contains(x) <==> s.take(i).contains(x) || x == s[i],
        i + 1 < s.len() ==> s[i] < s[i + 1],
{
    assert(s.take(i + 1) =~= s.take(i).push(s[i]));
    assert(ascending(s.take(i)));
    if i > 0 {
        assert(s[i - 1] < s[i]);
    }
    ascending_push(s.take(i), s[i]);
}

/// What a stretch of a list holds, ascending, none twice.
fn sorted_part(v: &Vec<usize>, lo: usize, hi: usize) -> (r: Vec<usize>)
    requires
        lo <= hi <= v@.len(),
    ensures
        ascending(r@),
        forall|x: usize| #[trigger] r@.contains(x) <==> v@.subrange(lo as int, hi as int).contains(x),
    decreases hi - lo,
{
    let mut r: Vec<usize> = Vec::new();
    if hi - lo == 0 {
        return r;
    }
    if hi - lo == 1 {
        r.push(v[lo]);
        proof {
            assert(v@.subrange(lo as int, hi as int) =~= r@);
        }
        return r;
    }
    let mid = lo + (hi - lo) / 2;
    let a = sorted_part(v, lo, mid);
    let b = sorted_part(v, mid, hi);
    proof {
        let s = v@.subrange(lo as int, hi as int);
        let front = v@.subrange(lo as int, mid as int);
        let back = v@.subrange(mid as int, hi as int);
        assert(s =~= front + back);
        assert forall|x: usize| #[trigger] s.contains(x) <==> front.contains(x) || back.contains(x) by {
            if s.contains(x) {
                let i = s.index_of(x);
                if i < front.len() {
                    assert(front[i] == x);
                } else {
                    assert(back[i - front.len()] == x);
                }
            }
            if front.contains(x) {
                assert(s[front.index_of(x)] == x);
            }
            if back.contains(x) {
                assert(s[front.len() + back.index_of(x)] == x);
            }
        }
    }
    merged(&a, &b)
}

/// What a list holds, ascending, none twice.
pub fn sorted_distinct(v: &Vec<usize>) -> (r: Vec<usize>)
    ensures
        ascending(r@),
        forall|x: usize| #[trigger] r@.contains(x) <==> v@.contains(x),
        r@.len() == v@.to_set().len(),
{
    let r = sorted_part(v, 0, v.len());
    proof {
        assert(v@.subrange(0, v@.len() as int) =~= v@);
        assert(r@.no_duplicates()) by {
            assert forall|i: int, j: int| 0 <= i < r@.len() && 0 <= j < r@.len() && i != j implies r@[i]
                != r@[j] by {
                if i < j {
                    assert(r@[i] < r@[j]);
                } else {
                    assert(r@[j] < r@[i]);
                }
            }
        }
        r@.unique_seq_to_set();
        assert forall|x: usize| r@.to_set().contains(x) <==> v@.to_set().contains(x) by {
            let y = r@.contains(x);
        }
        assert(r@.to_set() =~= v@.to_set());
    }
    r
}

/// Two lists of the same things, each in the same strict order, are equal.
pub proof fn sorted_lists_equal<A>(s: Seq<A>, t: Seq<A>, before: spec_fn(A, A) -> bool)
    requires
        forall|x: A, y: A| #[trigger] before(x, y) ==> !before(y, x),
        forall|i: int, j: int| #![trigger s[i], s[j]] 0 <= i < j < s.len() ==> before(s[i], s[j]),
        forall|i: int, j: int| #![trigger t[i], t[j]] 0 <= i < j < t.len() ==> before(t[i], t[j]),
        forall|x: A|
            #![trigger s.contains(x)]
            #![trigger t.contains(x)]
            s.contains(x) <==> t.contains(x),
    ensures
        s == t,
    decreases s.len(),
{
    if s.len() == 0 {
        if t.len() > 0 {
            assert(t.contains(t[0]));
        }
        assert(s =~= t);
    } else {
        let x = s.last();
        assert(s.contains(x));
        let j = t.index_of(x);
        let y = t.last();
        assert(t[j] == x && t[t.len() - 1] == y);
        assert(t.contains(y));
        let i = s.index_of(y);
        assert(s[i] == y && s[s.len() - 1] == x);
        assert(x == y);
        let s1 = s.drop_last();
        let t1 = t.drop_last();
        assert forall|z: A|
            #![trigger s1.contains(z)]
            #![trigger t1.contains(z)]
            s1.contains(z) <==> t1.contains(z) by {
            if s1.contains(z) {
                let k = s1.index_of(z);
                assert(s[k] == z && before(s[k], s[s.len() - 1]));
                assert(s.contains(z));
                let l = t.index_of(z);
                assert(t[l] == z && t1[l] == z);
            }
            if t1.contains(z) {
                let k = t1.index_of(z);
                assert(t[k] == z && before(t[k], t[t.len() - 1]));
                assert(t.contains(z));
                let l = s.index_of(z);
                assert(s[l] == z && s1[l] == z);
            }
        }
        assert forall|i: int, j: int| #![trigger s1[i], s1[j]] 0 <= i < j < s1.len() implies before(
            s1[i],
            s1[j],
        ) by {
            assert(s[i] == s1[i] && s[j] == s1[j]);
        }
        assert forall|i: int, j: int| #![trigger t1[i], t1[j]] 0 <= i < j < t1.len() implies before(
            t1[i],
            t1[j],
        ) by {
            assert(t[i] == t1[i] && t[j] == t1[j]);
        }
        sorted_lists_equal(s1, t1, before);
        assert(s =~= s1.push(x));
        assert(t =~= t1.push(x));
    }
}

} // verus!
