//! Duplicate-free lists of strings (`Vec<Vec<char>>`) used as finite sets of
//! file paths and tags: membership, insertion, removal, union, intersection
//! and difference, specified by membership over the deep view.

use vstd::prelude::*;
use crate::text::{copy_chars, seq_eq};

verus! {

/// Membership in a list grows by exactly the pushed string.
pub proof fn lemma_contains_push(s: Seq<Seq<char>>, x: Seq<char>)
    ensures
        forall|y: Seq<char>| #[trigger] s.push(x).contains(y) == (s.contains(y) || y == x),
{
    assert forall|y: Seq<char>| #[trigger] s.push(x).contains(y) == (s.contains(y) || y
        == x) by {
        let n = s.push(x);
        if n.contains(y) {
            let k = choose|k: int| 0 <= k < n.len() && n[k] == y;
            if k < s.len() {
                assert(s[k] == y);
            }
        }
        if s.contains(y) {
            let k = choose|k: int| 0 <= k < s.len() && s[k] == y;
            assert(n[k] == y);
        }
        if y == x {
            assert(n[n.len() - 1] == y);
        }
    }
}

/// Decides whether `x` is one of the strings in `v`.
pub fn strs_contains(v: &Vec<Vec<char>>, x: &Vec<char>) -> (r: bool)
    ensures
        r == v.deep_view().contains(x@),
{
    let mut i: usize = 0;
    while i < v.len()
        invariant
            0 <= i <= v.len(),
            forall|k: int| 0 <= k < i ==> v.deep_view()[k] != x@,
        decreases v.len() - i,
    {
        let hit = seq_eq(&v[i], x);
        proof {
            assert(v.deep_view()[i as int] == v[i as int]@);
        }
        if hit {
            return true;
        }
        i = i + 1;
    }
    proof {
        if v.deep_view().contains(x@) {
            let k = choose|k: int| 0 <= k < v.deep_view().len() && v.deep_view()[k] == x@;
            assert(v.deep_view()[k] == x@);
        }
    }
    false
}

/// Appends `x` unless it is already present; the list stays duplicate-free.
pub fn strs_push_new(v: &mut Vec<Vec<char>>, x: &Vec<char>) -> (added: bool)
    requires
        old(v).deep_view().no_duplicates(),
    ensures
        final(v).deep_view().no_duplicates(),
        added == !old(v).deep_view().contains(x@),
        final(v).deep_view() == if added {
            old(v).deep_view().push(x@)
        } else {
            old(v).deep_view()
        },
{
    if strs_contains(v, x) {
        false
    } else {
        let ghost before = v.deep_view();
        v.push(copy_chars(x));
        proof {
            assert(v.deep_view() =~~= before.push(x@));
        }
        true
    }
}

/// Removes the string `x` if present; the list keeps its order otherwise.
pub fn strs_remove(v: &mut Vec<Vec<char>>, x: &Vec<char>) -> (removed: bool)
    requires
        old(v).deep_view().no_duplicates(),
    ensures
        final(v).deep_view().no_duplicates(),
        removed == old(v).deep_view().contains(x@),
        !final(v).deep_view().contains(x@),
        forall|y: Seq<char>|
            #[trigger] final(v).deep_view().contains(y) == (old(v).deep_view().contains(y) && y
                != x@),
        final(v).len() == old(v).len() - (if removed {
            1int
        } else {
            0int
        }),
{
    let ghost before = v.deep_view();
    let mut i: usize = 0;
    while i < v.len()
        invariant
            0 <= i <= v.len(),
            v.deep_view() == before,
            before == old(v).deep_view(),
            before.no_duplicates(),
            forall|k: int| 0 <= k < i ==> before[k] != x@,
        decreases v.len() - i,
    {
        let hit = seq_eq(&v[i], x);
        proof {
            assert(v.deep_view()[i as int] == v[i as int]@);
        }
        if hit {
            proof {
                assert(before[i as int] == x@);
            }
            v.remove(i);
            proof {
                assert(v.deep_view() =~~= before.remove(i as int));
                let after = before.remove(i as int);
                assert forall|y: Seq<char>| #[trigger] after.contains(y) == (before.contains(y)
                    && y != x@) by {
                    if after.contains(y) {
                        let k = choose|k: int| 0 <= k < after.len() && after[k] == y;
                        if k < i {
                            assert(before[k] == y);
                        } else {
                            assert(before[k + 1] == y);
                            assert(k + 1 != i);
                        }
                        assert(before.contains(y));
                        if y == x@ {
                            let j = if k < i as int {
                                k
                            } else {
                                k + 1
                            };
                            assert(before[j] == x@ && before[i as int] == x@ && j != i);
                        }
                    }
                    if before.contains(y) && y != x@ {
                        let k = choose|k: int| 0 <= k < before.len() && before[k] == y;
                        assert(k != i);
                        if k < i {
                            assert(after[k] == y);
                        } else {
                            assert(after[k - 1] == y);
                        }
                    }
                }
                assert(after.no_duplicates()) by {
                    assert forall|p: int, q: int|
                        0 <= p < q < after.len() implies after[p] != after[q] by {
                        let bp = if p < i as int {
                            p
                        } else {
                            p + 1
                        };
                        let bq = if q < i as int {
                            q
                        } else {
                            q + 1
                        };
                        assert(after[p] == before[bp]);
                        assert(after[q] == before[bq]);
                    }
                }
            }
            return true;
        }
        i = i + 1;
    }
    proof {
        if before.contains(x@) {
            let k = choose|k: int| 0 <= k < before.len() && before[k] == x@;
            assert(before[k] == x@);
        }
    }
    false
}

/// Adds every string of `other` that `acc` does not already hold.
pub fn strs_union_into(acc: &mut Vec<Vec<char>>, other: &Vec<Vec<char>>)
    requires
        old(acc).deep_view().no_duplicates(),
    ensures
        final(acc).deep_view().no_duplicates(),
        forall|y: Seq<char>|
            #[trigger] final(acc).deep_view().contains(y) == (old(acc).deep_view().contains(y)
                || other.deep_view().contains(y)),
{
    let mut i: usize = 0;
    while i < other.len()
        invariant
            0 <= i <= other.len(),
            acc.deep_view().no_duplicates(),
            forall|y: Seq<char>|
                #[trigger] acc.deep_view().contains(y) == (old(acc).deep_view().contains(y)
                    || other.deep_view().subrange(0, i as int).contains(y)),
        decreases other.len() - i,
    {
        let ghost acc_before = acc.deep_view();
        let ghost x = other.deep_view()[i as int];
        proof {
            assert(other[i as int]@ == x);
        }
        let added = strs_push_new(acc, &other[i]);
        proof {
            let pre = other.deep_view().subrange(0, i as int);
            let cur = other.deep_view().subrange(0, i + 1);
            assert(cur =~= pre.push(x));
            assert forall|y: Seq<char>| #[trigger] cur.contains(y) == (pre.contains(y) || y
                == x) by {
                if cur.contains(y) {
                    let k = choose|k: int| 0 <= k < cur.len() && cur[k] == y;
                    if k < i as int {
                        assert(pre[k] == y);
                    }
                }
                if pre.contains(y) {
                    let k = choose|k: int| 0 <= k < pre.len() && pre[k] == y;
                    assert(cur[k] == y);
                }
                if y == x {
                    assert(cur[i as int] == y);
                }
            }
            if !added {
                assert(acc.deep_view() == acc_before);
                assert(acc_before.contains(x));
            } else {
                assert(acc.deep_view() == acc_before.push(x));
                assert forall|y: Seq<char>| #[trigger] acc.deep_view().contains(y)
                    == (acc_before.contains(y) || y == x) by {
                    let av = acc.deep_view();
                    if av.contains(y) {
                        let k = choose|k: int| 0 <= k < av.len() && av[k] == y;
                        if k < av.len() - 1 {
                            assert(acc_before[k] == y);
                        }
                    }
                    if acc_before.contains(y) {
                        let k = choose|k: int| 0 <= k < acc_before.len() && acc_before[k] == y;
                        assert(av[k] == y);
                    }
                    if y == x {
                        assert(av[av.len() - 1] == y);
                    }
                }
            }
        }
        i = i + 1;
    }
    proof {
        assert(other.deep_view().subrange(0, other.deep_view().len() as int) =~~= other
            .deep_view());
        assert forall|y: Seq<char>| #[trigger] acc.deep_view().contains(y) == (old(
            acc,
        ).deep_view().contains(y) || other.deep_view().contains(y)) by {
            assert(acc.deep_view().contains(y) == (old(acc).deep_view().contains(y)
                || other.deep_view().subrange(0, other.len() as int).contains(y)));
        }
    }
}

/// The strings of `a` that are also in `b`, keeping the order of `a`.
pub fn strs_intersect(a: &Vec<Vec<char>>, b: &Vec<Vec<char>>) -> (r: Vec<Vec<char>>)
    requires
        a.deep_view().no_duplicates(),
    ensures
        r.deep_view().no_duplicates(),
        forall|y: Seq<char>|
            #[trigger] r.deep_view().contains(y) == (a.deep_view().contains(y)
                && b.deep_view().contains(y)),
{
    strs_filter(a, b, true)
}

/// The strings of `a` that are not in `b`, keeping the order of `a`.
pub fn strs_difference(a: &Vec<Vec<char>>, b: &Vec<Vec<char>>) -> (r: Vec<Vec<char>>)
    requires
        a.deep_view().no_duplicates(),
    ensures
        r.deep_view().no_duplicates(),
        forall|y: Seq<char>|
            #[trigger] r.deep_view().contains(y) == (a.deep_view().contains(y)
                && !b.deep_view().contains(y)),
{
    strs_filter(a, b, false)
}

/// Keeps the strings of `a` whose membership in `b` equals `keep`.
fn strs_filter(a: &Vec<Vec<char>>, b: &Vec<Vec<char>>, keep: bool) -> (r: Vec<Vec<char>>)
    requires
        a.deep_view().no_duplicates(),
    ensures
        r.deep_view().no_duplicates(),
        forall|y: Seq<char>|
            #[trigger] r.deep_view().contains(y) == (a.deep_view().contains(y)
                && b.deep_view().contains(y) == keep),
{
    let mut r: Vec<Vec<char>> = Vec::new();
    let mut i: usize = 0;
    while i < a.len()
        invariant
            0 <= i <= a.len(),
            a.deep_view().no_duplicates(),
            r.deep_view().no_duplicates(),
            forall|y: Seq<char>|
                #[trigger] r.deep_view().contains(y) == (a.deep_view().subrange(
                    0,
                    i as int,
                ).contains(y) && b.deep_view().contains(y) == keep),
        decreases a.len() - i,
    {
        let ghost r_before = r.deep_view();
        let ghost pre = a.deep_view().subrange(0, i as int);
        let ghost x = a.deep_view()[i as int];
        proof {
            assert(a[i as int]@ == x);
        }
        let hit = strs_contains(b, &a[i]);
        if hit == keep {
            r.push(copy_chars(&a[i]));
        }
        proof {
            let cur = a.deep_view().subrange(0, i + 1);
            assert(cur =~= pre.push(x));
            assert forall|y: Seq<char>| #[trigger] cur.contains(y) == (pre.contains(y) || y
                == x) by {
                if cur.contains(y) {
                    let k = choose|k: int| 0 <= k < cur.len() && cur[k] == y;
                    if k < i as int {
                        assert(pre[k] == y);
                    }
                }
                if pre.contains(y) {
                    let k = choose|k: int| 0 <= k < pre.len() && pre[k] == y;
                    assert(cur[k] == y);
                }
                if y == x {
                    assert(cur[i as int] == y);
                }
            }
            if hit == keep {
                assert(r.deep_view() =~~= r_before.push(x));
                assert(!r_before.contains(x)) by {
                    if r_before.contains(x) {
                        assert(pre.contains(x));
                        let k = choose|k: int| 0 <= k < pre.len() && pre[k] == x;
                        assert(a.deep_view()[k] == x && a.deep_view()[i as int] == x && k != i as int);
                    }
                }
                assert forall|y: Seq<char>| #[trigger] r.deep_view().contains(y)
                    == (r_before.contains(y) || y == x) by {
                    let rv = r.deep_view();
                    if rv.contains(y) {
                        let k = choose|k: int| 0 <= k < rv.len() && rv[k] == y;
                        if k < rv.len() - 1 {
                            assert(r_before[k] == y);
                        }
                    }
                    if r_before.contains(y) {
                        let k = choose|k: int| 0 <= k < r_before.len() && r_before[k] == y;
                        assert(rv[k] == y);
                    }
                    if y == x {
                        assert(rv[rv.len() - 1] == y);
                    }
                }
                assert(r.deep_view().no_duplicates()) by {
                    assert forall|p: int, q: int|
                        0 <= p < q < r.deep_view().len() implies r.deep_view()[p] != r
                        .deep_view()[q] by {
                        if q == r.deep_view().len() - 1 {
                            assert(r.deep_view()[p] == r_before[p]);
                            assert(r_before.contains(r_before[p]));
                        }
                    }
                }
            }
        }
        i = i + 1;
    }
    proof {
        assert(a.deep_view().subrange(0, a.len() as int) =~~= a.deep_view());
        assert forall|y: Seq<char>| #[trigger] r.deep_view().contains(y) == (a
            .deep_view().contains(y) && b.deep_view().contains(y) == keep) by {
            assert(r.deep_view().contains(y) == (a.deep_view().subrange(
                0,
                a.len() as int,
            ).contains(y) && b.deep_view().contains(y) == keep));
        }
    }
    r
}

} // verus!
