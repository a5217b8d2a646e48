//! Association lists from strings to duplicate-free string lists, the shape of
//! every index in this crate: file → tags, tag → files, tag type → values.
//! Keys are unique; a key is present exactly while its list is non-empty.

use vstd::prelude::*;
use crate::strset::{strs_contains, strs_push_new, strs_remove};
use crate::text::{copy_chars, seq_eq};
use vstd::pervasive::VecAdditionalExecFns;

verus! {

/// An index in memory: unique string keys, each with a list of strings.
pub type StrMap = Vec<(Vec<char>, Vec<Vec<char>>)>;

/// The mathematical shape of an index.
pub type StrMapSeq = Seq<(Seq<char>, Seq<Seq<char>>)>;

/// No two entries share a key.
pub open spec fn keys_distinct(m: StrMapSeq) -> bool {
    forall|i: int, j: int| 0 <= i < j < m.len() ==> m[i].0 != m[j].0
}

/// Every entry holds a duplicate-free, non-empty list.
pub open spec fn entries_wf(m: StrMapSeq) -> bool {
    forall|i: int|
        0 <= i < m.len() ==> (#[trigger] m[i].1).no_duplicates() && m[i].1.len() > 0
}

/// A well-formed index.
pub open spec fn map_wf(m: StrMapSeq) -> bool {
    keys_distinct(m) && entries_wf(m)
}

/// The key `k` has an entry.
pub open spec fn has_key(m: StrMapSeq, k: Seq<char>) -> bool {
    exists|i: int| 0 <= i < m.len() && m[i].0 == k
}

/// The position of the entry for `k`.
pub open spec fn idx_of(m: StrMapSeq, k: Seq<char>) -> int {
    choose|i: int| 0 <= i < m.len() && m[i].0 == k
}

/// The list stored under `k`; an absent key maps to the empty list.
pub open spec fn lookup(m: StrMapSeq, k: Seq<char>) -> Seq<Seq<char>> {
    if has_key(m, k) {
        m[idx_of(m, k)].1
    } else {
        Seq::empty()
    }
}

/// An entry's key is found at its own position.
pub proof fn lemma_lookup_entry(m: StrMapSeq, i: int)
    requires
        keys_distinct(m),
        0 <= i < m.len(),
    ensures
        has_key(m, m[i].0),
        idx_of(m, m[i].0) == i,
        lookup(m, m[i].0) == m[i].1,
{
    assert(has_key(m, m[i].0));
    let j = idx_of(m, m[i].0);
    assert(0 <= j < m.len() && m[j].0 == m[i].0);
    if i != j {
        assert(false);
    }
}

/// Appending an entry for a fresh key leaves every other key as it was.
pub proof fn lemma_append_entry(m: StrMapSeq, k: Seq<char>, vs: Seq<Seq<char>>)
    requires
        keys_distinct(m),
        !has_key(m, k),
    ensures
        keys_distinct(m.push((k, vs))),
        forall|k2: Seq<char>|
            #[trigger] has_key(m.push((k, vs)), k2) == (has_key(m, k2) || k2 == k),
        lookup(m.push((k, vs)), k) == vs,
        forall|k2: Seq<char>|
            k2 != k ==> #[trigger] lookup(m.push((k, vs)), k2) == lookup(m, k2),
{
    let n = m.push((k, vs));
    assert forall|i: int, j: int| 0 <= i < j < n.len() implies n[i].0 != n[j].0 by {
        if j == n.len() - 1 {
            assert(n[i] == m[i]);
            if m[i].0 == k {
                assert(has_key(m, k));
            }
        } else {
            assert(n[i] == m[i] && n[j] == m[j]);
        }
    }
    assert forall|k2: Seq<char>| #[trigger] has_key(n, k2) == (has_key(m, k2) || k2 == k) by {
        if has_key(n, k2) {
            let i = choose|i: int| 0 <= i < n.len() && n[i].0 == k2;
            if i < m.len() {
                assert(m[i].0 == k2);
            }
        }
        if has_key(m, k2) {
            let i = choose|i: int| 0 <= i < m.len() && m[i].0 == k2;
            assert(n[i].0 == k2);
        }
        if k2 == k {
            assert(n[n.len() - 1].0 == k2);
        }
    }
    assert(n[n.len() - 1].0 == k);
    lemma_lookup_entry(n, n.len() - 1);
    assert forall|k2: Seq<char>| k2 != k implies #[trigger] lookup(n, k2) == lookup(m, k2) by {
        if has_key(m, k2) {
            let i = choose|i: int| 0 <= i < m.len() && m[i].0 == k2;
            assert(n[i].0 == k2);
            lemma_lookup_entry(m, i);
            lemma_lookup_entry(n, i);
        }
    }
}

/// Replacing the list of one entry leaves every other key as it was.
pub proof fn lemma_update_entry(m: StrMapSeq, i: int, vs: Seq<Seq<char>>)
    requires
        keys_distinct(m),
        0 <= i < m.len(),
    ensures
        keys_distinct(m.update(i, (m[i].0, vs))),
        forall|k2: Seq<char>|
            #[trigger] has_key(m.update(i, (m[i].0, vs)), k2) == has_key(m, k2),
        lookup(m.update(i, (m[i].0, vs)), m[i].0) == vs,
        forall|k2: Seq<char>|
            k2 != m[i].0 ==> #[trigger] lookup(m.update(i, (m[i].0, vs)), k2) == lookup(m, k2),
{
    let n = m.update(i, (m[i].0, vs));
    assert(forall|j: int| 0 <= j < n.len() ==> #[trigger] n[j].0 == m[j].0);
    assert forall|k2: Seq<char>| #[trigger] has_key(n, k2) == has_key(m, k2) by {
        if has_key(n, k2) {
            let j = choose|j: int| 0 <= j < n.len() && n[j].0 == k2;
            assert(m[j].0 == k2);
        }
        if has_key(m, k2) {
            let j = choose|j: int| 0 <= j < m.len() && m[j].0 == k2;
            assert(n[j].0 == k2);
        }
    }
    lemma_lookup_entry(n, i);
    assert forall|k2: Seq<char>| k2 != m[i].0 implies #[trigger] lookup(n, k2) == lookup(
        m,
        k2,
    ) by {
        if has_key(m, k2) {
            let j = choose|j: int| 0 <= j < m.len() && m[j].0 == k2;
            assert(j != i);
            lemma_lookup_entry(m, j);
            lemma_lookup_entry(n, j);
            assert(n[j] == m[j]);
        }
    }
}

/// Removing an entry leaves every other key as it was.
pub proof fn lemma_remove_entry(m: StrMapSeq, i: int)
    requires
        keys_distinct(m),
        0 <= i < m.len(),
    ensures
        keys_distinct(m.remove(i)),
        forall|k2: Seq<char>|
            #[trigger] has_key(m.remove(i), k2) == (has_key(m, k2) && k2 != m[i].0),
        forall|k2: Seq<char>|
            k2 != m[i].0 ==> #[trigger] lookup(m.remove(i), k2) == lookup(m, k2),
{
    let n = m.remove(i);
    assert forall|p: int, q: int| 0 <= p < q < n.len() implies n[p].0 != n[q].0 by {
        let bp = if p < i {
            p
        } else {
            p + 1
        };
        let bq = if q < i {
            q
        } else {
            q + 1
        };
        assert(n[p] == m[bp] && n[q] == m[bq]);
    }
    assert forall|k2: Seq<char>| #[trigger] has_key(n, k2) == (has_key(m, k2) && k2
        != m[i].0) by {
        if has_key(n, k2) {
            let j = choose|j: int| 0 <= j < n.len() && n[j].0 == k2;
            let bj = if j < i {
                j
            } else {
                j + 1
            };
            assert(m[bj].0 == k2);
            assert(bj != i);
            if k2 == m[i].0 {
                assert(false);
            }
        }
        if has_key(m, k2) && k2 != m[i].0 {
            let j = choose|j: int| 0 <= j < m.len() && m[j].0 == k2;
            assert(j != i);
            if j < i {
                assert(n[j].0 == k2);
            } else {
                assert(n[j - 1].0 == k2);
            }
        }
    }
    assert forall|k2: Seq<char>| k2 != m[i].0 implies #[trigger] lookup(n, k2) == lookup(
        m,
        k2,
    ) by {
        if has_key(m, k2) {
            let j = choose|j: int| 0 <= j < m.len() && m[j].0 == k2;
            assert(j != i);
            lemma_lookup_entry(m, j);
            if j < i {
                assert(n[j] == m[j]);
                lemma_lookup_entry(n, j);
            } else {
                assert(n[j - 1] == m[j]);
                lemma_lookup_entry(n, j - 1);
            }
        }
    }
}

/// In a well-formed index every stored list is duplicate-free, including the
/// empty list of an absent key.
pub proof fn lemma_lookup_nodup(m: StrMapSeq, k: Seq<char>)
    requires
        map_wf(m),
    ensures
        lookup(m, k).no_duplicates(),
{
    if has_key(m, k) {
        let i = idx_of(m, k);
        assert(0 <= i < m.len() && m[i].0 == k);
        assert(m[i].1.no_duplicates());
    }
}

/// Copies a list of strings.
pub fn strs_copy(v: &Vec<Vec<char>>) -> (r: Vec<Vec<char>>)
    ensures
        r.deep_view() == v.deep_view(),
{
    let mut r: Vec<Vec<char>> = Vec::new();
    let mut i: usize = 0;
    while i < v.len()
        invariant
            0 <= i <= v.len(),
            r.deep_view() == v.deep_view().subrange(0, i as int),
        decreases v.len() - i,
    {
        let ghost before = r.deep_view();
        r.push(copy_chars(&v[i]));
        i = i + 1;
        proof {
            assert(r.deep_view() =~~= before.push(v.deep_view()[i - 1]));
            assert(r.deep_view() =~~= v.deep_view().subrange(0, i as int));
        }
    }
    proof {
        assert(v.deep_view().subrange(0, v.len() as int) =~~= v.deep_view());
    }
    r
}

/// Finds the position of the entry for `k`.
pub fn assoc_find(m: &StrMap, k: &Vec<char>) -> (r: Option<usize>)
    ensures
        match r {
            Some(i) => i < m.len() && m.deep_view()[i as int].0 == k@ && has_key(
                m.deep_view(),
                k@,
            ),
            None => !has_key(m.deep_view(), k@),
        },
{
    let mut i: usize = 0;
    while i < m.len()
        invariant
            0 <= i <= m.len(),
            forall|j: int| 0 <= j < i ==> m.deep_view()[j].0 != k@,
        decreases m.len() - i,
    {
        let hit = seq_eq(&m[i].0, k);
        proof {
            assert(m.deep_view()[i as int].0 == m[i as int].0@);
        }
        if hit {
            return Some(i);
        }
        i = i + 1;
    }
    proof {
        if has_key(m.deep_view(), k@) {
            let j = choose|j: int| 0 <= j < m.deep_view().len() && m.deep_view()[j].0 == k@;
            assert(m.deep_view()[j].0 == k@);
        }
    }
    None
}

/// Copies the list stored under `k`; an absent key yields the empty list.
pub fn assoc_get_copy(m: &StrMap, k: &Vec<char>) -> (r: Vec<Vec<char>>)
    requires
        keys_distinct(m.deep_view()),
    ensures
        r.deep_view() == lookup(m.deep_view(), k@),
{
    match assoc_find(m, k) {
        Some(i) => {
            proof {
                lemma_lookup_entry(m.deep_view(), i as int);
            }
            strs_copy(&m[i].1)
        },
        None => Vec::new(),
    }
}

/// The keys of the index, in entry order.
pub fn assoc_keys(m: &StrMap) -> (r: Vec<Vec<char>>)
    requires
        keys_distinct(m.deep_view()),
    ensures
        r.deep_view().no_duplicates(),
        r.deep_view().len() == m.deep_view().len(),
        forall|i: int| 0 <= i < m.deep_view().len() ==> #[trigger] r.deep_view()[i] == m
            .deep_view()[i].0,
        forall|k: Seq<char>|
            #[trigger] r.deep_view().contains(k) == has_key(m.deep_view(), k),
{
    let mut r: Vec<Vec<char>> = Vec::new();
    let mut i: usize = 0;
    while i < m.len()
        invariant
            0 <= i <= m.len(),
            r.deep_view().len() == i,
            forall|j: int| 0 <= j < i ==> #[trigger] r.deep_view()[j] == m.deep_view()[j].0,
        decreases m.len() - i,
    {
        let ghost before = r.deep_view();
        r.push(copy_chars(&m[i].0));
        i = i + 1;
        proof {
            assert(r.deep_view() =~~= before.push(m.deep_view()[i - 1].0));
        }
    }
    proof {
        assert forall|k: Seq<char>| #[trigger] r.deep_view().contains(k) == has_key(
            m.deep_view(),
            k,
        ) by {
            if r.deep_view().contains(k) {
                let j = choose|j: int| 0 <= j < r.deep_view().len() && r.deep_view()[j] == k;
                assert(m.deep_view()[j].0 == k);
            }
            if has_key(m.deep_view(), k) {
                let j = choose|j: int|
                    0 <= j < m.deep_view().len() && m.deep_view()[j].0 == k;
                assert(r.deep_view()[j] == k);
            }
        }
        assert(r.deep_view().no_duplicates()) by {
            assert forall|p: int, q: int|
                0 <= p < q < r.deep_view().len() implies r.deep_view()[p] != r.deep_view()[q] by {
                assert(r.deep_view()[p] == m.deep_view()[p].0);
                assert(r.deep_view()[q] == m.deep_view()[q].0);
            }
        }
    }
    r
}

/// Adds `v` to the list under `k`, creating the entry if needed; reports
/// whether the list changed.
pub fn assoc_add_value(m: &mut StrMap, k: &Vec<char>, v: &Vec<char>) -> (added: bool)
    requires
        map_wf(old(m).deep_view()),
    ensures
        map_wf(final(m).deep_view()),
        added == !lookup(old(m).deep_view(), k@).contains(v@),
        has_key(final(m).deep_view(), k@),
        lookup(final(m).deep_view(), k@) == if added {
            lookup(old(m).deep_view(), k@).push(v@)
        } else {
            lookup(old(m).deep_view(), k@)
        },
        forall|k2: Seq<char>|
            k2 != k@ ==> #[trigger] lookup(final(m).deep_view(), k2) == lookup(
                old(m).deep_view(),
                k2,
            ),
        forall|k2: Seq<char>|
            #[trigger] has_key(final(m).deep_view(), k2) == (has_key(old(m).deep_view(), k2)
                || k2 == k@),
{
    let ghost m0 = m.deep_view();
    match assoc_find(m, k) {
        Some(i) => {
            proof {
                lemma_lookup_entry(m0, i as int);
            }
            let mut vals = strs_copy(&m[i].1);
            let added = strs_push_new(&mut vals, v);
            if added {
                let key = copy_chars(k);
                m.set(i, (key, vals));
                proof {
                    assert(m.deep_view() =~~= m0.update(i as int, (m0[i as int].0, m0[i
                        as int].1.push(v@))));
                    lemma_update_entry(m0, i as int, m0[i as int].1.push(v@));
                    let n = m.deep_view();
                    assert(entries_wf(n)) by {
                        assert forall|j: int|
                            0 <= j < n.len() implies (#[trigger] n[j].1).no_duplicates()
                            && n[j].1.len() > 0 by {
                            if j != i {
                                assert(n[j] == m0[j]);
                            }
                        }
                    }
                }
            }
            added
        },
        None => {
            let key = copy_chars(k);
            let mut vals: Vec<Vec<char>> = Vec::new();
            vals.push(copy_chars(v));
            m.push((key, vals));
            proof {
                assert(seq![v@].no_duplicates());
                assert(m.deep_view() =~~= m0.push((k@, seq![v@])));
                lemma_append_entry(m0, k@, seq![v@]);
                let n = m.deep_view();
                assert(entries_wf(n)) by {
                    assert forall|j: int|
                        0 <= j < n.len() implies (#[trigger] n[j].1).no_duplicates() && n[j].1.len()
                        > 0 by {
                        if j < n.len() - 1 {
                            assert(n[j] == m0[j]);
                        } else {
                            assert(n[j].1 =~= seq![v@]);
                        }
                    }
                }
                assert(lookup(n, k@) =~= Seq::empty().push(v@));
            }
            true
        },
    }
}

/// Removes `v` from the list under `k`, dropping the entry when its list
/// becomes empty; reports whether the list changed.
pub fn assoc_remove_value(m: &mut StrMap, k: &Vec<char>, v: &Vec<char>) -> (removed: bool)
    requires
        map_wf(old(m).deep_view()),
    ensures
        map_wf(final(m).deep_view()),
        removed == lookup(old(m).deep_view(), k@).contains(v@),
        forall|y: Seq<char>|
            #[trigger] lookup(final(m).deep_view(), k@).contains(y) == (lookup(
                old(m).deep_view(),
                k@,
            ).contains(y) && y != v@),
        forall|k2: Seq<char>|
            k2 != k@ ==> #[trigger] lookup(final(m).deep_view(), k2) == lookup(
                old(m).deep_view(),
                k2,
            ),
        forall|k2: Seq<char>|
            #[trigger] has_key(final(m).deep_view(), k2) == (has_key(old(m).deep_view(), k2)
                && lookup(final(m).deep_view(), k2).len() > 0),
        has_key(final(m).deep_view(), k@) == (has_key(old(m).deep_view(), k@) && lookup(
            final(m).deep_view(),
            k@,
        ).len() > 0),
{
    let ghost m0 = m.deep_view();
    proof {
        assert forall|k2: Seq<char>| has_key(m0, k2) implies #[trigger] lookup(m0, k2).len()
            > 0 by {
            let j = choose|j: int| 0 <= j < m0.len() && m0[j].0 == k2;
            lemma_lookup_entry(m0, j);
        }
    }
    match assoc_find(m, k) {
        Some(i) => {
            proof {
                lemma_lookup_entry(m0, i as int);
            }
            let mut vals = strs_copy(&m[i].1);
            let removed = strs_remove(&mut vals, v);
            if !removed {
                return false;
            }
            if vals.len() == 0 {
                m.remove(i);
                proof {
                    assert(m.deep_view() =~~= m0.remove(i as int));
                    lemma_remove_entry(m0, i as int);
                    let n = m.deep_view();
                    assert(entries_wf(n)) by {
                        assert forall|j: int|
                            0 <= j < n.len() implies (#[trigger] n[j].1).no_duplicates()
                            && n[j].1.len() > 0 by {
                            let bj = if j < i as int {
                                j
                            } else {
                                j + 1
                            };
                            assert(n[j] == m0[bj]);
                        }
                    }
                    assert(!has_key(n, k@));
                    assert(lookup(n, k@) =~~= Seq::<Seq<char>>::empty());
                    assert forall|y: Seq<char>| #[trigger] lookup(n, k@).contains(y) == (lookup(
                        m0,
                        k@,
                    ).contains(y) && y != v@) by {
                        if lookup(m0, k@).contains(y) && y != v@ {
                            assert(vals.deep_view().contains(y));
                        }
                    }
                }
                true
            } else {
                let key = copy_chars(k);
                let ghost vals_v = vals.deep_view();
                m.set(i, (key, vals));
                proof {
                    assert(m.deep_view() =~~= m0.update(i as int, (m0[i as int].0, vals_v)));
                    lemma_update_entry(m0, i as int, vals_v);
                    let n = m.deep_view();
                    assert(entries_wf(n)) by {
                        assert forall|j: int|
                            0 <= j < n.len() implies (#[trigger] n[j].1).no_duplicates()
                            && n[j].1.len() > 0 by {
                            if j != i {
                                assert(n[j] == m0[j]);
                            }
                        }
                    }
                    assert forall|k2: Seq<char>| has_key(n, k2) implies #[trigger] lookup(
                        n,
                        k2,
                    ).len() > 0 by {
                        let j = choose|j: int| 0 <= j < n.len() && n[j].0 == k2;
                        lemma_lookup_entry(n, j);
                    }
                }
                true
            }
        },
        None => false,
    }
}

/// Removes the whole entry for `k`; reports whether one was there.
pub fn assoc_remove_key(m: &mut StrMap, k: &Vec<char>) -> (removed: bool)
    requires
        map_wf(old(m).deep_view()),
    ensures
        map_wf(final(m).deep_view()),
        removed == has_key(old(m).deep_view(), k@),
        !has_key(final(m).deep_view(), k@),
        forall|k2: Seq<char>|
            #[trigger] has_key(final(m).deep_view(), k2) == (has_key(old(m).deep_view(), k2)
                && k2 != k@),
        forall|k2: Seq<char>|
            k2 != k@ ==> #[trigger] lookup(final(m).deep_view(), k2) == lookup(
                old(m).deep_view(),
                k2,
            ),
        lookup(final(m).deep_view(), k@) == Seq::<Seq<char>>::empty(),
{
    let ghost m0 = m.deep_view();
    match assoc_find(m, k) {
        Some(i) => {
            m.remove(i);
            proof {
                assert(m.deep_view() =~~= m0.remove(i as int));
                lemma_remove_entry(m0, i as int);
                let n = m.deep_view();
                assert(entries_wf(n)) by {
                    assert forall|j: int|
                        0 <= j < n.len() implies (#[trigger] n[j].1).no_duplicates() && n[j].1.len()
                        > 0 by {
                        let bj = if j < i as int {
                            j
                        } else {
                            j + 1
                        };
                        assert(n[j] == m0[bj]);
                    }
                }
            }
            true
        },
        None => false,
    }
}

} // verus!
