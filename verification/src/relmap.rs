//! Association lists from a string key to a list of (string, string) pairs:
//! the shape of the relation indices, source → (target, description) and
//! target → (source, description). Within one list the first components are
//! unique — only one relation may exist per ordered file pair.

use vstd::prelude::*;
use crate::text::{copy_chars, seq_eq};

verus! {

/// A relation index in memory.
pub type RelMap = Vec<(Vec<char>, Vec<(Vec<char>, Vec<char>)>)>;

/// Its mathematical shape.
pub type RelMapSeq = Seq<(Seq<char>, Seq<(Seq<char>, Seq<char>)>)>;

/// No two entries share a key.
pub open spec fn rkeys_distinct(m: RelMapSeq) -> bool {
    forall|i: int, j: int| 0 <= i < j < m.len() ==> m[i].0 != m[j].0
}

/// A pair list holds some pair whose first component is `a`.
pub open spec fn firsts_contain(l: Seq<(Seq<char>, Seq<char>)>, a: Seq<char>) -> bool {
    exists|i: int| 0 <= i < l.len() && l[i].0 == a
}

/// Within one list the first components are unique.
pub open spec fn firsts_distinct(l: Seq<(Seq<char>, Seq<char>)>) -> bool {
    forall|i: int, j: int| 0 <= i < j < l.len() ==> l[i].0 != l[j].0
}

/// Every entry holds a non-empty list with unique first components.
pub open spec fn rentries_wf(m: RelMapSeq) -> bool {
    forall|i: int|
        0 <= i < m.len() ==> firsts_distinct((#[trigger] m[i]).1) && m[i].1.len() > 0
}

/// A well-formed relation index.
pub open spec fn rmap_wf(m: RelMapSeq) -> bool {
    rkeys_distinct(m) && rentries_wf(m)
}

/// The key `k` has an entry.
pub open spec fn rhas_key(m: RelMapSeq, k: Seq<char>) -> bool {
    exists|i: int| 0 <= i < m.len() && m[i].0 == k
}

/// The position of the entry for `k`.
pub open spec fn ridx_of(m: RelMapSeq, k: Seq<char>) -> int {
    choose|i: int| 0 <= i < m.len() && m[i].0 == k
}

/// The pair list stored under `k`; an absent key maps to the empty list.
pub open spec fn rlookup(m: RelMapSeq, k: Seq<char>) -> Seq<(Seq<char>, Seq<char>)> {
    if rhas_key(m, k) {
        m[ridx_of(m, k)].1
    } else {
        Seq::empty()
    }
}

/// An entry's key is found at its own position.
pub proof fn lemma_rlookup_entry(m: RelMapSeq, i: int)
    requires
        rkeys_distinct(m),
        0 <= i < m.len(),
    ensures
        rhas_key(m, m[i].0),
        ridx_of(m, m[i].0) == i,
        rlookup(m, m[i].0) == m[i].1,
{
    assert(rhas_key(m, m[i].0));
    let j = ridx_of(m, m[i].0);
    assert(0 <= j < m.len() && m[j].0 == m[i].0);
    if i != j {
        assert(false);
    }
}

/// Finds the position of the entry for `k`.
pub fn rfind(m: &RelMap, k: &Vec<char>) -> (r: Option<usize>)
    ensures
        match r {
            Some(i) => i < m.len() && m.deep_view()[i as int].0 == k@ && rhas_key(
                m.deep_view(),
                k@,
            ),
            None => !rhas_key(m.deep_view(), k@),
        },
{
    let mut i: usize = 0;
    while i < m.len()
        invariant
            0 <= i <= m.len(),
            forall|j: int| 0 <= j < i ==> m.deep_view()[j].0 != k@,
        decreases m.len() - i,
    {
        let hit = seq_eq(&m[i].0, k);
        proof {
            assert(m.deep_view()[i as int].0 == m[i as int].0@);
        }
        if hit {
            return Some(i);
        }
        i = i + 1;
    }
    proof {
        if rhas_key(m.deep_view(), k@) {
            let j = choose|j: int| 0 <= j < m.deep_view().len() && m.deep_view()[j].0 == k@;
            assert(m.deep_view()[j].0 == k@);
        }
    }
    None
}

/// Copies a pair list.
pub fn pairs_copy(l: &Vec<(Vec<char>, Vec<char>)>) -> (r: Vec<(Vec<char>, Vec<char>)>)
    ensures
        r.deep_view() == l.deep_view(),
{
    let mut r: Vec<(Vec<char>, Vec<char>)> = Vec::new();
    let mut i: usize = 0;
    while i < l.len()
        invariant
            0 <= i <= l.len(),
            r.deep_view() == l.deep_view().subrange(0, i as int),
        decreases l.len() - i,
    {
        let ghost before = r.deep_view();
        let a = copy_chars(&l[i].0);
        let b = copy_chars(&l[i].1);
        r.push((a, b));
        i = i + 1;
        proof {
            assert(r.deep_view() =~~= before.push(l.deep_view()[i - 1]));
            assert(r.deep_view() =~~= l.deep_view().subrange(0, i as int));
        }
    }
    proof {
        assert(l.deep_view().subrange(0, l.len() as int) =~~= l.deep_view());
    }
    r
}

/// Copies the pair list stored under `k`.
pub fn rlookup_copy(m: &RelMap, k: &Vec<char>) -> (r: Vec<(Vec<char>, Vec<char>)>)
    requires
        rkeys_distinct(m.deep_view()),
    ensures
        r.deep_view() == rlookup(m.deep_view(), k@),
{
    match rfind(m, k) {
        Some(i) => {
            proof {
                lemma_rlookup_entry(m.deep_view(), i as int);
            }
            pairs_copy(&m[i].1)
        },
        None => Vec::new(),
    }
}

/// Decides whether some pair in the list has `a` as its first component.
pub fn pairs_contain_first(l: &Vec<(Vec<char>, Vec<char>)>, a: &Vec<char>) -> (r: bool)
    ensures
        r == firsts_contain(l.deep_view(), a@),
{
    let mut i: usize = 0;
    while i < l.len()
        invariant
            0 <= i <= l.len(),
            forall|j: int| 0 <= j < i ==> l.deep_view()[j].0 != a@,
        decreases l.len() - i,
    {
        let hit = seq_eq(&l[i].0, a);
        proof {
            assert(l.deep_view()[i as int].0 == l[i as int].0@);
        }
        if hit {
            return true;
        }
        i = i + 1;
    }
    proof {
        if firsts_contain(l.deep_view(), a@) {
            let j = choose|j: int| 0 <= j < l.deep_view().len() && l.deep_view()[j].0 == a@;
        }
    }
    false
}

/// Appending an entry for a fresh key leaves every other key as it was.
pub proof fn lemma_rappend_entry_pub(m: RelMapSeq, k: Seq<char>, vs: Seq<(Seq<char>, Seq<char>)>)
    requires
        rkeys_distinct(m),
        !rhas_key(m, k),
    ensures
        rkeys_distinct(m.push((k, vs))),
        forall|k2: Seq<char>|
            #[trigger] rhas_key(m.push((k, vs)), k2) == (rhas_key(m, k2) || k2 == k),
        rlookup(m.push((k, vs)), k) == vs,
        forall|k2: Seq<char>|
            k2 != k ==> #[trigger] rlookup(m.push((k, vs)), k2) == rlookup(m, k2),
{
    let n = m.push((k, vs));
    assert forall|i: int, j: int| 0 <= i < j < n.len() implies n[i].0 != n[j].0 by {
        if j == n.len() - 1 {
            assert(n[i] == m[i]);
            if m[i].0 == k {
                assert(rhas_key(m, k));
            }
        } else {
            assert(n[i] == m[i] && n[j] == m[j]);
        }
    }
    assert forall|k2: Seq<char>| #[trigger] rhas_key(n, k2) == (rhas_key(m, k2) || k2 == k) by {
        if rhas_key(n, k2) {
            let i = choose|i: int| 0 <= i < n.len() && n[i].0 == k2;
            if i < m.len() {
                assert(m[i].0 == k2);
            }
        }
        if rhas_key(m, k2) {
            let i = choose|i: int| 0 <= i < m.len() && m[i].0 == k2;
            assert(n[i].0 == k2);
        }
        if k2 == k {
            assert(n[n.len() - 1].0 == k2);
        }
    }
    assert(n[n.len() - 1].0 == k);
    lemma_rlookup_entry(n, n.len() - 1);
    assert forall|k2: Seq<char>| k2 != k implies #[trigger] rlookup(n, k2) == rlookup(m, k2) by {
        if rhas_key(m, k2) {
            let i = choose|i: int| 0 <= i < m.len() && m[i].0 == k2;
            assert(n[i].0 == k2);
            lemma_rlookup_entry(m, i);
            lemma_rlookup_entry(n, i);
        }
    }
}

/// Replacing the list of one entry leaves every other key as it was.
proof fn lemma_rupdate_entry(m: RelMapSeq, i: int, vs: Seq<(Seq<char>, Seq<char>)>)
    requires
        rkeys_distinct(m),
        0 <= i < m.len(),
    ensures
        rkeys_distinct(m.update(i, (m[i].0, vs))),
        forall|k2: Seq<char>|
            #[trigger] rhas_key(m.update(i, (m[i].0, vs)), k2) == rhas_key(m, k2),
        rlookup(m.update(i, (m[i].0, vs)), m[i].0) == vs,
        forall|k2: Seq<char>|
            k2 != m[i].0 ==> #[trigger] rlookup(m.update(i, (m[i].0, vs)), k2) == rlookup(
                m,
                k2,
            ),
{
    let n = m.update(i, (m[i].0, vs));
    assert(forall|j: int| 0 <= j < n.len() ==> #[trigger] n[j].0 == m[j].0);
    assert forall|k2: Seq<char>| #[trigger] rhas_key(n, k2) == rhas_key(m, k2) by {
        if rhas_key(n, k2) {
            let j = choose|j: int| 0 <= j < n.len() && n[j].0 == k2;
            assert(m[j].0 == k2);
        }
        if rhas_key(m, k2) {
            let j = choose|j: int| 0 <= j < m.len() && m[j].0 == k2;
            assert(n[j].0 == k2);
        }
    }
    lemma_rlookup_entry(n, i);
    assert forall|k2: Seq<char>| k2 != m[i].0 implies #[trigger] rlookup(n, k2) == rlookup(
        m,
        k2,
    ) by {
        if rhas_key(m, k2) {
            let j = choose|j: int| 0 <= j < m.len() && m[j].0 == k2;
            assert(j != i);
            lemma_rlookup_entry(m, j);
            lemma_rlookup_entry(n, j);
            assert(n[j] == m[j]);
        }
    }
}

/// Removing an entry leaves every other key as it was.
proof fn lemma_rremove_entry(m: RelMapSeq, i: int)
    requires
        rkeys_distinct(m),
        0 <= i < m.len(),
    ensures
        rkeys_distinct(m.remove(i)),
        forall|k2: Seq<char>|
            #[trigger] rhas_key(m.remove(i), k2) == (rhas_key(m, k2) && k2 != m[i].0),
        forall|k2: Seq<char>|
            k2 != m[i].0 ==> #[trigger] rlookup(m.remove(i), k2) == rlookup(m, k2),
{
    let n = m.remove(i);
    assert forall|p: int, q: int| 0 <= p < q < n.len() implies n[p].0 != n[q].0 by {
        let bp = if p < i {
            p
        } else {
            p + 1
        };
        let bq = if q < i {
            q
        } else {
            q + 1
        };
        assert(n[p] == m[bp] && n[q] == m[bq]);
    }
    assert forall|k2: Seq<char>| #[trigger] rhas_key(n, k2) == (rhas_key(m, k2) && k2
        != m[i].0) by {
        if rhas_key(n, k2) {
            let j = choose|j: int| 0 <= j < n.len() && n[j].0 == k2;
            let bj = if j < i {
                j
            } else {
                j + 1
            };
            assert(m[bj].0 == k2);
            assert(bj != i);
            if k2 == m[i].0 {
                assert(false);
            }
        }
        if rhas_key(m, k2) && k2 != m[i].0 {
            let j = choose|j: int| 0 <= j < m.len() && m[j].0 == k2;
            assert(j != i);
            if j < i {
                assert(n[j].0 == k2);
            } else {
                assert(n[j - 1].0 == k2);
            }
        }
    }
    assert forall|k2: Seq<char>| k2 != m[i].0 implies #[trigger] rlookup(n, k2) == rlookup(
        m,
        k2,
    ) by {
        if rhas_key(m, k2) {
            let j = choose|j: int| 0 <= j < m.len() && m[j].0 == k2;
            assert(j != i);
            lemma_rlookup_entry(m, j);
            if j < i {
                assert(n[j] == m[j]);
                lemma_rlookup_entry(n, j);
            } else {
                assert(n[j - 1] == m[j]);
                lemma_rlookup_entry(n, j - 1);
            }
        }
    }
}

/// Adds the pair `(a, b)` under `k`, creating the entry if needed. The first
/// component must be new for that key.
pub fn radd_pair(m: &mut RelMap, k: &Vec<char>, a: &Vec<char>, b: &Vec<char>)
    requires
        rmap_wf(old(m).deep_view()),
        !firsts_contain(rlookup(old(m).deep_view(), k@), a@),
    ensures
        rmap_wf(final(m).deep_view()),
        rlookup(final(m).deep_view(), k@) == rlookup(old(m).deep_view(), k@).push((a@, b@)),
        forall|k2: Seq<char>|
            k2 != k@ ==> #[trigger] rlookup(final(m).deep_view(), k2) == rlookup(
                old(m).deep_view(),
                k2,
            ),
        forall|k2: Seq<char>|
            #[trigger] rhas_key(final(m).deep_view(), k2) == (rhas_key(old(m).deep_view(), k2)
                || k2 == k@),
{
    let ghost m0 = m.deep_view();
    let pair = (copy_chars(a), copy_chars(b));
    match rfind(m, k) {
        Some(i) => {
            proof {
                lemma_rlookup_entry(m0, i as int);
            }
            let mut vals = pairs_copy(&m[i].1);
            vals.push(pair);
            let key = copy_chars(k);
            let ghost vals_v = vals.deep_view();
            m.set(i, (key, vals));
            proof {
                assert(vals_v =~~= m0[i as int].1.push((a@, b@)));
                assert(m.deep_view() =~~= m0.update(i as int, (m0[i as int].0, vals_v)));
                lemma_rupdate_entry(m0, i as int, vals_v);
                let n = m.deep_view();
                assert(rentries_wf(n)) by {
                    assert forall|j: int|
                        0 <= j < n.len() implies firsts_distinct((#[trigger] n[j]).1)
                        && n[j].1.len() > 0 by {
                        if j != i {
                            assert(n[j] == m0[j]);
                        } else {
                            let l0 = m0[i as int].1;
                            assert forall|p: int, q: int|
                                0 <= p < q < n[j].1.len() implies n[j].1[p].0 != n[j].1[q].0 by {
                                if q == n[j].1.len() - 1 {
                                    assert(n[j].1[p] == l0[p]);
                                    assert(l0[p].0 != a@);
                                } else {
                                    assert(n[j].1[p] == l0[p] && n[j].1[q] == l0[q]);
                                }
                            }
                        }
                    }
                }
            }
        },
        None => {
            let key = copy_chars(k);
            let mut vals: Vec<(Vec<char>, Vec<char>)> = Vec::new();
            vals.push(pair);
            m.push((key, vals));
            proof {
                assert(m.deep_view() =~~= m0.push((k@, seq![(a@, b@)])));
                lemma_rappend_entry_pub(m0, k@, seq![(a@, b@)]);
                let n = m.deep_view();
                assert(rentries_wf(n)) by {
                    assert forall|j: int|
                        0 <= j < n.len() implies firsts_distinct((#[trigger] n[j]).1)
                        && n[j].1.len() > 0 by {
                        if j < n.len() - 1 {
                            assert(n[j] == m0[j]);
                        } else {
                            assert(n[j].1 =~~= seq![(a@, b@)]);
                        }
                    }
                }
                assert(rlookup(n, k@) =~~= Seq::<(Seq<char>, Seq<char>)>::empty().push((a@, b@)));
            }
        },
    }
}

/// Removes the pair whose first component is `a` from the list under `k`,
/// dropping the entry when its list becomes empty.
pub fn rremove_by_first(m: &mut RelMap, k: &Vec<char>, a: &Vec<char>) -> (removed: bool)
    requires
        rmap_wf(old(m).deep_view()),
    ensures
        rmap_wf(final(m).deep_view()),
        removed == firsts_contain(rlookup(old(m).deep_view(), k@), a@),
        !removed ==> *final(m) == *old(m),
        forall|p: (Seq<char>, Seq<char>)|
            #[trigger] rlookup(final(m).deep_view(), k@).contains(p) == (rlookup(
                old(m).deep_view(),
                k@,
            ).contains(p) && p.0 != a@),
        forall|k2: Seq<char>|
            k2 != k@ ==> #[trigger] rlookup(final(m).deep_view(), k2) == rlookup(
                old(m).deep_view(),
                k2,
            ),
        forall|k2: Seq<char>|
            #[trigger] rhas_key(final(m).deep_view(), k2) == (rhas_key(old(m).deep_view(), k2)
                && rlookup(final(m).deep_view(), k2).len() > 0),
{
    let ghost m0 = m.deep_view();
    proof {
        assert forall|k2: Seq<char>| rhas_key(m0, k2) implies #[trigger] rlookup(m0, k2).len()
            > 0 by {
            let j = choose|j: int| 0 <= j < m0.len() && m0[j].0 == k2;
            lemma_rlookup_entry(m0, j);
        }
    }
    match rfind(m, k) {
        Some(i) => {
            proof {
                lemma_rlookup_entry(m0, i as int);
            }
            let ghost l0 = m0[i as int].1;
            let mut vals = pairs_copy(&m[i].1);
            let mut j: usize = 0;
            let mut found = false;
            while !found && j < vals.len()
                invariant
                    0 <= j <= vals.len(),
                    !found ==> vals.deep_view() == l0 && (forall|p: int|
                        0 <= p < j ==> l0[p].0 != a@),
                    found ==> exists|x: int|
                        0 <= x < l0.len() && l0[x].0 == a@ && vals.deep_view() == l0.remove(x),
                    firsts_distinct(l0),
                decreases vals.len() - j,
            {
                let hit = seq_eq(&vals[j].0, a);
                proof {
                    assert(vals.deep_view()[j as int].0 == vals[j as int].0@);
                }
                if hit {
                    vals.remove(j);
                    found = true;
                    proof {
                        assert(vals.deep_view() =~~= l0.remove(j as int));
                        assert(l0[j as int].0 == a@);
                    }
                } else {
                    j = j + 1;
                }
            }
            if !found {
                proof {
                    if firsts_contain(l0, a@) {
                        let x = choose|x: int| 0 <= x < l0.len() && l0[x].0 == a@;
                    }
                }
                return false;
            }
            proof {
                let x = choose|x: int|
                    0 <= x < l0.len() && l0[x].0 == a@ && vals.deep_view() == l0.remove(x);
                assert(firsts_contain(l0, a@));
                let lv = vals.deep_view();
                assert forall|p: (Seq<char>, Seq<char>)| #[trigger] lv.contains(p)
                    == (l0.contains(p) && p.0 != a@) by {
                    if lv.contains(p) {
                        let y = choose|y: int| 0 <= y < lv.len() && lv[y] == p;
                        let by_ = if y < x {
                            y
                        } else {
                            y + 1
                        };
                        assert(l0[by_] == p);
                        assert(by_ != x);
                        if p.0 == a@ {
                            assert(l0[by_].0 == a@ && l0[x].0 == a@);
                            assert(false);
                        }
                    }
                    if l0.contains(p) && p.0 != a@ {
                        let y = choose|y: int| 0 <= y < l0.len() && l0[y] == p;
                        assert(y != x);
                        if y < x {
                            assert(lv[y] == p);
                        } else {
                            assert(lv[y - 1] == p);
                        }
                    }
                }
                assert(firsts_distinct(lv)) by {
                    assert forall|p: int, q: int|
                        0 <= p < q < lv.len() implies lv[p].0 != lv[q].0 by {
                        let bp = if p < x {
                            p
                        } else {
                            p + 1
                        };
                        let bq = if q < x {
                            q
                        } else {
                            q + 1
                        };
                        assert(lv[p] == l0[bp] && lv[q] == l0[bq]);
                    }
                }
            }
            if vals.len() == 0 {
                m.remove(i);
                proof {
                    assert(m.deep_view() =~~= m0.remove(i as int));
                    lemma_rremove_entry(m0, i as int);
                    let n = m.deep_view();
                    assert(rentries_wf(n)) by {
                        assert forall|j2: int|
                            0 <= j2 < n.len() implies firsts_distinct((#[trigger] n[j2]).1)
                            && n[j2].1.len() > 0 by {
                            let bj = if j2 < i as int {
                                j2
                            } else {
                                j2 + 1
                            };
                            assert(n[j2] == m0[bj]);
                        }
                    }
                    assert(rlookup(n, k@) =~~= Seq::<(Seq<char>, Seq<char>)>::empty());
                    assert forall|p: (Seq<char>, Seq<char>)| #[trigger] rlookup(
                        n,
                        k@,
                    ).contains(p) == (rlookup(m0, k@).contains(p) && p.0 != a@) by {
                        if rlookup(m0, k@).contains(p) && p.0 != a@ {
                            assert(vals.deep_view().contains(p));
                        }
                    }
                }
                true
            } else {
                let key = copy_chars(k);
                let ghost vals_v = vals.deep_view();
                m.set(i, (key, vals));
                proof {
                    assert(m.deep_view() =~~= m0.update(i as int, (m0[i as int].0, vals_v)));
                    lemma_rupdate_entry(m0, i as int, vals_v);
                    let n = m.deep_view();
                    assert(rentries_wf(n)) by {
                        assert forall|j2: int|
                            0 <= j2 < n.len() implies firsts_distinct((#[trigger] n[j2]).1)
                            && n[j2].1.len() > 0 by {
                            if j2 != i {
                                assert(n[j2] == m0[j2]);
                            }
                        }
                    }
                    assert forall|k2: Seq<char>| rhas_key(n, k2) implies #[trigger] rlookup(
                        n,
                        k2,
                    ).len() > 0 by {
                        let j2 = choose|j2: int| 0 <= j2 < n.len() && n[j2].0 == k2;
                        lemma_rlookup_entry(n, j2);
                    }
                }
                true
            }
        },
        None => false,
    }
}

/// Membership in a pair list grows by exactly the pushed pair.
pub proof fn lemma_pair_contains_push(l: Seq<(Seq<char>, Seq<char>)>, x: (Seq<char>, Seq<char>))
    ensures
        forall|p: (Seq<char>, Seq<char>)|
            #[trigger] l.push(x).contains(p) == (l.contains(p) || p == x),
        forall|a: Seq<char>|
            #[trigger] firsts_contain(l.push(x), a) == (firsts_contain(l, a) || a == x.0),
{
    let n = l.push(x);
    assert forall|p: (Seq<char>, Seq<char>)| #[trigger] n.contains(p) == (l.contains(p) || p
        == x) by {
        if n.contains(p) {
            let k = choose|k: int| 0 <= k < n.len() && n[k] == p;
            if k < l.len() {
                assert(l[k] == p);
            }
        }
        if l.contains(p) {
            let k = choose|k: int| 0 <= k < l.len() && l[k] == p;
            assert(n[k] == p);
        }
        if p == x {
            assert(n[n.len() - 1] == p);
        }
    }
    assert forall|a: Seq<char>| #[trigger] firsts_contain(n, a) == (firsts_contain(l, a) || a
        == x.0) by {
        if firsts_contain(n, a) {
            let k = choose|k: int| 0 <= k < n.len() && n[k].0 == a;
            if k < l.len() {
                assert(l[k].0 == a);
            }
        }
        if firsts_contain(l, a) {
            let k = choose|k: int| 0 <= k < l.len() && l[k].0 == a;
            assert(n[k].0 == a);
        }
        if a == x.0 {
            assert(n[n.len() - 1].0 == a);
        }
    }
}

/// The keys of the index, in entry order.
pub fn rkeys(m: &RelMap) -> (r: Vec<Vec<char>>)
    requires
        rkeys_distinct(m.deep_view()),
    ensures
        r.deep_view().no_duplicates(),
        r.deep_view().len() == m.deep_view().len(),
        forall|i: int|
            0 <= i < m.deep_view().len() ==> #[trigger] r.deep_view()[i] == m.deep_view()[i].0,
        forall|k: Seq<char>|
            #[trigger] r.deep_view().contains(k) == rhas_key(m.deep_view(), k),
{
    let mut r: Vec<Vec<char>> = Vec::new();
    let mut i: usize = 0;
    while i < m.len()
        invariant
            0 <= i <= m.len(),
            r.deep_view().len() == i,
            forall|j: int| 0 <= j < i ==> #[trigger] r.deep_view()[j] == m.deep_view()[j].0,
        decreases m.len() - i,
    {
        let ghost before = r.deep_view();
        r.push(copy_chars(&m[i].0));
        i = i + 1;
        proof {
            assert(r.deep_view() =~~= before.push(m.deep_view()[i - 1].0));
        }
    }
    proof {
        assert forall|k: Seq<char>| #[trigger] r.deep_view().contains(k) == rhas_key(
            m.deep_view(),
            k,
        ) by {
            if r.deep_view().contains(k) {
                let j = choose|j: int| 0 <= j < r.deep_view().len() && r.deep_view()[j] == k;
                assert(m.deep_view()[j].0 == k);
            }
            if rhas_key(m.deep_view(), k) {
                let j = choose|j: int| 0 <= j < m.deep_view().len() && m.deep_view()[j].0 == k;
                assert(r.deep_view()[j] == k);
            }
        }
        assert(r.deep_view().no_duplicates()) by {
            assert forall|p: int, q: int|
                0 <= p < q < r.deep_view().len() implies r.deep_view()[p] != r.deep_view()[q] by {
                assert(r.deep_view()[p] == m.deep_view()[p].0);
                assert(r.deep_view()[q] == m.deep_view()[q].0);
            }
        }
    }
    r
}

/// The number of pairs stored over all entries.
pub open spec fn sum_lens(m: RelMapSeq) -> int
    decreases m.len(),
{
    if m.len() == 0 {
        0
    } else {
        sum_lens(m.drop_last()) + m.last().1.len()
    }
}

/// `x` clipped to the usize range.
pub open spec fn clamp_usize(x: int) -> int {
    if x > usize::MAX as int {
        usize::MAX as int
    } else {
        x
    }
}

/// Counts all stored pairs, clipping at the usize maximum.
pub fn count_pairs(m: &RelMap) -> (r: usize)
    ensures
        r as int == clamp_usize(sum_lens(m.deep_view())),
{
    let mut total: usize = 0;
    let mut i: usize = 0;
    while i < m.len()
        invariant
            0 <= i <= m.len(),
            total as int == clamp_usize(sum_lens(m.deep_view().subrange(0, i as int))),
        decreases m.len() - i,
    {
        let len_i = m[i].1.len();
        proof {
            assert(m.deep_view()[i as int].1.len() == m[i as int].1.len());
            let pre = m.deep_view().subrange(0, i as int);
            let cur = m.deep_view().subrange(0, i + 1);
            assert(cur.drop_last() =~~= pre);
            assert(cur.last() == m.deep_view()[i as int]);
            assert(sum_lens(cur) == sum_lens(pre) + m.deep_view()[i as int].1.len());
            assert(sum_lens(pre) >= 0) by {
                lemma_sum_lens_nonneg_pub(pre);
            }
        }
        if total <= usize::MAX - len_i {
            total = total + len_i;
        } else {
            total = usize::MAX;
        }
        i = i + 1;
    }
    proof {
        assert(m.deep_view().subrange(0, m.len() as int) =~~= m.deep_view());
    }
    total
}

pub proof fn lemma_sum_lens_nonneg_pub(m: RelMapSeq)
    ensures
        sum_lens(m) >= 0,
    decreases m.len(),
{
    if m.len() > 0 {
        lemma_sum_lens_nonneg_pub(m.drop_last());
    }
}

/// The pair count of a prefix one longer grows by the last row's length.
pub proof fn lemma_sum_lens_prefix(m: RelMapSeq, i: int)
    requires
        0 <= i < m.len(),
    ensures
        sum_lens(m.subrange(0, i + 1)) == sum_lens(m.subrange(0, i)) + m[i].1.len(),
{
    let cur = m.subrange(0, i + 1);
    assert(cur.drop_last() =~~= m.subrange(0, i));
    assert(cur.last() == m[i]);
}

} // verus!
