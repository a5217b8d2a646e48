//! Lexicographic order on character sequences, by code point, and sorting of
//! string lists under that order. Code-point order agrees with the byte order
//! of the UTF-8 encodings, so sorted output here matches a byte-wise sort.

use vstd::prelude::*;
use vstd::multiset::Multiset;

verus! {

/// `a` is lexicographically at most `b`, comparing code points.
pub open spec fn lex_le(a: Seq<char>, b: Seq<char>) -> bool
    decreases a.len(),
{
    if a.len() == 0 {
        true
    } else if b.len() == 0 {
        false
    } else if (a[0] as u32) == (b[0] as u32) {
        lex_le(a.drop_first(), b.drop_first())
    } else {
        (a[0] as u32) < (b[0] as u32)
    }
}

pub proof fn lemma_lex_le_reflexive(a: Seq<char>)
    ensures
        lex_le(a, a),
    decreases a.len(),
{
    if a.len() > 0 {
        lemma_lex_le_reflexive(a.drop_first());
    }
}

pub proof fn lemma_lex_le_total(a: Seq<char>, b: Seq<char>)
    ensures
        lex_le(a, b) || lex_le(b, a),
    decreases a.len(),
{
    if a.len() > 0 && b.len() > 0 && (a[0] as u32) == (b[0] as u32) {
        lemma_lex_le_total(a.drop_first(), b.drop_first());
    }
}

pub proof fn lemma_lex_le_transitive(a: Seq<char>, b: Seq<char>, c: Seq<char>)
    requires
        lex_le(a, b),
        lex_le(b, c),
    ensures
        lex_le(a, c),
    decreases a.len(),
{
    if a.len() > 0 && b.len() > 0 && c.len() > 0 && (a[0] as u32) == (b[0] as u32) && (b[0]
        as u32) == (c[0] as u32) {
        lemma_lex_le_transitive(a.drop_first(), b.drop_first(), c.drop_first());
    }
}

proof fn lemma_lex_le_common_prefix(a: Seq<char>, b: Seq<char>, i: int)
    requires
        0 <= i <= a.len(),
        i <= b.len(),
        forall|k: int| 0 <= k < i ==> (a[k] as u32) == (b[k] as u32),
    ensures
        lex_le(a, b) == lex_le(a.subrange(i, a.len() as int), b.subrange(i, b.len() as int)),
    decreases i,
{
    if i == 0 {
        assert(a.subrange(0, a.len() as int) =~= a);
        assert(b.subrange(0, b.len() as int) =~= b);
    } else {
        assert(a.len() > 0 && b.len() > 0 && (a[0] as u32) == (b[0] as u32));
        let a1 = a.drop_first();
        let b1 = b.drop_first();
        lemma_lex_le_common_prefix(a1, b1, i - 1);
        assert(a1.subrange(i - 1, a1.len() as int) =~= a.subrange(i, a.len() as int));
        assert(b1.subrange(i - 1, b1.len() as int) =~= b.subrange(i, b.len() as int));
    }
}

/// Decides whether `a` is lexicographically at most `b`.
pub fn lex_le_exec(a: &Vec<char>, b: &Vec<char>) -> (r: bool)
    ensures
        r == lex_le(a@, b@),
{
    let mut i: usize = 0;
    loop
        invariant
            0 <= i <= a.len(),
            i <= b.len(),
            forall|k: int| 0 <= k < i ==> (a@[k] as u32) == (b@[k] as u32),
        decreases a.len() - i,
    {
        if i == a.len() {
            proof {
                lemma_lex_le_common_prefix(a@, b@, i as int);
                assert(a@.subrange(i as int, a@.len() as int).len() == 0);
            }
            return true;
        }
        if i == b.len() {
            proof {
                lemma_lex_le_common_prefix(a@, b@, i as int);
                assert(b@.subrange(i as int, b@.len() as int).len() == 0);
                assert(a@.subrange(i as int, a@.len() as int).len() > 0);
            }
            return false;
        }
        let ka = a[i] as u32;
        let kb = b[i] as u32;
        if ka != kb {
            let r = ka < kb;
            proof {
                lemma_lex_le_common_prefix(a@, b@, i as int);
                let ta = a@.subrange(i as int, a@.len() as int);
                let tb = b@.subrange(i as int, b@.len() as int);
                assert(ta[0] == a@[i as int]);
                assert(tb[0] == b@[i as int]);
                assert(lex_le(ta, tb) == ((ta[0] as u32) < (tb[0] as u32)));
            }
            return r;
        }
        i = i + 1;
    }
}

/// The list is in non-decreasing lexicographic order.
pub open spec fn sorted_lex(l: Seq<Seq<char>>) -> bool {
    forall|i: int, j: int| 0 <= i < j < l.len() ==> lex_le(l[i], l[j])
}

/// Sorts a list of strings lexicographically; the result holds exactly the
/// same strings, with multiplicity.
pub fn sort_strs(v: Vec<Vec<char>>) -> (r: Vec<Vec<char>>)
    ensures
        r.deep_view().to_multiset() == v.deep_view().to_multiset(),
        sorted_lex(r.deep_view()),
        r.len() == v.len(),
{
    broadcast use vstd::seq_lib::group_to_multiset_ensures;
    broadcast use vstd::multiset::group_multiset_axioms;

    let mut src = v;
    let mut out: Vec<Vec<char>> = Vec::new();
    proof {
        assert(out.deep_view().to_multiset().add(src.deep_view().to_multiset())
            =~= v.deep_view().to_multiset());
    }
    while src.len() > 0
        invariant
            out.deep_view().to_multiset().add(src.deep_view().to_multiset())
                == v.deep_view().to_multiset(),
            sorted_lex(out.deep_view()),
            out.len() + src.len() == v.len(),
            forall|i: int, j: int|
                0 <= i < out.deep_view().len() && 0 <= j < src.deep_view().len() ==> lex_le(
                    #[trigger] out.deep_view()[i],
                    #[trigger] src.deep_view()[j],
                ),
        decreases src.len(),
    {
        let mut min: usize = 0;
        let mut k: usize = 1;
        proof {
            lemma_lex_le_reflexive(src.deep_view()[0]);
        }
        while k < src.len()
            invariant
                0 <= min < src.len(),
                min < k <= src.len() || (k <= src.len() && min == 0),
                forall|j: int|
                    0 <= j < k ==> lex_le(
                        src.deep_view()[min as int],
                        #[trigger] src.deep_view()[j],
                    ),
            decreases src.len() - k,
        {
            let kv_le = lex_le_exec(&src[k], &src[min]);
            proof {
                assert(src[k as int]@ == src.deep_view()[k as int]);
                assert(src[min as int]@ == src.deep_view()[min as int]);
            }
            if kv_le {
                proof {
                    lemma_lex_le_reflexive(src.deep_view()[k as int]);
                    assert forall|j: int| 0 <= j < k + 1 implies lex_le(
                        src.deep_view()[k as int],
                        #[trigger] src.deep_view()[j],
                    ) by {
                        if j < k {
                            lemma_lex_le_transitive(
                                src.deep_view()[k as int],
                                src.deep_view()[min as int],
                                src.deep_view()[j],
                            );
                        }
                    }
                }
                min = k;
            } else {
                proof {
                    lemma_lex_le_total(src.deep_view()[k as int], src.deep_view()[min as int]);
                }
            }
            k = k + 1;
        }
        let ghost src_before = src.deep_view();
        let ghost out_before = out.deep_view();
        let m = src.remove(min);
        out.push(m);
        proof {
            assert(out.deep_view() =~~= out_before.push(m@));
            assert(src.deep_view() =~~= src_before.remove(min as int));
            assert(m@ == src_before[min as int]);
            vstd::seq_lib::to_multiset_build::<Seq<char>>(out_before, m@);
            vstd::seq_lib::to_multiset_remove::<Seq<char>>(src_before, min as int);
            assert(out.deep_view().to_multiset() == out_before.to_multiset().insert(m@));
            assert(src.deep_view().to_multiset() == src_before.to_multiset().remove(m@));
            assert(src_before.contains(m@));
            vstd::seq_lib::to_multiset_contains::<Seq<char>>(src_before, m@);
            assert(src_before.to_multiset().count(m@) > 0);
            assert(out.deep_view().to_multiset().add(src.deep_view().to_multiset()) =~= v
                .deep_view().to_multiset());
            assert forall|i: int, j: int|
                0 <= i < j < out.deep_view().len() implies lex_le(
                out.deep_view()[i],
                out.deep_view()[j],
            ) by {
                if j == out.deep_view().len() - 1 {
                    assert(out.deep_view()[i] == out_before[i]);
                }
            }
            assert forall|i: int, j: int|
                0 <= i < out.deep_view().len() && 0 <= j < src.deep_view().len() implies lex_le(
                #[trigger] out.deep_view()[i],
                #[trigger] src.deep_view()[j],
            ) by {
                let sj = src.deep_view()[j];
                assert(sj == if j < min as int {
                    src_before[j]
                } else {
                    src_before[j + 1]
                });
                if i < out.deep_view().len() - 1 {
                    assert(out.deep_view()[i] == out_before[i]);
                } else {
                    assert(out.deep_view()[i] == m@);
                }
            }
        }
    }
    proof {
        assert(src.deep_view().to_multiset() =~= Multiset::empty());
        assert(out.deep_view().to_multiset() =~= v.deep_view().to_multiset());
        assert(out.deep_view().to_multiset().len() == v.deep_view().to_multiset().len());
    }
    out
}

} // verus!
