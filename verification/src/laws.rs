//! The laws of the engine, stated over the same spec functions the public
//! contracts use: adding tags is idempotent, the boolean operators of the
//! query language mean union, intersection and complement, and a prefix
//! wildcard collects every matching tag's files.

use vstd::prelude::*;
use crate::query::{
    eval_and_upto, eval_or_upto, eval_query, not_prefix, query_result, sep_and, sep_or, star,
    universe_of, wc_match, wc_middles, wildcard_files,
};
use crate::split::split_on;
use crate::tags::{add_new, lemma_add_new_membership, newly_added, TagManager};
use crate::text::{
    contains_seq, ends_with_spec, find_first, is_match_at, is_space_char,
    lemma_find_first_from_evidence, lemma_find_first_from_no_match, starts_with_spec,
    trim_end_spec, trim_spec, trim_start_spec,
};
use crate::assoc::{has_key, lookup};

verus! {

/// Adding the same tags twice changes nothing the second time and reports
/// nothing newly added: `addTags(f, T)` makes `getFileTags(f)` contain `T`
/// (its ensures state the new tag list as `add_new`), and a repeated
/// `addTags(f, T)` leaves the list as it is, with an empty added list.
pub proof fn lemma_add_tags_idempotent(cur: Seq<Seq<char>>, ts: Seq<Seq<char>>)
    ensures
        forall|t: Seq<char>| ts.contains(t) ==> #[trigger] add_new(cur, ts).contains(t),
        add_new(add_new(cur, ts), ts) == add_new(cur, ts),
        newly_added(add_new(cur, ts), ts) == Seq::<Seq<char>>::empty(),
{
    lemma_add_new_membership(cur, ts);
    let once = add_new(cur, ts);
    assert(forall|i: int| 0 <= i < ts.len() ==> once.contains(#[trigger] ts[i]));
    lemma_add_all_present(once, ts);
}

proof fn lemma_add_all_present(cur: Seq<Seq<char>>, ts: Seq<Seq<char>>)
    requires
        forall|i: int| 0 <= i < ts.len() ==> cur.contains(#[trigger] ts[i]),
    ensures
        add_new(cur, ts) == cur,
        newly_added(cur, ts) == Seq::<Seq<char>>::empty(),
    decreases ts.len(),
{
    if ts.len() > 0 {
        assert(cur.contains(ts[0]));
        assert(forall|i: int|
            0 <= i < ts.drop_first().len() ==> cur.contains(#[trigger] ts.drop_first()[i]));
        lemma_add_all_present(cur, ts.drop_first());
    }
}

/// A trimmed non-empty string starts and ends with a non-space character,
/// and conversely such a string is its own trim.
proof fn lemma_trim_fixpoint(s: Seq<char>)
    requires
        s.len() > 0,
        !is_space_char(s[0]),
        !is_space_char(s.last()),
    ensures
        trim_spec(s) == s,
{
    assert(trim_start_spec(s) == s);
    assert(trim_end_spec(s) == s);
}

/// With no occurrence of `sep` inside `a`, inside `b`, or spanning a
/// boundary, splitting the concatenation gives exactly the two pieces.
proof fn lemma_split_concat_two(a: Seq<char>, sep: Seq<char>, b: Seq<char>)
    requires
        sep.len() > 0,
        !contains_seq(a, sep),
        !contains_seq(b, sep),
        forall|p: int|
            a.len() - sep.len() < p < a.len() + sep.len() && p != a.len() && 0 <= p
                ==> !is_match_at(a + sep + b, sep, p),
    ensures
        split_on(a + sep + b, sep) == seq![a, b],
        contains_seq(a + sep + b, sep),
{
    let s = a + sep + b;
    assert(is_match_at(s, sep, a.len() as int)) by {
        assert(s.subrange(a.len() as int, a.len() + sep.len() as int) =~= sep);
    }
    assert forall|p: int| 0 <= p < a.len() implies !is_match_at(s, sep, p) by {
        if is_match_at(s, sep, p) {
            if p + sep.len() <= a.len() {
                assert(is_match_at(a, sep, p)) by {
                    assert(a.subrange(p, p + sep.len() as int) =~= s.subrange(
                        p,
                        p + sep.len() as int,
                    ));
                }
            }
        }
    }
    lemma_find_first_from_evidence(s, sep, a.len() as int);
    let rest = s.subrange(a.len() + sep.len() as int, s.len() as int);
    assert(rest =~= b);
    assert forall|p: int| !is_match_at(b, sep, p) by {
        if is_match_at(b, sep, p) {
            assert(contains_seq(b, sep));
        }
    }
    lemma_find_first_from_no_match(b, sep);
    assert(split_on(s, sep) =~~= seq![a] + split_on(b, sep));
    assert(split_on(b, sep) =~~= seq![b]);
    assert(split_on(s, sep) =~~= seq![a, b]);
}

/// `A OR B` answers exactly the union of the answers of `A` and of `B`, for
/// operand expressions that are trimmed, non-empty, free of the ` OR `
/// operator, and do not recreate it at the joint (`A` not ending in ` OR`,
/// `B` not starting with `OR `).
pub proof fn lemma_or_is_union(m: TagManager, a: Seq<char>, b: Seq<char>)
    requires
        trim_spec(a) == a,
        a.len() > 0,
        trim_spec(b) == b,
        b.len() > 0,
        !contains_seq(a, sep_or()),
        !contains_seq(b, sep_or()),
        !ends_with_spec(a, seq![' ', 'O', 'R']),
        !starts_with_spec(b, seq!['O', 'R', ' ']),
    ensures
        query_result(m, a + sep_or() + b) == query_result(m, a).union(query_result(m, b)),
{
    let s = a + sep_or() + b;
    assert forall|p: int|
        a.len() - 4 < p < a.len() + 4 && p != a.len() && 0 <= p implies !is_match_at(
        s,
        sep_or(),
        p,
    ) by {
        if is_match_at(s, sep_or(), p) {
            assert(forall|k: int|
                0 <= k < 4 ==> s.subrange(p, p + 4)[k] == #[trigger] s[p + k]);
            if p == a.len() - 3 {
                assert(a.subrange(a.len() - 3, a.len() as int) =~= seq![' ', 'O', 'R']);
            } else if p == a.len() - 2 {
                assert(s[p + 2] == ' ' && s[p + 2] == 'R');
            } else if p == a.len() - 1 {
                assert(s[p + 1] == ' ' && s[p + 1] == 'O');
            } else if p == a.len() + 1 {
                assert(s[p] == 'O' && s[p] == ' ');
            } else if p == a.len() + 2 {
                assert(s[p] == 'R' && s[p] == ' ');
            } else if p == a.len() + 3 {
                assert(b.subrange(0, 3) =~= seq!['O', 'R', ' ']);
            }
        }
    }
    lemma_split_concat_two(a, sep_or(), b);
    lemma_eval_two_or(m, a, b, s);
    lemma_ends_nonspace(a);
    lemma_ends_nonspace(b);
    lemma_trim_fixpoint(s);
    assert(query_result(m, s) =~= query_result(m, a).union(query_result(m, b)));
}

proof fn lemma_ends_nonspace(s: Seq<char>)
    requires
        trim_spec(s) == s,
        s.len() > 0,
    ensures
        !is_space_char(s[0]),
        !is_space_char(s.last()),
{
    crate::text::lemma_trim_len(s);
    if is_space_char(s[0]) {
        assert(trim_start_spec(s) == trim_start_spec(s.drop_first()));
        lemma_trim_start_len_helper(s.drop_first());
        lemma_trim_end_len_helper(trim_start_spec(s.drop_first()));
        assert(trim_spec(s).len() < s.len());
    }
    if !is_space_char(s[0]) && is_space_char(s.last()) {
        assert(trim_start_spec(s) == s);
        assert(trim_end_spec(s) == trim_end_spec(s.drop_last()));
        lemma_trim_end_len_helper(s.drop_last());
        assert(trim_spec(s).len() < s.len());
    }
}

proof fn lemma_trim_start_len_helper(s: Seq<char>)
    ensures
        trim_start_spec(s).len() <= s.len(),
    decreases s.len(),
{
    if s.len() > 0 && is_space_char(s[0]) {
        lemma_trim_start_len_helper(s.drop_first());
    }
}

proof fn lemma_trim_end_len_helper(s: Seq<char>)
    ensures
        trim_end_spec(s).len() <= s.len(),
    decreases s.len(),
{
    if s.len() > 0 && is_space_char(s.last()) {
        lemma_trim_end_len_helper(s.drop_last());
    }
}

proof fn lemma_eval_two_or(m: TagManager, a: Seq<char>, b: Seq<char>, s: Seq<char>)
    requires
        s == a + sep_or() + b,
        split_on(s, sep_or()) == seq![a, b],
        contains_seq(s, sep_or()),
        trim_spec(a) == a,
        trim_spec(b) == b,
    ensures
        eval_query(m, s) == eval_query(m, a).union(eval_query(m, b)),
{
    let parts = split_on(s, sep_or());
    let bound = s.len() as int;
    assert(eval_query(m, s) == eval_or_upto(m, parts, 2, bound));
    assert(parts[1] == b && parts[0] == a);
    assert(trim_spec(parts[1]).len() < bound);
    assert(trim_spec(parts[0]).len() < bound);
    assert(eval_or_upto(m, parts, 2, bound) == eval_or_upto(m, parts, 1, bound).union(
        eval_query(m, b),
    ));
    assert(eval_or_upto(m, parts, 1, bound) == eval_or_upto(m, parts, 0, bound).union(
        eval_query(m, a),
    ));
    assert(eval_or_upto(m, parts, 0, bound) == Set::<Seq<char>>::empty());
    assert(eval_query(m, s) =~= eval_query(m, a).union(eval_query(m, b)));
}

/// `A AND B` answers exactly the intersection of the answers of `A` and of
/// `B`, for operand expressions that are trimmed, non-empty, free of both
/// operators, and do not recreate one at the joint.
pub proof fn lemma_and_is_intersection(m: TagManager, a: Seq<char>, b: Seq<char>)
    requires
        trim_spec(a) == a,
        a.len() > 0,
        trim_spec(b) == b,
        b.len() > 0,
        !contains_seq(a, sep_or()),
        !contains_seq(b, sep_or()),
        !contains_seq(a, sep_and()),
        !contains_seq(b, sep_and()),
        !ends_with_spec(a, seq![' ', 'O', 'R']),
        !ends_with_spec(a, seq![' ', 'A', 'N', 'D']),
        !starts_with_spec(b, seq!['O', 'R', ' ']),
        !starts_with_spec(b, seq!['A', 'N', 'D', ' ']),
    ensures
        query_result(m, a + sep_and() + b) == query_result(m, a).intersect(query_result(m, b)),
{
    let s = a + sep_and() + b;
    // the concatenation holds no ` OR `
    assert forall|p: int| !is_match_at(s, sep_or(), p) by {
        if is_match_at(s, sep_or(), p) {
            assert(forall|k: int|
                0 <= k < 4 ==> s.subrange(p, p + 4)[k] == #[trigger] s[p + k]);
            assert(0 <= p && p + 4 <= s.len());
            if p + 4 <= a.len() {
                assert(is_match_at(a, sep_or(), p)) by {
                    assert(a.subrange(p, p + 4) =~= s.subrange(p, p + 4));
                }
            } else if p >= a.len() + 5 {
                assert(is_match_at(b, sep_or(), p - a.len() - 5)) by {
                    assert(b.subrange(p - a.len() - 5, p - a.len() - 1) =~= s.subrange(
                        p,
                        p + 4,
                    ));
                }
            } else if p == a.len() - 3 {
                assert(a.subrange(a.len() - 3, a.len() as int) =~= seq![' ', 'O', 'R']);
            } else if p == a.len() - 2 {
                assert(s[p + 2] == ' ' && s[p + 2] == 'R');
            } else if p == a.len() - 1 {
                assert(s[p + 1] == ' ' && s[p + 1] == 'O');
            } else if p == a.len() {
                assert(s[p + 1] == 'A' && s[p + 1] == 'O');
            } else if p == a.len() + 1 {
                assert(s[p] == 'A' && s[p] == ' ');
            } else if p == a.len() + 2 {
                assert(s[p] == 'N' && s[p] == ' ');
            } else if p == a.len() + 3 {
                assert(s[p] == 'D' && s[p] == ' ');
            } else if p == a.len() + 4 {
                assert(b.subrange(0, 3) =~= seq!['O', 'R', ' ']);
            }
        }
    }
    assert(!contains_seq(s, sep_or()));
    // and exactly one ` AND `, at the joint
    assert forall|p: int|
        a.len() - 5 < p < a.len() + 5 && p != a.len() && 0 <= p implies !is_match_at(
        s,
        sep_and(),
        p,
    ) by {
        if is_match_at(s, sep_and(), p) {
            assert(forall|k: int|
                0 <= k < 5 ==> s.subrange(p, p + 5)[k] == #[trigger] s[p + k]);
            if p == a.len() - 4 {
                assert(s[p + 4] == ' ' && s[p + 4] == ' ');
                assert(a.subrange(a.len() - 4, a.len() as int) =~= seq![' ', 'A', 'N', 'D']);
            } else if p == a.len() - 3 {
                assert(s[p + 3] == ' ' && s[p + 3] == 'D');
            } else if p == a.len() - 2 {
                assert(s[p + 2] == ' ' && s[p + 2] == 'N');
            } else if p == a.len() - 1 {
                assert(s[p + 1] == ' ' && s[p + 1] == 'A');
            } else if p == a.len() + 1 {
                assert(s[p] == 'A' && s[p] == ' ');
            } else if p == a.len() + 2 {
                assert(s[p] == 'N' && s[p] == ' ');
            } else if p == a.len() + 3 {
                assert(s[p] == 'D' && s[p] == ' ');
            } else if p == a.len() + 4 {
                assert(b.subrange(0, 4) =~= seq!['A', 'N', 'D', ' ']);
            }
        }
    }
    lemma_split_concat_two(a, sep_and(), b);
    let parts = split_on(s, sep_and());
    let bound = s.len() as int;
    assert(eval_query(m, s) == eval_and_upto(m, parts, 2, bound));
    assert(parts[1] == b && parts[0] == a);
    assert(trim_spec(parts[1]).len() < bound);
    assert(trim_spec(parts[0]).len() < bound);
    assert(eval_and_upto(m, parts, 2, bound) == eval_and_upto(m, parts, 1, bound).intersect(
        eval_query(m, b),
    ));
    assert(eval_and_upto(m, parts, 1, bound) == eval_query(m, a));
    lemma_ends_nonspace(a);
    lemma_ends_nonspace(b);
    lemma_trim_fixpoint(s);
    assert(query_result(m, s) =~= query_result(m, a).intersect(query_result(m, b)));
}

/// `NOT A` answers exactly all tagged files except the answer of `A`, for an
/// operand that is trimmed, non-empty, free of both operators, and not
/// starting with `OR ` or `AND `.
pub proof fn lemma_not_is_complement(m: TagManager, a: Seq<char>)
    requires
        trim_spec(a) == a,
        a.len() > 0,
        !contains_seq(a, sep_or()),
        !contains_seq(a, sep_and()),
        !starts_with_spec(a, seq!['O', 'R', ' ']),
        !starts_with_spec(a, seq!['A', 'N', 'D', ' ']),
    ensures
        query_result(m, not_prefix() + a) == universe_of(m).difference(query_result(m, a)),
{
    let s = not_prefix() + a;
    assert forall|p: int| !is_match_at(s, sep_or(), p) by {
        if is_match_at(s, sep_or(), p) {
            assert(forall|k: int|
                0 <= k < 4 ==> s.subrange(p, p + 4)[k] == #[trigger] s[p + k]);
            assert(0 <= p && p + 4 <= s.len());
            if p >= 4 {
                assert(is_match_at(a, sep_or(), p - 4)) by {
                    assert(a.subrange(p - 4, p) =~= s.subrange(p, p + 4));
                }
            } else if p == 0 {
                assert(s[0] == 'N' && s[0] == ' ');
            } else if p == 1 {
                assert(s[1] == 'O' && s[1] == ' ');
            } else if p == 2 {
                assert(s[2] == 'T' && s[2] == ' ');
            } else {
                assert(a.subrange(0, 3) =~= seq!['O', 'R', ' ']);
            }
        }
    }
    assert(!contains_seq(s, sep_or()));
    assert forall|p: int| !is_match_at(s, sep_and(), p) by {
        if is_match_at(s, sep_and(), p) {
            assert(forall|k: int|
                0 <= k < 5 ==> s.subrange(p, p + 5)[k] == #[trigger] s[p + k]);
            assert(0 <= p && p + 5 <= s.len());
            if p >= 4 {
                assert(is_match_at(a, sep_and(), p - 4)) by {
                    assert(a.subrange(p - 4, p + 1) =~= s.subrange(p, p + 5));
                }
            } else if p == 0 {
                assert(s[0] == 'N' && s[0] == ' ');
            } else if p == 1 {
                assert(s[1] == 'O' && s[1] == ' ');
            } else if p == 2 {
                assert(s[2] == 'T' && s[2] == ' ');
            } else {
                assert(a.subrange(0, 4) =~= seq!['A', 'N', 'D', ' ']);
            }
        }
    }
    assert(!contains_seq(s, sep_and()));
    assert(starts_with_spec(s, not_prefix())) by {
        assert(s.subrange(0, 4) =~= not_prefix());
    }
    assert(s.subrange(4, s.len() as int) =~= a);
    assert(eval_query(m, s) == universe_of(m).difference(eval_query(m, a)));
    lemma_ends_nonspace(a);
    assert(!is_space_char(s[0]));
    assert(s.last() == a.last());
    lemma_trim_fixpoint(s);
    assert(query_result(m, s) =~= universe_of(m).difference(query_result(m, a)));
}

/// `pre*` answers exactly the union of the file sets of every known tag that
/// starts with `pre`, for a star-free prefix that does not itself read as an
/// operator expression.
pub proof fn lemma_prefix_wildcard(m: TagManager, pre: Seq<char>)
    requires
        forall|j: int| 0 <= j < pre.len() ==> pre[j] != '*',
        !contains_seq(pre + star(), sep_or()),
        !contains_seq(pre + star(), sep_and()),
        !starts_with_spec(pre + star(), not_prefix()),
        pre.len() > 0 ==> !is_space_char(pre[0]),
    ensures
        query_result(m, pre + star()) == Set::new(
            |f: Seq<char>|
                exists|t: Seq<char>|
                    #[trigger] has_key(m.ttf(), t) && starts_with_spec(t, pre) && lookup(
                        m.ttf(),
                        t,
                    ).contains(f),
        ),
{
    let s = pre + star();
    assert(s.len() == pre.len() + 1);
    assert(s[s.len() - 1] == '*');
    assert(s.contains('*'));
    assert(!(starts_with_spec(s, seq!['(']) && ends_with_spec(s, seq![')']))) by {
        if ends_with_spec(s, seq![')']) {
            assert(s.subrange(s.len() - 1, s.len() as int)[0] == s[s.len() - 1]);
        }
    }
    // the split of the pattern on the star is [pre, empty]
    assert(is_match_at(s, star(), pre.len() as int)) by {
        assert(s.subrange(pre.len() as int, pre.len() + 1 as int) =~= star());
    }
    assert forall|p: int| 0 <= p < pre.len() implies !is_match_at(s, star(), p) by {
        if is_match_at(s, star(), p) {
            assert(s.subrange(p, p + 1)[0] == s[p]);
            assert(s[p] == '*' && s[p] == pre[p]);
        }
    }
    lemma_find_first_from_evidence(s, star(), pre.len() as int);
    let rest = s.subrange(pre.len() + 1 as int, s.len() as int);
    assert(rest =~= Seq::<char>::empty());
    assert(split_on(s, star()) =~~= seq![pre] + split_on(Seq::<char>::empty(), star()));
    assert(find_first(Seq::<char>::empty(), star()) is None);
    assert(split_on(Seq::<char>::empty(), star()) =~~= seq![Seq::<char>::empty()]);
    let parts = split_on(s, star());
    assert(parts =~~= seq![pre, Seq::<char>::empty()]);
    assert(parts.len() == 2);
    assert(parts[0] == pre && parts[1] == Seq::<char>::empty());
    // so matching the pattern is matching the prefix
    assert forall|t: Seq<char>| #[trigger] wc_match(s, t) == starts_with_spec(t, pre) by {
        assert(wc_match(s, t) == ((parts[0].len() == 0 || starts_with_spec(t, parts[0]))
            && wc_middles(parts, 1, 1, t, parts[0].len() as int)));
        assert(wc_middles(parts, 1, 1, t, parts[0].len() as int));
        if pre.len() == 0 {
            assert(starts_with_spec(t, pre)) by {
                assert(t.subrange(0, 0) =~= pre);
            }
        }
    }
    assert(eval_query(m, s) == wildcard_files(m, s));
    // a pattern ending in a star is its own trim
    if pre.len() == 0 {
        assert(!is_space_char(s[0]));
    } else {
        assert(s[0] == pre[0]);
    }
    assert(!is_space_char(s.last()));
    lemma_trim_fixpoint(s);
    assert(query_result(m, s) =~= Set::new(
        |f: Seq<char>|
            exists|t: Seq<char>|
                #[trigger] has_key(m.ttf(), t) && starts_with_spec(t, pre) && lookup(
                    m.ttf(),
                    t,
                ).contains(f),
    ));
}

/// Removing a file's every tag removes its index entry: a file none of whose
/// tags remain is no longer tracked (its `getFileTags` is empty and it
/// contributes nothing to `getAllTags`).
pub proof fn lemma_no_tags_no_entry(m: TagManager, f: Seq<char>)
    requires
        m.wf(),
        forall|y: Seq<char>| !(#[trigger] m.has_tag(f, y)),
    ensures
        !m.tracks(f),
{
    if m.tracks(f) {
        let i = crate::assoc::idx_of(m.ft(), f);
        crate::assoc::lemma_lookup_entry(m.ft(), i);
        assert(m.ft()[i].1.len() > 0);
        let y = m.ft()[i].1[0];
        assert(m.tags_of(f).contains(y));
        assert(m.has_tag(f, y));
    }
}

/// The relation lifecycle: after a successful `addRelation(s, t, d)` the
/// edge exists, so a second identical add is refused (adding succeeds only
/// without the edge); after `removeRelation(s, t)` the edge is gone, so a
/// new `addRelation(s, t, d)` is accepted again. The hypotheses are exactly
/// what `add_relation` and `remove_relation` ensure.
pub proof fn lemma_relation_lifecycle(
    m0: crate::relations::RelationManager,
    m1: crate::relations::RelationManager,
    m2: crate::relations::RelationManager,
    s: Seq<char>,
    t: Seq<char>,
    d: Seq<char>,
)
    requires
        m1.outgoing(s) == m0.outgoing(s).push((t, d)),
        forall|p: (Seq<char>, Seq<char>)|
            #[trigger] m2.outgoing(s).contains(p) == (m1.outgoing(s).contains(p) && p.0 != t),
    ensures
        m1.edge(s, t),
        !m2.edge(s, t),
{
    assert(m1.outgoing(s)[m1.outgoing(s).len() - 1] == (t, d));
    assert(crate::relmap::firsts_contain(m1.outgoing(s), t));
    if m2.edge(s, t) {
        let i = choose|i: int| 0 <= i < m2.outgoing(s).len() && m2.outgoing(s)[i].0 == t;
        let p = m2.outgoing(s)[i];
        assert(m2.outgoing(s).contains(p));
        assert(p.0 != t);
    }
}

} // verus!
