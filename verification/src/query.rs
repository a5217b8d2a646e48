//! The boolean/wildcard query evaluator over the tag index. An expression is
//! split on ` OR ` first, then on ` AND `, then a `NOT ` prefix complements
//! against all tagged files, outer parentheses are stripped, a pattern with
//! `*` is matched against every known tag by anchoring its literal segments,
//! and anything else is an exact tag lookup. Splitting tests the whole string
//! for the operator, not a parenthesis-aware tokenizer, so an operator inside
//! parentheses still splits the expression at the outer level.

use vstd::prelude::*;
use crate::assoc::{assoc_get_copy, assoc_keys, has_key, lookup};
use crate::bridge::{chars_of, strings_of};
use crate::error::CodeNexusError;
use crate::lex::{sort_strs, sorted_lex};
use crate::split::{lemma_split_on_piece_len, split_on, split_vec};
use crate::strset::{strs_difference, strs_union_into};
use crate::tags::TagManager;
use crate::text::{
    contains_seq, contains_sub, ends_with, ends_with_spec, find_first, find_sub,
    lemma_find_first_none, lemma_find_first_some, starts_with, starts_with_spec, subvec, trim,
    trim_spec,
};

verus! {

/// The ` OR ` separator.
pub open spec fn sep_or() -> Seq<char> {
    seq![' ', 'O', 'R', ' ']
}

/// The ` AND ` separator.
pub open spec fn sep_and() -> Seq<char> {
    seq![' ', 'A', 'N', 'D', ' ']
}

/// The `NOT ` prefix.
pub open spec fn not_prefix() -> Seq<char> {
    seq!['N', 'O', 'T', ' ']
}

fn make_sep_or() -> (r: Vec<char>)
    ensures
        r@ == sep_or(),
{
    let mut v: Vec<char> = Vec::new();
    v.push(' ');
    v.push('O');
    v.push('R');
    v.push(' ');
    proof {
        assert(v@ =~= sep_or());
    }
    v
}

fn make_sep_and() -> (r: Vec<char>)
    ensures
        r@ == sep_and(),
{
    let mut v: Vec<char> = Vec::new();
    v.push(' ');
    v.push('A');
    v.push('N');
    v.push('D');
    v.push(' ');
    proof {
        assert(v@ =~= sep_and());
    }
    v
}

fn make_not_prefix() -> (r: Vec<char>)
    ensures
        r@ == not_prefix(),
{
    let mut v: Vec<char> = Vec::new();
    v.push('N');
    v.push('O');
    v.push('T');
    v.push(' ');
    proof {
        assert(v@ =~= not_prefix());
    }
    v
}

/// The star that wildcard patterns split on.
pub open spec fn star() -> Seq<char> {
    seq!['*']
}

/// Anchors the middle literal segments `parts[i..end]` of a pattern against
/// `t`, greedily left to right from position `pos`.
pub open spec fn wc_middles(parts: Seq<Seq<char>>, i: int, end: int, t: Seq<char>, pos: int) -> bool
    decreases end - i,
{
    if i >= end {
        true
    } else if parts[i].len() == 0 {
        wc_middles(parts, i + 1, end, t, pos)
    } else {
        let rest = if 0 <= pos <= t.len() {
            t.subrange(pos, t.len() as int)
        } else {
            Seq::empty()
        };
        match find_first(rest, parts[i]) {
            None => false,
            Some(k) => wc_middles(parts, i + 1, end, t, pos + k + parts[i].len()),
        }
    }
}

/// The pattern matches the text, `*` standing for any characters: the
/// segments before, between and after the stars are anchored as prefix,
/// greedily-found middles, and suffix.
pub open spec fn wc_match(p: Seq<char>, t: Seq<char>) -> bool {
    if !p.contains('*') {
        p == t
    } else {
        let parts = split_on(p, star());
        let n = parts.len() as int;
        &&& (parts[0].len() == 0 || starts_with_spec(t, parts[0]))
        &&& (parts[n - 1].len() == 0 || ends_with_spec(t, parts[n - 1]))
        &&& wc_middles(parts, 1, n - 1, t, parts[0].len() as int)
    }
}

/// Decides whether a character vector holds a star.
fn has_star(p: &Vec<char>) -> (r: bool)
    ensures
        r == p@.contains('*'),
{
    let mut i: usize = 0;
    while i < p.len()
        invariant
            0 <= i <= p.len(),
            forall|j: int| 0 <= j < i ==> p@[j] != '*',
        decreases p.len() - i,
    {
        if p[i] == '*' {
            proof {
                assert(p@[i as int] == '*');
            }
            return true;
        }
        i = i + 1;
    }
    proof {
        if p@.contains('*') {
            let k = choose|k: int| 0 <= k < p@.len() && p@[k] == '*';
        }
    }
    false
}

/// Matches the middle segments, mirroring `wc_middles`.
fn wc_middles_exec(parts: &Vec<Vec<char>>, i: usize, end: usize, t: &Vec<char>, pos: usize) -> (r:
    bool)
    requires
        end <= parts.len(),
        pos <= t.len(),
    ensures
        r == wc_middles(parts.deep_view(), i as int, end as int, t@, pos as int),
    decreases end - i,
{
    if i >= end {
        return true;
    }
    if parts[i].len() == 0 {
        proof {
            assert(parts.deep_view()[i as int].len() == 0);
        }
        return wc_middles_exec(parts, i + 1, end, t, pos);
    }
    proof {
        assert(parts.deep_view()[i as int] == parts[i as int]@);
    }
    let rest = subvec(t, pos, t.len());
    match find_sub(&rest, &parts[i]) {
        None => {
            false
        },
        Some(k) => {
            proof {
                lemma_find_first_some(rest@, parts[i as int]@);
                assert(k + parts[i as int]@.len() <= rest@.len());
            }
            wc_middles_exec(parts, i + 1, end, t, pos + k + parts[i].len())
        },
    }
}

impl TagManager {
    /// Decides whether a wildcard pattern matches a text; without a `*` the
    /// match is plain equality.
    pub fn wildcard_match(&self, pattern: &str, text: &str) -> (r: bool)
        ensures
            r == wc_match(pattern@, text@),
    {
        let p = chars_of(pattern);
        let t = chars_of(text);
        wc_match_chars(&p, &t)
    }
}

/// Decides whether a wildcard pattern matches a text.
pub fn wc_match_chars(p: &Vec<char>, t: &Vec<char>) -> (r: bool)
    ensures
        r == wc_match(p@, t@),
{
    if !has_star(p) {
        return crate::text::seq_eq(p, t);
    }
    let starv = {
        let mut v: Vec<char> = Vec::new();
        v.push('*');
        proof {
            assert(v@ =~= star());
        }
        v
    };
    let parts = split_vec(p, &starv);
    proof {
        crate::split::lemma_split_on_nonempty(p@, star());
    }
    let n = parts.len();
    let first_ok = if parts[0].len() == 0 {
        true
    } else {
        proof {
            assert(parts.deep_view()[0] == parts[0int]@);
        }
        starts_with(t, &parts[0])
    };
    if !first_ok {
        proof {
            assert(parts.deep_view()[0].len() != 0);
        }
        return false;
    }
    let last_ok = if parts[n - 1].len() == 0 {
        true
    } else {
        proof {
            assert(parts.deep_view()[n - 1] == parts[n - 1]@);
        }
        ends_with(t, &parts[n - 1])
    };
    if !last_ok {
        proof {
            assert(parts.deep_view()[n - 1].len() != 0);
        }
        return false;
    }
    let p0len = parts[0].len();
    if p0len > t.len() {
        proof {
            assert(parts.deep_view()[0].len() == 0 || starts_with_spec(t@, parts.deep_view()[0]));
            assert(parts.deep_view()[0].len() <= t@.len());
            assert(false);
        }
    }
    proof {
        assert(parts.deep_view()[0].len() == p0len);
    }
    wc_middles_exec(&parts, 1, n - 1, t, p0len)
}

/// The universe the `NOT` operator complements against: every file with at
/// least one tag.
pub open spec fn universe_of(m: TagManager) -> Set<Seq<char>> {
    Set::new(|f: Seq<char>| has_key(m.ft(), f))
}

/// The files of every known tag that the wildcard pattern matches.
pub open spec fn wildcard_files(m: TagManager, p: Seq<char>) -> Set<Seq<char>> {
    Set::new(
        |f: Seq<char>|
            exists|t: Seq<char>|
                #[trigger] has_key(m.ttf(), t) && wc_match(p, t) && lookup(m.ttf(), t).contains(f),
    )
}

/// The files of one exact tag.
pub open spec fn exact_files(m: TagManager, q: Seq<char>) -> Set<Seq<char>> {
    Set::new(|f: Seq<char>| lookup(m.ttf(), q).contains(f))
}

/// The meaning of a query expression.
pub open spec fn eval_query(m: TagManager, q: Seq<char>) -> Set<Seq<char>>
    decreases q.len() + 1, 0int,
    via eval_query_dec
{
    if contains_seq(q, sep_or()) {
        eval_or_upto(m, split_on(q, sep_or()), split_on(q, sep_or()).len() as int, q.len() as int)
    } else if contains_seq(q, sep_and()) {
        eval_and_upto(
            m,
            split_on(q, sep_and()),
            split_on(q, sep_and()).len() as int,
            q.len() as int,
        )
    } else if starts_with_spec(q, not_prefix()) {
        universe_of(m).difference(eval_query(m, trim_spec(q.subrange(4, q.len() as int))))
    } else if starts_with_spec(q, seq!['(']) && ends_with_spec(q, seq![')']) {
        eval_query(m, q.subrange(1, q.len() - 1))
    } else if q.contains('*') {
        wildcard_files(m, q)
    } else {
        exact_files(m, q)
    }
}

/// The union of the meanings of the first `i` trimmed pieces of an `OR`
/// split; a piece as long as the whole expression (impossible for a real
/// split) counts as empty.
pub open spec fn eval_or_upto(m: TagManager, parts: Seq<Seq<char>>, i: int, bound: int) -> Set<
    Seq<char>,
>
    decreases bound, i,
    via eval_or_upto_dec
{
    if i <= 0 || bound < 0 {
        Set::empty()
    } else {
        let p = trim_spec(parts[i - 1]);
        let here = if p.len() < bound {
            eval_query(m, p)
        } else {
            Set::empty()
        };
        eval_or_upto(m, parts, i - 1, bound).union(here)
    }
}

/// The intersection of the meanings of the first `i` trimmed pieces of an
/// `AND` split.
pub open spec fn eval_and_upto(m: TagManager, parts: Seq<Seq<char>>, i: int, bound: int) -> Set<
    Seq<char>,
>
    decreases bound, i,
    via eval_and_upto_dec
{
    if i <= 0 || bound < 0 {
        Set::empty()
    } else {
        let p = trim_spec(parts[i - 1]);
        let here = if p.len() < bound {
            eval_query(m, p)
        } else {
            Set::empty()
        };
        if i == 1 {
            here
        } else {
            eval_and_upto(m, parts, i - 1, bound).intersect(here)
        }
    }
}

#[via_fn]
proof fn eval_query_dec(m: TagManager, q: Seq<char>) {
    if contains_seq(q, sep_or()) || contains_seq(q, sep_and()) {
    } else if starts_with_spec(q, not_prefix()) {
        crate::text::lemma_trim_len(q.subrange(4, q.len() as int));
    } else if starts_with_spec(q, seq!['(']) && ends_with_spec(q, seq![')']) {
        if q.len() == 1 {
            assert(q.subrange(0, 1)[0] == q[0]);
            assert(q.subrange(q.len() - 1, q.len() as int)[0] == q[0]);
            assert(false);
        }
    }
}

#[via_fn]
proof fn eval_or_upto_dec(m: TagManager, parts: Seq<Seq<char>>, i: int, bound: int) {
    if !(i <= 0 || bound < 0) {
        crate::text::lemma_trim_len(parts[i - 1]);
    }
}

#[via_fn]
proof fn eval_and_upto_dec(m: TagManager, parts: Seq<Seq<char>>, i: int, bound: int) {
    if !(i <= 0 || bound < 0) {
        crate::text::lemma_trim_len(parts[i - 1]);
    }
}

impl TagManager {
    /// Evaluates a query expression, returning the matching files without
    /// duplicates.
    fn eval_chars(&self, q: &Vec<char>) -> (r: Vec<Vec<char>>)
        requires
            self.wf(),
        ensures
            r.deep_view().no_duplicates(),
            forall|f: Seq<char>|
                #[trigger] r.deep_view().contains(f) == eval_query(*self, q@).contains(f),
        decreases q@.len(),
    {
        let sep_or_v = make_sep_or();
        if contains_sub(q, &sep_or_v) {
            proof {
                match find_first(q@, sep_or()) {
                    Some(_) => {},
                    None => {
                        lemma_find_first_none(q@, sep_or());
                        let k = choose|k: int| crate::text::is_match_at(q@, sep_or(), k);
                        assert(false);
                    },
                }
                lemma_split_on_piece_len(q@, sep_or());
            }
            let parts = split_vec(q, &sep_or_v);
            let ghost pv = parts.deep_view();
            let ghost bound = q@.len() as int;
            let mut acc: Vec<Vec<char>> = Vec::new();
            let mut i: usize = 0;
            while i < parts.len()
                invariant
                    self.wf(),
                    pv == split_on(q@, sep_or()),
                    pv == parts.deep_view(),
                    bound == q@.len() as int,
                    0 <= i <= parts.len(),
                    forall|k: int|
                        0 <= k < pv.len() ==> (#[trigger] pv[k]).len() + sep_or().len()
                            <= q@.len(),
                    acc.deep_view().no_duplicates(),
                    forall|f: Seq<char>|
                        #[trigger] acc.deep_view().contains(f) == eval_or_upto(
                            *self,
                            pv,
                            i as int,
                            bound,
                        ).contains(f),
                decreases parts.len() - i,
            {
                let p = trim(&parts[i]);
                proof {
                    assert(parts.deep_view()[i as int] == parts[i as int]@);
                    crate::text::lemma_trim_len(parts[i as int]@);
                    assert(p@.len() < q@.len());
                }
                let sub = self.eval_chars(&p);
                let ghost acc_pre = acc.deep_view();
                strs_union_into(&mut acc, &sub);
                i = i + 1;
                proof {
                    assert(p@ == trim_spec(pv[i - 1]));
                    assert(eval_or_upto(*self, pv, i as int, bound) == eval_or_upto(
                        *self,
                        pv,
                        i - 1,
                        bound,
                    ).union(eval_query(*self, p@)));
                }
            }
            proof {
                assert(eval_query(*self, q@) == eval_or_upto(
                    *self,
                    pv,
                    pv.len() as int,
                    bound,
                ));
            }
            return acc;
        }
        let sep_and_v = make_sep_and();
        if contains_sub(q, &sep_and_v) {
            proof {
                match find_first(q@, sep_and()) {
                    Some(_) => {},
                    None => {
                        lemma_find_first_none(q@, sep_and());
                        let k = choose|k: int| crate::text::is_match_at(q@, sep_and(), k);
                        assert(false);
                    },
                }
                lemma_split_on_piece_len(q@, sep_and());
                crate::split::lemma_split_on_nonempty(q@, sep_and());
            }
            let parts = split_vec(q, &sep_and_v);
            let ghost pv = parts.deep_view();
            let ghost bound = q@.len() as int;
            let p0 = trim(&parts[0]);
            proof {
                assert(parts.deep_view()[0] == parts[0int]@);
                crate::text::lemma_trim_len(parts[0int]@);
                assert(p0@.len() < q@.len());
            }
            let mut acc = self.eval_chars(&p0);
            proof {
                assert(p0@ == trim_spec(pv[0]));
                assert(eval_and_upto(*self, pv, 1, bound) == eval_query(*self, p0@));
            }
            let mut i: usize = 1;
            while i < parts.len()
                invariant
                    self.wf(),
                    pv == split_on(q@, sep_and()),
                    pv == parts.deep_view(),
                    bound == q@.len() as int,
                    1 <= i <= parts.len(),
                    forall|k: int|
                        0 <= k < pv.len() ==> (#[trigger] pv[k]).len() + sep_and().len()
                            <= q@.len(),
                    acc.deep_view().no_duplicates(),
                    forall|f: Seq<char>|
                        #[trigger] acc.deep_view().contains(f) == eval_and_upto(
                            *self,
                            pv,
                            i as int,
                            bound,
                        ).contains(f),
                decreases parts.len() - i,
            {
                let p = trim(&parts[i]);
                proof {
                    assert(parts.deep_view()[i as int] == parts[i as int]@);
                    crate::text::lemma_trim_len(parts[i as int]@);
                    assert(p@.len() < q@.len());
                }
                let sub = self.eval_chars(&p);
                let acc2 = crate::strset::strs_intersect(&acc, &sub);
                acc = acc2;
                i = i + 1;
                proof {
                    assert(p@ == trim_spec(pv[i - 1]));
                    assert(eval_and_upto(*self, pv, i as int, bound) == eval_and_upto(
                        *self,
                        pv,
                        i - 1,
                        bound,
                    ).intersect(eval_query(*self, p@)));
                }
            }
            proof {
                assert(eval_query(*self, q@) == eval_and_upto(
                    *self,
                    pv,
                    pv.len() as int,
                    bound,
                ));
            }
            return acc;
        }
        let notp = make_not_prefix();
        if starts_with(q, &notp) {
            let inner_raw = subvec(q, 4, q.len());
            let inner = trim(&inner_raw);
            proof {
                crate::text::lemma_trim_len(inner_raw@);
            }
            let sub = self.eval_chars(&inner);
            let universe = assoc_keys(&self.file_tags);
            let r = strs_difference(&universe, &sub);
            proof {
                assert(eval_query(*self, q@) == universe_of(*self).difference(
                    eval_query(*self, trim_spec(q@.subrange(4, q@.len() as int))),
                ));
                assert forall|f: Seq<char>| #[trigger] r.deep_view().contains(f) == eval_query(
                    *self,
                    q@,
                ).contains(f) by {
                    assert(r.deep_view().contains(f) == (universe.deep_view().contains(f)
                        && !sub.deep_view().contains(f)));
                }
            }
            return r;
        }
        if q.len() >= 2 && q[0] == '(' && q[q.len() - 1] == ')' {
            proof {
                assert(q@.subrange(0, 1) =~= seq!['(']);
                assert(q@.subrange(q@.len() - 1, q@.len() as int) =~= seq![')']);
                assert(starts_with_spec(q@, seq!['(']));
                assert(ends_with_spec(q@, seq![')']));
            }
            let inner = subvec(q, 1, q.len() - 1);
            return self.eval_chars(&inner);
        }
        proof {
            if starts_with_spec(q@, seq!['(']) && ends_with_spec(q@, seq![')']) {
                assert(q@.subrange(0, 1)[0] == q@[0]);
                assert(q@.subrange(q@.len() - 1, q@.len() as int)[0] == q@[q@.len() - 1]);
                assert(q@.len() >= 2 && q@[0] == '(' && q@[q@.len() - 1] == ')') by {
                    if q@.len() == 1 {
                        assert(q@.subrange(0, 1)[0] == q@[0]);
                        assert(q@.subrange(q@.len() - 1, q@.len() as int)[0] == q@[0]);
                    }
                }
                assert(false);
            }
        }
        if has_star(q) {
            let mut acc: Vec<Vec<char>> = Vec::new();
            let mut k: usize = 0;
            while k < self.tag_to_files.len()
                invariant
                    self.wf(),
                    0 <= k <= self.tag_to_files.len(),
                    acc.deep_view().no_duplicates(),
                    forall|f: Seq<char>|
                        #[trigger] acc.deep_view().contains(f) == exists|j: int|
                            0 <= j < k && wc_match(q@, (#[trigger] self.ttf()[j]).0)
                                && self.ttf()[j].1.contains(f),
                decreases self.tag_to_files.len() - k,
            {
                let hit = wc_match_chars(q, &self.tag_to_files[k].0);
                proof {
                    assert(self.ttf()[k as int].0 == self.tag_to_files[k as int].0@);
                    assert(self.ttf()[k as int].1 == self.tag_to_files[k as int].1.deep_view());
                }
                if hit {
                    let ghost acc_pre = acc.deep_view();
                    strs_union_into(&mut acc, &self.tag_to_files[k].1);
                    proof {
                        assert forall|f: Seq<char>| #[trigger] acc.deep_view().contains(f)
                            == exists|j: int|
                            0 <= j < k + 1 && wc_match(q@, (#[trigger] self.ttf()[j]).0)
                                && self.ttf()[j].1.contains(f) by {
                            if acc.deep_view().contains(f) {
                                if acc_pre.contains(f) {
                                    let j = choose|j: int|
                                        0 <= j < k && wc_match(q@, (#[trigger] self.ttf()[j]).0)
                                            && self.ttf()[j].1.contains(f);
                                    assert(0 <= j < k + 1 && wc_match(q@, self.ttf()[j].0)
                                        && self.ttf()[j].1.contains(f));
                                } else {
                                    assert(self.ttf()[k as int].1.contains(f));
                                }
                            }
                            if exists|j: int|
                                0 <= j < k + 1 && wc_match(q@, (#[trigger] self.ttf()[j]).0)
                                    && self.ttf()[j].1.contains(f) {
                                let j = choose|j: int|
                                    0 <= j < k + 1 && wc_match(q@, (#[trigger] self.ttf()[j]).0)
                                        && self.ttf()[j].1.contains(f);
                                if j < k {
                                    assert(acc_pre.contains(f));
                                }
                            }
                        }
                    }
                } else {
                    proof {
                        assert forall|f: Seq<char>| #[trigger] acc.deep_view().contains(f)
                            == exists|j: int|
                            0 <= j < k + 1 && wc_match(q@, (#[trigger] self.ttf()[j]).0)
                                && self.ttf()[j].1.contains(f) by {
                            if exists|j: int|
                                0 <= j < k + 1 && wc_match(q@, (#[trigger] self.ttf()[j]).0)
                                    && self.ttf()[j].1.contains(f) {
                                let j = choose|j: int|
                                    0 <= j < k + 1 && wc_match(q@, (#[trigger] self.ttf()[j]).0)
                                        && self.ttf()[j].1.contains(f);
                                assert(j != k);
                            }
                        }
                    }
                }
                k = k + 1;
            }
            proof {
                assert forall|f: Seq<char>| #[trigger] acc.deep_view().contains(f) == eval_query(
                    *self,
                    q@,
                ).contains(f) by {
                    assert(eval_query(*self, q@) == wildcard_files(*self, q@));
                    if acc.deep_view().contains(f) {
                        let j = choose|j: int|
                            0 <= j < self.ttf().len() && wc_match(
                                q@,
                                (#[trigger] self.ttf()[j]).0,
                            ) && self.ttf()[j].1.contains(f);
                        crate::assoc::lemma_lookup_entry(self.ttf(), j);
                        assert(has_key(self.ttf(), self.ttf()[j].0) && wc_match(
                            q@,
                            self.ttf()[j].0,
                        ) && lookup(self.ttf(), self.ttf()[j].0).contains(f));
                    }
                    if wildcard_files(*self, q@).contains(f) {
                        let t = choose|t: Seq<char>|
                            #[trigger] has_key(self.ttf(), t) && wc_match(q@, t) && lookup(
                                self.ttf(),
                                t,
                            ).contains(f);
                        let j = crate::assoc::idx_of(self.ttf(), t);
                        assert(0 <= j < self.ttf().len() && self.ttf()[j].0 == t);
                        crate::assoc::lemma_lookup_entry(self.ttf(), j);
                        assert(wc_match(q@, self.ttf()[j].0) && self.ttf()[j].1.contains(f));
                    }
                }
            }
            return acc;
        }
        let files = assoc_get_copy(&self.tag_to_files, q);
        proof {
            crate::assoc::lemma_lookup_nodup(self.ttf(), q@);
            assert(eval_query(*self, q@) == exact_files(*self, q@));
        }
        files
    }
}

/// The files a query returns: the empty set for a blank query, else the
/// meaning of the trimmed expression.
pub open spec fn query_result(m: TagManager, q: Seq<char>) -> Set<Seq<char>> {
    if trim_spec(q).len() == 0 {
        Set::empty()
    } else {
        eval_query(m, trim_spec(q))
    }
}

impl TagManager {
    /// Evaluates a boolean/wildcard query and returns the matching files,
    /// sorted and without duplicates. A blank query yields no files; the
    /// evaluator itself never fails.
    pub fn query_files_by_tags(&self, query: &str) -> (r: Result<Vec<String>, CodeNexusError>)
        requires
            self.wf(),
        ensures
            r is Ok,
            match r {
                Ok(files) => {
                    &&& files.deep_view().no_duplicates()
                    &&& sorted_lex(files.deep_view())
                    &&& forall|f: Seq<char>|
                        #[trigger] files.deep_view().contains(f) == query_result(
                            *self,
                            query@,
                        ).contains(f)
                },
                Err(_) => false,
            },
    {
        broadcast use vstd::seq_lib::group_to_multiset_ensures;

        let qc = chars_of(query);
        let trimmed = trim(&qc);
        if trimmed.len() == 0 {
            let files: Vec<String> = Vec::new();
            return Ok(files);
        }
        let found = self.eval_chars(&trimmed);
        let sorted = sort_strs(found);
        proof {
            let fv = found.deep_view();
            let sv = sorted.deep_view();
            assert forall|f: Seq<char>| #[trigger] sv.contains(f) == query_result(
                *self,
                query@,
            ).contains(f) by {
                vstd::seq_lib::to_multiset_contains::<Seq<char>>(fv, f);
                vstd::seq_lib::to_multiset_contains::<Seq<char>>(sv, f);
            }
            assert(sv.no_duplicates()) by {
                fv.lemma_multiset_has_no_duplicates();
                sv.lemma_multiset_has_no_duplicates_conv();
            }
        }
        Ok(strings_of(&sorted))
    }
}

/// A query passes the shallow syntax check: it is not blank, no ` AND `
/// operand is blank, and a single spaceless token with a colon has exactly
/// one colon.
pub open spec fn query_syntax_ok(q: Seq<char>) -> bool {
    let tq = trim_spec(q);
    &&& tq.len() > 0
    &&& (contains_seq(tq, sep_and()) ==> forall|i: int|
        0 <= i < split_on(tq, sep_and()).len() ==> trim_spec(
            #[trigger] split_on(tq, sep_and())[i],
        ).len() > 0)
    &&& ((tq.contains(':') && !tq.contains(' ')) ==> (exists|i: int|
        0 <= i < tq.len() && tq[i] == ':' && (forall|j: int|
            0 <= j < tq.len() && j != i ==> tq[j] != ':')))
}

/// Decides whether a character is somewhere in the sequence.
fn contains_char(s: &Vec<char>, c: char) -> (r: bool)
    ensures
        r == s@.contains(c),
{
    let mut i: usize = 0;
    while i < s.len()
        invariant
            0 <= i <= s.len(),
            forall|j: int| 0 <= j < i ==> s@[j] != c,
        decreases s.len() - i,
    {
        if s[i] == c {
            proof {
                assert(s@[i as int] == c);
            }
            return true;
        }
        i = i + 1;
    }
    proof {
        if s@.contains(c) {
            let k = choose|k: int| 0 <= k < s@.len() && s@[k] == c;
        }
    }
    false
}

/// The cheap pre-check on query syntax: rejects a blank query, a blank
/// ` AND ` operand, and a spaceless colon token that is not `type:value`
/// shaped. It does not guarantee the expression is meaningful.
pub fn validate_query_syntax(query: &str) -> (r: Result<(), CodeNexusError>)
    ensures
        r is Ok <==> query_syntax_ok(query@),
        r is Err ==> r->Err_0 is InvalidQuerySyntax,
{
    let qc = chars_of(query);
    let tq = trim(&qc);
    if tq.len() == 0 {
        return Err(CodeNexusError::InvalidQuerySyntax(String::new()));
    }
    let sep_and_v = make_sep_and();
    if contains_sub(&tq, &sep_and_v) {
        let parts = split_vec(&tq, &sep_and_v);
        let mut i: usize = 0;
        while i < parts.len()
            invariant
                0 <= i <= parts.len(),
                tq@ == trim_spec(query@),
                tq@.len() > 0,
                contains_seq(tq@, sep_and()),
                parts.deep_view() == split_on(trim_spec(query@), sep_and()),
                forall|j: int|
                    0 <= j < i ==> trim_spec(
                        #[trigger] split_on(trim_spec(query@), sep_and())[j],
                    ).len() > 0,
            decreases parts.len() - i,
        {
            let pt = trim(&parts[i]);
            proof {
                assert(parts.deep_view()[i as int] == parts[i as int]@);
            }
            if pt.len() == 0 {
                return Err(CodeNexusError::InvalidQuerySyntax(String::new()));
            }
            i = i + 1;
        }
    }
    if contains_char(&tq, ':') && !contains_char(&tq, ' ') {
        let mut count: usize = 0;
        let mut first: usize = 0;
        let mut i: usize = 0;
        while i < tq.len()
            invariant
                0 <= i <= tq.len(),
                count <= i,
                count == 0 ==> forall|j: int| 0 <= j < i ==> tq@[j] != ':',
                count > 0 ==> first < i && tq@[first as int] == ':' && (forall|j: int|
                    0 <= j < first ==> tq@[j] != ':'),
                count == 1 ==> forall|j: int| 0 <= j < i && j != first ==> tq@[j] != ':',
                count >= 2 ==> exists|a: int, b: int|
                    0 <= a < b < i && tq@[a] == ':' && tq@[b] == ':',
            decreases tq.len() - i,
        {
            if tq[i] == ':' {
                if count == 0 {
                    first = i;
                } else {
                    proof {
                        if count == 1 {
                            assert(0 <= first < i && tq@[first as int] == ':' && tq@[i as int]
                                == ':');
                        }
                    }
                }
                count = count + 1;
            }
            i = i + 1;
        }
        if count != 1 {
            proof {
                if exists|a: int|
                    0 <= a < tq@.len() && tq@[a] == ':' && (forall|j: int|
                        0 <= j < tq@.len() && j != a ==> tq@[j] != ':') {
                    let a = choose|a: int|
                        0 <= a < tq@.len() && tq@[a] == ':' && (forall|j: int|
                            0 <= j < tq@.len() && j != a ==> tq@[j] != ':');
                    assert(count > 0);
                    if count >= 2 {
                        let (x, y) = choose|x: int, y: int|
                            0 <= x < y < tq@.len() && tq@[x] == ':' && tq@[y] == ':';
                        assert(x != a || y != a);
                    }
                    assert(false);
                }
            }
            return Err(CodeNexusError::InvalidQuerySyntax(String::new()));
        }
        proof {
            assert(tq@[first as int] == ':');
        }
    }
    Ok(())
}

} // verus!
