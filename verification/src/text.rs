//! Character-sequence utilities: whitespace trimming, substring search and
//! lexicographic comparison over `Vec<char>`, each tied to a spec-level
//! definition on `Seq<char>`.

use vstd::prelude::*;

verus! {

/// The Unicode `White_Space` code points, the characters that trimming strips.
pub open spec fn is_space_char(c: char) -> bool {
    let u = c as u32;
    ||| u == 0x09
    ||| u == 0x0A
    ||| u == 0x0B
    ||| u == 0x0C
    ||| u == 0x0D
    ||| u == 0x20
    ||| u == 0x85
    ||| u == 0xA0
    ||| u == 0x1680
    ||| (0x2000 <= u && u <= 0x200A)
    ||| u == 0x2028
    ||| u == 0x2029
    ||| u == 0x202F
    ||| u == 0x205F
    ||| u == 0x3000
}

/// Decides whether `c` is a whitespace character.
pub fn is_space(c: char) -> (r: bool)
    ensures
        r == is_space_char(c),
{
    let u = c as u32;
    u == 0x09 || u == 0x0A || u == 0x0B || u == 0x0C || u == 0x0D || u == 0x20 || u == 0x85
        || u == 0xA0 || u == 0x1680 || (0x2000 <= u && u <= 0x200A) || u == 0x2028 || u == 0x2029
        || u == 0x202F || u == 0x205F || u == 0x3000
}

pub open spec fn trim_start_spec(s: Seq<char>) -> Seq<char>
    decreases s.len(),
{
    if s.len() > 0 && is_space_char(s[0]) {
        trim_start_spec(s.drop_first())
    } else {
        s
    }
}

pub open spec fn trim_end_spec(s: Seq<char>) -> Seq<char>
    decreases s.len(),
{
    if s.len() > 0 && is_space_char(s.last()) {
        trim_end_spec(s.drop_last())
    } else {
        s
    }
}

/// The string with leading and trailing whitespace removed.
pub open spec fn trim_spec(s: Seq<char>) -> Seq<char> {
    trim_end_spec(trim_start_spec(s))
}

proof fn lemma_trim_start_at(s: Seq<char>, i: int)
    requires
        0 <= i <= s.len(),
        forall|k: int| 0 <= k < i ==> is_space_char(s[k]),
        i < s.len() ==> !is_space_char(s[i]),
    ensures
        trim_start_spec(s) == s.subrange(i, s.len() as int),
    decreases i,
{
    if i == 0 {
        if s.len() > 0 && is_space_char(s[0]) {
            assert(false);
        }
        assert(s.subrange(0, s.len() as int) =~= s);
    } else {
        assert(is_space_char(s[0]));
        let t = s.drop_first();
        lemma_trim_start_at(t, i - 1);
        assert(t.subrange(i - 1, t.len() as int) =~= s.subrange(i, s.len() as int));
    }
}

proof fn lemma_trim_end_at(s: Seq<char>, j: int)
    requires
        0 <= j <= s.len(),
        forall|k: int| j <= k < s.len() ==> is_space_char(s[k]),
        j > 0 ==> !is_space_char(s[j - 1]),
    ensures
        trim_end_spec(s) == s.subrange(0, j),
    decreases s.len() - j,
{
    if j == s.len() {
        if s.len() > 0 && is_space_char(s.last()) {
            assert(false);
        }
        assert(s.subrange(0, s.len() as int) =~= s);
    } else {
        assert(is_space_char(s.last()));
        let t = s.drop_last();
        lemma_trim_end_at(t, j);
        assert(t.subrange(0, j) =~= s.subrange(0, j));
    }
}

/// Trimming never lengthens a string.
pub proof fn lemma_trim_len(s: Seq<char>)
    ensures
        trim_spec(s).len() <= s.len(),
{
    lemma_trim_start_len(s);
    lemma_trim_end_len(trim_start_spec(s));
}

proof fn lemma_trim_start_len(s: Seq<char>)
    ensures
        trim_start_spec(s).len() <= s.len(),
    decreases s.len(),
{
    if s.len() > 0 && is_space_char(s[0]) {
        lemma_trim_start_len(s.drop_first());
    }
}

proof fn lemma_trim_end_len(s: Seq<char>)
    ensures
        trim_end_spec(s).len() <= s.len(),
    decreases s.len(),
{
    if s.len() > 0 && is_space_char(s.last()) {
        lemma_trim_end_len(s.drop_last());
    }
}

/// Copies `s[a..b]` into a fresh vector.
pub fn subvec(s: &Vec<char>, a: usize, b: usize) -> (r: Vec<char>)
    requires
        a <= b <= s.len(),
    ensures
        r@ == s@.subrange(a as int, b as int),
{
    let mut r: Vec<char> = Vec::new();
    let mut i: usize = a;
    while i < b
        invariant
            a <= i <= b <= s.len(),
            r@ == s@.subrange(a as int, i as int),
        decreases b - i,
    {
        r.push(s[i]);
        i = i + 1;
        proof {
            assert(r@ =~= s@.subrange(a as int, i as int));
        }
    }
    r
}

/// Copies a character vector.
pub fn copy_chars(s: &Vec<char>) -> (r: Vec<char>)
    ensures
        r@ == s@,
{
    let r = subvec(s, 0, s.len());
    proof {
        assert(s@.subrange(0, s@.len() as int) =~= s@);
    }
    r
}

/// Removes leading and trailing whitespace.
pub fn trim(s: &Vec<char>) -> (r: Vec<char>)
    ensures
        r@ == trim_spec(s@),
{
    let mut start: usize = 0;
    while start < s.len() && is_space(s[start as usize])
        invariant
            0 <= start <= s.len(),
            forall|k: int| 0 <= k < start ==> is_space_char(s@[k]),
        decreases s.len() - start,
    {
        start = start + 1;
    }
    let mut end: usize = s.len();
    while end > start && is_space(s[end - 1])
        invariant
            start <= end <= s.len(),
            forall|k: int| end <= k < s.len() ==> is_space_char(s@[k]),
        decreases end,
    {
        end = end - 1;
    }
    proof {
        lemma_trim_start_at(s@, start as int);
        let t = s@.subrange(start as int, s@.len() as int);
        lemma_trim_end_at(t, end - start);
        assert(t.subrange(0, end - start) =~= s@.subrange(start as int, end as int));
    }
    subvec(s, start, end)
}

/// Whether `pat` occurs in `s` starting at position `i`.
pub open spec fn is_match_at(s: Seq<char>, pat: Seq<char>, i: int) -> bool {
    0 <= i && i + pat.len() <= s.len() && s.subrange(i, i + pat.len() as int) == pat
}

/// Whether `pat` occurs anywhere in `s`.
pub open spec fn contains_seq(s: Seq<char>, pat: Seq<char>) -> bool {
    exists|i: int| is_match_at(s, pat, i)
}

/// Position of the first occurrence of `pat` in `s`; `None` when `pat` is
/// empty or does not occur.
pub open spec fn find_first(s: Seq<char>, pat: Seq<char>) -> Option<int>
    decreases s.len(),
{
    if pat.len() == 0 {
        None
    } else if s.len() < pat.len() {
        None
    } else if s.subrange(0, pat.len() as int) == pat {
        Some(0)
    } else {
        match find_first(s.drop_first(), pat) {
            None => None,
            Some(k) => Some(k + 1),
        }
    }
}

pub proof fn lemma_find_first_some(s: Seq<char>, pat: Seq<char>)
    requires
        find_first(s, pat) is Some,
    ensures
        is_match_at(s, pat, find_first(s, pat)->Some_0),
        forall|j: int| 0 <= j < find_first(s, pat)->Some_0 ==> !is_match_at(s, pat, j),
    decreases s.len(),
{
    let i = find_first(s, pat)->Some_0;
    if s.len() >= pat.len() && s.subrange(0, pat.len() as int) == pat {
        assert(i == 0);
    } else {
        let t = s.drop_first();
        lemma_find_first_some(t, pat);
        let k = find_first(t, pat)->Some_0;
        assert(i == k + 1);
        assert(t.subrange(k, k + pat.len() as int) =~= s.subrange(i, i + pat.len() as int));
        assert(is_match_at(s, pat, i));
        assert forall|j: int| 0 <= j < i implies !is_match_at(s, pat, j) by {
            if j == 0 {
                if is_match_at(s, pat, 0) {
                    assert(s.subrange(0, pat.len() as int) == pat);
                }
            } else {
                if is_match_at(s, pat, j) {
                    assert(t.subrange(j - 1, j - 1 + pat.len() as int) =~= s.subrange(
                        j,
                        j + pat.len() as int,
                    ));
                    assert(is_match_at(t, pat, j - 1));
                }
            }
        }
    }
}

pub proof fn lemma_find_first_none(s: Seq<char>, pat: Seq<char>)
    requires
        pat.len() > 0,
        find_first(s, pat) is None,
    ensures
        forall|j: int| !is_match_at(s, pat, j),
    decreases s.len(),
{
    assert forall|j: int| !is_match_at(s, pat, j) by {
        if is_match_at(s, pat, j) {
            if j == 0 {
                assert(s.subrange(0, pat.len() as int) == pat);
            } else {
                let t = s.drop_first();
                lemma_find_first_none(t, pat);
                assert(t.subrange(j - 1, j - 1 + pat.len() as int) =~= s.subrange(
                    j,
                    j + pat.len() as int,
                ));
                assert(is_match_at(t, pat, j - 1));
            }
        }
    }
}

/// The converse direction: evidence of a first match pins down `find_first`.
pub proof fn lemma_find_first_from_evidence(s: Seq<char>, pat: Seq<char>, i: int)
    requires
        pat.len() > 0,
        is_match_at(s, pat, i),
        forall|j: int| 0 <= j < i ==> !is_match_at(s, pat, j),
    ensures
        find_first(s, pat) == Some(i),
    decreases s.len(),
{
    if i == 0 {
        assert(s.subrange(0, pat.len() as int) == pat);
    } else {
        assert(!is_match_at(s, pat, 0));
        assert(s.len() >= pat.len());
        if s.subrange(0, pat.len() as int) == pat {
            assert(is_match_at(s, pat, 0));
        }
        let t = s.drop_first();
        assert(t.subrange(i - 1, i - 1 + pat.len() as int) =~= s.subrange(
            i,
            i + pat.len() as int,
        ));
        assert(is_match_at(t, pat, i - 1));
        assert forall|j: int| 0 <= j < i - 1 implies !is_match_at(t, pat, j) by {
            if is_match_at(t, pat, j) {
                assert(s.subrange(j + 1, j + 1 + pat.len() as int) =~= t.subrange(
                    j,
                    j + pat.len() as int,
                ));
                assert(is_match_at(s, pat, j + 1));
            }
        }
        lemma_find_first_from_evidence(t, pat, i - 1);
    }
}

pub proof fn lemma_find_first_from_no_match(s: Seq<char>, pat: Seq<char>)
    requires
        forall|j: int| !is_match_at(s, pat, j),
    ensures
        find_first(s, pat) is None,
{
    if find_first(s, pat) is Some {
        lemma_find_first_some(s, pat);
        assert(is_match_at(s, pat, find_first(s, pat)->Some_0));
    }
}

/// Finds the first occurrence of `pat` in `s`.
pub fn find_sub(s: &Vec<char>, pat: &Vec<char>) -> (r: Option<usize>)
    ensures
        r is Some ==> find_first(s@, pat@) == Some(r->Some_0 as int),
        r is None ==> find_first(s@, pat@) is None,
{
    if pat.len() == 0 || pat.len() > s.len() {
        return None;
    }
    let mut i: usize = 0;
    while i <= s.len() - pat.len()
        invariant
            pat.len() >= 1,
            pat.len() <= s.len(),
            0 <= i <= s.len() - pat.len() + 1,
            forall|j: int| 0 <= j < i ==> !is_match_at(s@, pat@, j),
        decreases s.len() - pat.len() + 1 - i,
    {
        let mut j: usize = 0;
        let mut hit = true;
        while j < pat.len()
            invariant
                pat.len() >= 1,
                i + pat.len() <= s.len(),
                0 <= j <= pat.len(),
                hit ==> forall|k: int| 0 <= k < j ==> s@[i + k] == pat@[k],
                !hit ==> !is_match_at(s@, pat@, i as int),
            decreases pat.len() - j,
        {
            if s[i + j] != pat[j] {
                proof {
                    if is_match_at(s@, pat@, i as int) {
                        assert(s@.subrange(i as int, i + pat@.len() as int)[j as int] == s@[i
                            + j]);
                    }
                }
                hit = false;
                j = pat.len();
            } else {
                j = j + 1;
            }
        }
        if hit {
            proof {
                assert(s@.subrange(i as int, i + pat@.len() as int) =~= pat@);
                lemma_find_first_from_evidence(s@, pat@, i as int);
            }
            return Some(i);
        }
        i = i + 1;
    }
    proof {
        assert forall|j: int| !is_match_at(s@, pat@, j) by {
            if is_match_at(s@, pat@, j) {
                assert(0 <= j <= s@.len() - pat@.len());
            }
        }
        lemma_find_first_from_no_match(s@, pat@);
    }
    None
}

/// Decides whether `pat` occurs anywhere in `s`.
pub fn contains_sub(s: &Vec<char>, pat: &Vec<char>) -> (r: bool)
    requires
        pat@.len() > 0,
    ensures
        r == contains_seq(s@, pat@),
{
    let f = find_sub(s, pat);
    proof {
        match find_first(s@, pat@) {
            Some(i) => {
                lemma_find_first_some(s@, pat@);
            },
            None => {
                lemma_find_first_none(s@, pat@);
            },
        }
    }
    f.is_some()
}

/// Decides whether the character sequences are equal.
pub fn seq_eq(a: &Vec<char>, b: &Vec<char>) -> (r: bool)
    ensures
        r == (a@ == b@),
{
    if a.len() != b.len() {
        proof {
            if a@ == b@ {
                assert(a@.len() == b@.len());
            }
        }
        return false;
    }
    let mut i: usize = 0;
    while i < a.len()
        invariant
            a.len() == b.len(),
            0 <= i <= a.len(),
            forall|k: int| 0 <= k < i ==> a@[k] == b@[k],
        decreases a.len() - i,
    {
        if a[i] != b[i] {
            return false;
        }
        i = i + 1;
    }
    proof {
        assert(a@ =~= b@);
    }
    true
}

/// Whether `s` starts with `p`.
pub open spec fn starts_with_spec(s: Seq<char>, p: Seq<char>) -> bool {
    s.len() >= p.len() && s.subrange(0, p.len() as int) == p
}

/// Whether `s` ends with `p`.
pub open spec fn ends_with_spec(s: Seq<char>, p: Seq<char>) -> bool {
    s.len() >= p.len() && s.subrange(s.len() - p.len(), s.len() as int) == p
}

/// Decides whether `s` starts with `p`.
pub fn starts_with(s: &Vec<char>, p: &Vec<char>) -> (r: bool)
    ensures
        r == starts_with_spec(s@, p@),
{
    if p.len() > s.len() {
        return false;
    }
    let mut i: usize = 0;
    while i < p.len()
        invariant
            p.len() <= s.len(),
            0 <= i <= p.len(),
            forall|k: int| 0 <= k < i ==> s@[k] == p@[k],
        decreases p.len() - i,
    {
        if s[i] != p[i] {
            proof {
                if starts_with_spec(s@, p@) {
                    assert(s@.subrange(0, p@.len() as int)[i as int] == s@[i as int]);
                }
            }
            return false;
        }
        i = i + 1;
    }
    proof {
        assert(s@.subrange(0, p@.len() as int) =~= p@);
    }
    true
}

/// Decides whether `s` ends with `p`.
pub fn ends_with(s: &Vec<char>, p: &Vec<char>) -> (r: bool)
    ensures
        r == ends_with_spec(s@, p@),
{
    if p.len() > s.len() {
        return false;
    }
    let off = s.len() - p.len();
    let mut i: usize = 0;
    while i < p.len()
        invariant
            p.len() <= s.len(),
            off == s.len() - p.len(),
            0 <= i <= p.len(),
            forall|k: int| 0 <= k < i ==> s@[off + k] == p@[k],
        decreases p.len() - i,
    {
        if s[off + i] != p[i] {
            proof {
                if ends_with_spec(s@, p@) {
                    assert(s@.subrange(s@.len() - p@.len(), s@.len() as int)[i as int] == s@[off
                        + i]);
                }
            }
            return false;
        }
        i = i + 1;
    }
    proof {
        assert(s@.subrange(s@.len() - p@.len(), s@.len() as int) =~= p@);
    }
    true
}

} // verus!
