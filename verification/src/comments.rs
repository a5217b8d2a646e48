//! The comment store: one free-text comment per file, with keyword search.
//! A trivial key → text map; it is kept verified so the composite queries
//! over it have exact contracts.

use vstd::prelude::*;
use crate::bridge::{chars_of, string_of};
use crate::error::CodeNexusError;
use crate::relmap::{firsts_contain, firsts_distinct};
use crate::text::{copy_chars, seq_eq, trim_spec};
use vstd::pervasive::VecAdditionalExecFns;

verus! {

/// The pairs of a comment table: (file path, comment text).
pub type CommentSeq = Seq<(Seq<char>, Seq<char>)>;

/// The comment stored for `k`, if any.
pub open spec fn comment_of(l: CommentSeq, k: Seq<char>) -> Option<Seq<char>> {
    if firsts_contain(l, k) {
        Some(l[choose|i: int| 0 <= i < l.len() && l[i].0 == k].1)
    } else {
        None
    }
}

/// The entry index for `k`.
pub open spec fn cidx_of(l: CommentSeq, k: Seq<char>) -> int {
    choose|i: int| 0 <= i < l.len() && l[i].0 == k
}

/// An entry's key is found at its own position.
pub proof fn lemma_comment_entry(l: CommentSeq, i: int)
    requires
        firsts_distinct(l),
        0 <= i < l.len(),
    ensures
        firsts_contain(l, l[i].0),
        cidx_of(l, l[i].0) == i,
        comment_of(l, l[i].0) == Some(l[i].1),
{
    assert(firsts_contain(l, l[i].0));
    let j = cidx_of(l, l[i].0);
    assert(0 <= j < l.len() && l[j].0 == l[i].0);
    if i != j {
        assert(false);
    }
}

/// One snapshot of the comment dataset.
pub struct CommentsData {
    pub file_comments: Vec<(String, String)>,
}

/// The comment store.
pub struct CommentManager {
    pub file_comments: Vec<(Vec<char>, Vec<char>)>,
}

impl CommentManager {
    /// The file → comment table.
    pub open spec fn cm(self) -> CommentSeq {
        self.file_comments.deep_view()
    }

    /// The comment of a file, if any.
    pub open spec fn comment(self, f: Seq<char>) -> Option<Seq<char>> {
        comment_of(self.cm(), f)
    }

    /// The file has a comment.
    pub open spec fn has(self, f: Seq<char>) -> bool {
        firsts_contain(self.cm(), f)
    }

    /// One comment per file.
    pub open spec fn wf(self) -> bool {
        firsts_distinct(self.cm())
    }

    /// Creates an empty comment store.
    pub fn new() -> (r: CommentManager)
        ensures
            r.wf(),
            r.cm().len() == 0,
    {
        CommentManager { file_comments: Vec::new() }
    }

    /// Finds the entry index for a file.
    fn find(&self, f: &Vec<char>) -> (r: Option<usize>)
        ensures
            match r {
                Some(i) => i < self.file_comments.len() && self.cm()[i as int].0 == f@ && self.has(
                    f@,
                ),
                None => !self.has(f@),
            },
    {
        let mut i: usize = 0;
        while i < self.file_comments.len()
            invariant
                0 <= i <= self.file_comments.len(),
                forall|j: int| 0 <= j < i ==> self.cm()[j].0 != f@,
            decreases self.file_comments.len() - i,
        {
            let hit = seq_eq(&self.file_comments[i].0, f);
            proof {
                assert(self.cm()[i as int].0 == self.file_comments[i as int].0@);
            }
            if hit {
                return Some(i);
            }
            i = i + 1;
        }
        proof {
            if self.has(f@) {
                let j = choose|j: int| 0 <= j < self.cm().len() && self.cm()[j].0 == f@;
            }
        }
        None
    }

    /// The comment of a file, or nothing.
    pub fn get_comment(&self, file_path: &str) -> (r: Option<String>)
        requires
            self.wf(),
        ensures
            match r {
                Some(c) => self.comment(file_path@) == Some(c@),
                None => self.comment(file_path@) is None,
            },
    {
        let fc = chars_of(file_path);
        match self.find(&fc) {
            Some(i) => {
                proof {
                    lemma_comment_entry(self.cm(), i as int);
                }
                Some(string_of(&self.file_comments[i].1))
            },
            None => None,
        }
    }

    /// Whether a file has a comment.
    pub fn has_comment(&self, file_path: &str) -> (r: bool)
        requires
            self.wf(),
        ensures
            r == self.has(file_path@),
    {
        let fc = chars_of(file_path);
        self.find(&fc).is_some()
    }

    /// The comments of the requested files, as (file, comment) pairs in
    /// request order, skipping files without one.
    pub fn get_comments(&self, file_paths: &Vec<String>) -> (r: Vec<(String, String)>)
        requires
            self.wf(),
        ensures
            forall|f: Seq<char>, c: Seq<char>|
                #[trigger] r.deep_view().contains((f, c)) == (file_paths.deep_view().contains(f)
                    && self.comment(f) == Some(c)),
    {
        let mut r: Vec<(String, String)> = Vec::new();
        let mut i: usize = 0;
        while i < file_paths.len()
            invariant
                0 <= i <= file_paths.len(),
                self.wf(),
                forall|f: Seq<char>, c: Seq<char>|
                    #[trigger] r.deep_view().contains((f, c)) == (file_paths.deep_view().subrange(
                        0,
                        i as int,
                    ).contains(f) && self.comment(f) == Some(c)),
            decreases file_paths.len() - i,
        {
            let ghost rv0 = r.deep_view();
            let ghost fp = file_paths.deep_view()[i as int];
            proof {
                assert(file_paths[i as int]@ == fp);
            }
            let fc = chars_of(file_paths[i].as_str());
            match self.find(&fc) {
                Some(k) => {
                    proof {
                        lemma_comment_entry(self.cm(), k as int);
                    }
                    let entry = (
                        string_of(&fc),
                        string_of(&self.file_comments[k].1),
                    );
                    r.push(entry);
                    proof {
                        assert(r.deep_view() =~~= rv0.push((fp, self.cm()[k as int].1)));
                        crate::relmap::lemma_pair_contains_push(rv0, (fp, self.cm()[k as int].1));
                    }
                },
                None => {},
            }
            i = i + 1;
            proof {
                let pre = file_paths.deep_view().subrange(0, i - 1);
                let cur = file_paths.deep_view().subrange(0, i as int);
                assert(cur =~= pre.push(fp));
                crate::strset::lemma_contains_push(pre, fp);
                assert forall|f: Seq<char>, c: Seq<char>|
                    #[trigger] r.deep_view().contains((f, c)) == (cur.contains(f) && self.comment(
                    f,
                ) == Some(c)) by {}
            }
        }
        proof {
            assert(file_paths.deep_view().subrange(0, file_paths.len() as int)
                =~= file_paths.deep_view());
        }
        r
    }

    /// Every (file, comment) pair of the store, in insertion order.
    pub fn get_all_comments(&self) -> (r: Vec<(String, String)>)
        requires
            self.wf(),
        ensures
            r.deep_view() == self.cm(),
    {
        let mut r: Vec<(String, String)> = Vec::new();
        let mut i: usize = 0;
        while i < self.file_comments.len()
            invariant
                0 <= i <= self.file_comments.len(),
                r.deep_view() == self.cm().subrange(0, i as int),
            decreases self.file_comments.len() - i,
        {
            let ghost before = r.deep_view();
            let entry = (
                string_of(&self.file_comments[i].0),
                string_of(&self.file_comments[i].1),
            );
            r.push(entry);
            i = i + 1;
            proof {
                assert(r.deep_view() =~~= before.push(self.cm()[i - 1]));
                assert(r.deep_view() =~~= self.cm().subrange(0, i as int));
            }
        }
        proof {
            assert(self.cm().subrange(0, self.file_comments.len() as int) =~~= self.cm());
        }
        r
    }

    /// A copy of the whole store, for export.
    pub fn export_comments(&self) -> (r: Vec<(String, String)>)
        requires
            self.wf(),
        ensures
            r.deep_view() == self.cm(),
    {
        self.get_all_comments()
    }

    /// Adds a comment to a file that has none; the comment must not be
    /// blank, and an existing comment is not overwritten.
    pub fn add_comment(&mut self, file_path: &str, comment: &str) -> (r: Result<
        (),
        CodeNexusError,
    >)
        requires
            old(self).wf(),
        ensures
            final(self).wf(),
            r is Ok <==> (trim_spec(comment@).len() > 0 && !old(self).has(file_path@)),
            match r {
                Ok(_) => {
                    &&& final(self).cm() == old(self).cm().push((file_path@, comment@))
                    &&& final(self).comment(file_path@) == Some(comment@)
                    &&& forall|f: Seq<char>|
                        f != file_path@ ==> #[trigger] final(self).comment(f) == old(
                            self,
                        ).comment(f)
                },
                Err(e) => {
                    &&& *final(self) == *old(self)
                    &&& e is ConfigError
                },
            },
    {
        let cc = chars_of(comment);
        let ct = crate::text::trim(&cc);
        if ct.len() == 0 {
            return Err(CodeNexusError::ConfigError(String::new()));
        }
        let fc = chars_of(file_path);
        match self.find(&fc) {
            Some(_) => Err(CodeNexusError::ConfigError(String::new())),
            None => {
                let ghost c0 = self.cm();
                self.file_comments.push((fc, cc));
                proof {
                    assert(self.cm() =~~= c0.push((file_path@, comment@)));
                    lemma_push_comment(c0, file_path@, comment@);
                }
                Ok(())
            },
        }
    }

    /// Sets the comment of a file, adding or replacing; the comment must not
    /// be blank.
    pub fn update_comment(&mut self, file_path: &str, comment: &str) -> (r: Result<
        (),
        CodeNexusError,
    >)
        requires
            old(self).wf(),
        ensures
            final(self).wf(),
            r is Ok <==> trim_spec(comment@).len() > 0,
            match r {
                Ok(_) => {
                    &&& final(self).comment(file_path@) == Some(comment@)
                    &&& forall|f: Seq<char>|
                        f != file_path@ ==> #[trigger] final(self).comment(f) == old(
                            self,
                        ).comment(f)
                    &&& forall|f: Seq<char>|
                        #[trigger] final(self).has(f) == (old(self).has(f) || f == file_path@)
                },
                Err(e) => {
                    &&& *final(self) == *old(self)
                    &&& e is ConfigError
                },
            },
    {
        let cc = chars_of(comment);
        let ct = crate::text::trim(&cc);
        if ct.len() == 0 {
            return Err(CodeNexusError::ConfigError(String::new()));
        }
        let fc = chars_of(file_path);
        let ghost c0 = self.cm();
        match self.find(&fc) {
            Some(i) => {
                self.file_comments.set(i, (fc, cc));
                proof {
                    assert(self.cm() =~~= c0.update(i as int, (file_path@, comment@)));
                    lemma_update_comment(c0, i as int, comment@);
                }
                Ok(())
            },
            None => {
                self.file_comments.push((fc, cc));
                proof {
                    assert(self.cm() =~~= c0.push((file_path@, comment@)));
                    lemma_push_comment(c0, file_path@, comment@);
                }
                Ok(())
            },
        }
    }

    /// Deletes the comment of a file; it must have one.
    pub fn delete_comment(&mut self, file_path: &str) -> (r: Result<(), CodeNexusError>)
        requires
            old(self).wf(),
        ensures
            final(self).wf(),
            r is Ok <==> old(self).has(file_path@),
            match r {
                Ok(_) => {
                    &&& final(self).comment(file_path@) is None
                    &&& forall|f: Seq<char>|
                        f != file_path@ ==> #[trigger] final(self).comment(f) == old(
                            self,
                        ).comment(f)
                    &&& forall|f: Seq<char>|
                        #[trigger] final(self).has(f) == (old(self).has(f) && f != file_path@)
                },
                Err(e) => {
                    &&& *final(self) == *old(self)
                    &&& e is FileNotFound
                },
            },
    {
        let fc = chars_of(file_path);
        let ghost c0 = self.cm();
        match self.find(&fc) {
            Some(i) => {
                self.file_comments.remove(i);
                proof {
                    assert(self.cm() =~~= c0.remove(i as int));
                    lemma_remove_comment(c0, i as int);
                }
                Ok(())
            },
            None => Err(CodeNexusError::FileNotFound(file_path.to_owned())),
        }
    }
}

proof fn lemma_push_comment(l: CommentSeq, k: Seq<char>, v: Seq<char>)
    requires
        firsts_distinct(l),
        !firsts_contain(l, k),
    ensures
        firsts_distinct(l.push((k, v))),
        comment_of(l.push((k, v)), k) == Some(v),
        forall|f: Seq<char>|
            f != k ==> #[trigger] comment_of(l.push((k, v)), f) == comment_of(l, f),
        forall|f: Seq<char>|
            #[trigger] firsts_contain(l.push((k, v)), f) == (firsts_contain(l, f) || f == k),
{
    let n = l.push((k, v));
    crate::relmap::lemma_pair_contains_push(l, (k, v));
    assert forall|i: int, j: int| 0 <= i < j < n.len() implies n[i].0 != n[j].0 by {
        if j == n.len() - 1 {
            assert(n[i] == l[i]);
            if l[i].0 == k {
                assert(firsts_contain(l, k));
            }
        } else {
            assert(n[i] == l[i] && n[j] == l[j]);
        }
    }
    assert forall|f: Seq<char>| #[trigger] firsts_contain(n, f) == (firsts_contain(l, f) || f
        == k) by {
        if firsts_contain(n, f) {
            let i = choose|i: int| 0 <= i < n.len() && n[i].0 == f;
            if i < l.len() {
                assert(l[i].0 == f);
            }
        }
        if firsts_contain(l, f) {
            let i = choose|i: int| 0 <= i < l.len() && l[i].0 == f;
            assert(n[i].0 == f);
        }
        if f == k {
            assert(n[n.len() - 1].0 == f);
        }
    }
    assert(n[n.len() - 1].0 == k);
    lemma_comment_entry(n, n.len() - 1);
    assert forall|f: Seq<char>| f != k implies #[trigger] comment_of(n, f) == comment_of(
        l,
        f,
    ) by {
        if firsts_contain(l, f) {
            let i = choose|i: int| 0 <= i < l.len() && l[i].0 == f;
            assert(n[i].0 == f);
            lemma_comment_entry(l, i);
            lemma_comment_entry(n, i);
        }
    }
}

proof fn lemma_update_comment(l: CommentSeq, i: int, v: Seq<char>)
    requires
        firsts_distinct(l),
        0 <= i < l.len(),
    ensures
        firsts_distinct(l.update(i, (l[i].0, v))),
        comment_of(l.update(i, (l[i].0, v)), l[i].0) == Some(v),
        forall|f: Seq<char>|
            f != l[i].0 ==> #[trigger] comment_of(l.update(i, (l[i].0, v)), f) == comment_of(
                l,
                f,
            ),
        forall|f: Seq<char>|
            #[trigger] firsts_contain(l.update(i, (l[i].0, v)), f) == firsts_contain(l, f),
{
    let n = l.update(i, (l[i].0, v));
    assert(forall|j: int| 0 <= j < n.len() ==> #[trigger] n[j].0 == l[j].0);
    assert forall|f: Seq<char>| #[trigger] firsts_contain(n, f) == firsts_contain(l, f) by {
        if firsts_contain(n, f) {
            let j = choose|j: int| 0 <= j < n.len() && n[j].0 == f;
            assert(l[j].0 == f);
        }
        if firsts_contain(l, f) {
            let j = choose|j: int| 0 <= j < l.len() && l[j].0 == f;
            assert(n[j].0 == f);
        }
    }
    lemma_comment_entry(n, i);
    assert forall|f: Seq<char>| f != l[i].0 implies #[trigger] comment_of(n, f) == comment_of(
        l,
        f,
    ) by {
        if firsts_contain(l, f) {
            let j = choose|j: int| 0 <= j < l.len() && l[j].0 == f;
            assert(j != i);
            lemma_comment_entry(l, j);
            lemma_comment_entry(n, j);
            assert(n[j] == l[j]);
        }
    }
}

proof fn lemma_remove_comment(l: CommentSeq, i: int)
    requires
        firsts_distinct(l),
        0 <= i < l.len(),
    ensures
        firsts_distinct(l.remove(i)),
        comment_of(l.remove(i), l[i].0) is None,
        forall|f: Seq<char>|
            f != l[i].0 ==> #[trigger] comment_of(l.remove(i), f) == comment_of(l, f),
        forall|f: Seq<char>|
            #[trigger] firsts_contain(l.remove(i), f) == (firsts_contain(l, f) && f != l[i].0),
{
    let n = l.remove(i);
    assert forall|p: int, q: int| 0 <= p < q < n.len() implies n[p].0 != n[q].0 by {
        let bp = if p < i {
            p
        } else {
            p + 1
        };
        let bq = if q < i {
            q
        } else {
            q + 1
        };
        assert(n[p] == l[bp] && n[q] == l[bq]);
    }
    assert forall|f: Seq<char>| #[trigger] firsts_contain(n, f) == (firsts_contain(l, f) && f
        != l[i].0) by {
        if firsts_contain(n, f) {
            let j = choose|j: int| 0 <= j < n.len() && n[j].0 == f;
            let bj = if j < i {
                j
            } else {
                j + 1
            };
            assert(l[bj].0 == f);
            assert(bj != i);
            if f == l[i].0 {
                assert(false);
            }
        }
        if firsts_contain(l, f) && f != l[i].0 {
            let j = choose|j: int| 0 <= j < l.len() && l[j].0 == f;
            assert(j != i);
            if j < i {
                assert(n[j].0 == f);
            } else {
                assert(n[j - 1].0 == f);
            }
        }
    }
    assert forall|f: Seq<char>| f != l[i].0 implies #[trigger] comment_of(n, f) == comment_of(
        l,
        f,
    ) by {
        if firsts_contain(l, f) {
            let j = choose|j: int| 0 <= j < l.len() && l[j].0 == f;
            assert(j != i);
            lemma_comment_entry(l, j);
            if j < i {
                assert(n[j] == l[j]);
                lemma_comment_entry(n, j);
            } else {
                assert(n[j - 1] == l[j]);
                lemma_comment_entry(n, j - 1);
            }
        }
    }
}

/// The total text length over all comments.
pub open spec fn csum(l: CommentSeq) -> int
    decreases l.len(),
{
    if l.len() == 0 {
        0
    } else {
        csum(l.drop_last()) + l.last().1.len()
    }
}

proof fn lemma_csum_nonneg(l: CommentSeq)
    ensures
        csum(l) >= 0,
    decreases l.len(),
{
    if l.len() > 0 {
        lemma_csum_nonneg(l.drop_last());
    }
}

impl CommentManager {
    /// The files that have a comment, sorted.
    pub fn get_commented_files(&self) -> (r: Vec<String>)
        requires
            self.wf(),
        ensures
            r.deep_view().no_duplicates(),
            crate::lex::sorted_lex(r.deep_view()),
            forall|f: Seq<char>| #[trigger] r.deep_view().contains(f) == self.has(f),
    {
        broadcast use vstd::seq_lib::group_to_multiset_ensures;

        let mut keys: Vec<Vec<char>> = Vec::new();
        let mut i: usize = 0;
        while i < self.file_comments.len()
            invariant
                0 <= i <= self.file_comments.len(),
                keys.deep_view().len() == i,
                forall|j: int| 0 <= j < i ==> #[trigger] keys.deep_view()[j] == self.cm()[j].0,
            decreases self.file_comments.len() - i,
        {
            let ghost before = keys.deep_view();
            keys.push(copy_chars(&self.file_comments[i].0));
            i = i + 1;
            proof {
                assert(keys.deep_view() =~~= before.push(self.cm()[i - 1].0));
            }
        }
        proof {
            assert forall|f: Seq<char>| #[trigger] keys.deep_view().contains(f) == self.has(
                f,
            ) by {
                if keys.deep_view().contains(f) {
                    let j = choose|j: int|
                        0 <= j < keys.deep_view().len() && keys.deep_view()[j] == f;
                    assert(self.cm()[j].0 == f);
                }
                if self.has(f) {
                    let j = choose|j: int| 0 <= j < self.cm().len() && self.cm()[j].0 == f;
                    assert(keys.deep_view()[j] == f);
                }
            }
            assert(keys.deep_view().no_duplicates()) by {
                assert forall|p: int, q: int|
                    0 <= p < q < keys.deep_view().len() implies keys.deep_view()[p] != keys
                    .deep_view()[q] by {
                    assert(keys.deep_view()[p] == self.cm()[p].0);
                    assert(keys.deep_view()[q] == self.cm()[q].0);
                }
            }
        }
        let ghost keys_dv = keys.deep_view();
        let sorted = crate::lex::sort_strs(keys);
        let r = crate::bridge::strings_of(&sorted);
        proof {
            let sv = sorted.deep_view();
            assert forall|f: Seq<char>| #[trigger] sv.contains(f) == self.has(f) by {
                vstd::seq_lib::to_multiset_contains::<Seq<char>>(sv, f);
                vstd::seq_lib::to_multiset_contains::<Seq<char>>(keys_dv, f);
            }
            assert(sv.no_duplicates()) by {
                keys_dv.lemma_multiset_has_no_duplicates();
                sv.lemma_multiset_has_no_duplicates_conv();
            }
        }
        r
    }

    /// Every (file, comment) pair whose text contains the keyword,
    /// case-insensitively, sorted by file.
    pub fn search_comments(&self, keyword: &str) -> (r: Vec<(String, String)>)
        requires
            self.wf(),
        ensures
            forall|f: Seq<char>, c: Seq<char>|
                #[trigger] r.deep_view().contains((f, c)) == (self.comment(f) == Some(c)
                    && crate::relations::desc_matches(c, keyword@)),
            forall|k1: int, k2: int|
                0 <= k1 < k2 < r.deep_view().len() ==> crate::lex::lex_le(
                    (#[trigger] r.deep_view()[k1]).0,
                    (#[trigger] r.deep_view()[k2]).0,
                ),
    {
        let kw_low = crate::bridge::lowercase(keyword);
        let kwc = chars_of(kw_low.as_str());
        let skeys = self.get_commented_files();
        let ghost skv = skeys.deep_view();
        let mut r: Vec<(String, String)> = Vec::new();
        let mut i: usize = 0;
        while i < skeys.len()
            invariant
                0 <= i <= skeys.len(),
                self.wf(),
                skv == skeys.deep_view(),
                crate::lex::sorted_lex(skv),
                skv.no_duplicates(),
                kwc@ == crate::bridge::lower_of(keyword@),
                forall|f: Seq<char>| #[trigger] skv.contains(f) == self.has(f),
                forall|f: Seq<char>, c: Seq<char>|
                    #[trigger] r.deep_view().contains((f, c)) == (skv.subrange(
                        0,
                        i as int,
                    ).contains(f) && self.comment(f) == Some(c)
                        && crate::relations::desc_matches(c, keyword@)),
                forall|k: int|
                    0 <= k < r.deep_view().len() && i < skv.len() ==> crate::lex::lex_le(
                        (#[trigger] r.deep_view()[k]).0,
                        skv[i as int],
                    ),
                forall|k: int|
                    0 <= k < r.deep_view().len() ==> skv.subrange(0, i as int).contains(
                        (#[trigger] r.deep_view()[k]).0,
                    ),
                forall|k1: int, k2: int|
                    0 <= k1 < k2 < r.deep_view().len() ==> crate::lex::lex_le(
                        (#[trigger] r.deep_view()[k1]).0,
                        (#[trigger] r.deep_view()[k2]).0,
                    ),
            decreases skeys.len() - i,
        {
            let ghost rv0 = r.deep_view();
            let ghost key = skv[i as int];
            proof {
                assert(skeys[i as int]@ == key);
                assert(skv.contains(key));
            }
            let kc = chars_of(skeys[i].as_str());
            proof {
                assert(self.has(key));
            }
            let k = match self.find(&kc) {
                Some(k) => k,
                None => {
                    proof {
                        assert(false);
                    }
                    0
                },
            };
            proof {
                lemma_comment_entry(self.cm(), k as int);
            }
            let ghost cval = self.cm()[k as int].1;
            let cstr = string_of(&self.file_comments[k].1);
            let clow = crate::bridge::lowercase(cstr.as_str());
            let clc = chars_of(clow.as_str());
            let hit = if kwc.len() == 0 {
                proof {
                    assert(clc@.subrange(0, 0) =~= kwc@);
                    assert(crate::text::is_match_at(clc@, kwc@, 0));
                }
                true
            } else {
                crate::text::contains_sub(&clc, &kwc)
            };
            if hit {
                let entry = (string_of(&kc), cstr);
                r.push(entry);
                proof {
                    assert(r.deep_view() =~~= rv0.push((key, cval)));
                    crate::relmap::lemma_pair_contains_push(rv0, (key, cval));
                    crate::lex::lemma_lex_le_reflexive(key);
                }
            }
            i = i + 1;
            proof {
                let pre = skv.subrange(0, i - 1);
                let cur = skv.subrange(0, i as int);
                assert(cur =~= pre.push(key));
                crate::strset::lemma_contains_push(pre, key);
                assert(!pre.contains(key)) by {
                    if pre.contains(key) {
                        let a = choose|a: int| 0 <= a < pre.len() && pre[a] == key;
                        assert(skv[a] == key && skv[i - 1] == key && a != i - 1);
                    }
                }
                assert forall|f: Seq<char>, c: Seq<char>|
                    #[trigger] r.deep_view().contains((f, c)) == (cur.contains(f)
                        && self.comment(f) == Some(c) && crate::relations::desc_matches(
                        c,
                        keyword@,
                    )) by {
                    assert(self.cm()[k as int].1 == self.file_comments[k as int].1@);
                    assert(clc@ == crate::bridge::lower_of(cval));
                    assert(crate::relations::desc_matches(cval, keyword@) == hit);
                    if hit {
                        assert(r.deep_view() == rv0.push((key, cval)));
                        assert(r.deep_view().contains((f, c)) == (rv0.contains((f, c)) || (f, c)
                            == (key, cval)));
                    } else {
                        assert(r.deep_view() == rv0);
                    }
                    if f == key {
                        assert(self.comment(key) == Some(cval));
                        assert(!pre.contains(key));
                    }
                }
                if i < skv.len() {
                    assert forall|k2: int|
                        0 <= k2 < r.deep_view().len() implies crate::lex::lex_le(
                        (#[trigger] r.deep_view()[k2]).0,
                        skv[i as int],
                    ) by {
                        let s = r.deep_view()[k2].0;
                        assert(cur.contains(s));
                        let a = choose|a: int| 0 <= a < cur.len() && cur[a] == s;
                        assert(skv[a] == s);
                        assert(crate::lex::lex_le(skv[a], skv[i as int]));
                    }
                }
            }
        }
        proof {
            assert(skv.subrange(0, skeys.len() as int) =~= skv);
            assert forall|f: Seq<char>, c: Seq<char>|
                #[trigger] r.deep_view().contains((f, c)) == (self.comment(f) == Some(c)
                    && crate::relations::desc_matches(c, keyword@)) by {
                if self.comment(f) == Some(c) {
                    assert(self.has(f));
                    assert(skv.contains(f));
                }
            }
        }
        r
    }

    /// Counts: commented files, and total comment text length (clipped at
    /// the usize maximum).
    pub fn get_stats(&self) -> (r: (usize, usize))
        ensures
            r.0 == self.cm().len(),
            r.1 as int == crate::relmap::clamp_usize(csum(self.cm())),
    {
        let mut total: usize = 0;
        let mut i: usize = 0;
        while i < self.file_comments.len()
            invariant
                0 <= i <= self.file_comments.len(),
                total as int == crate::relmap::clamp_usize(csum(self.cm().subrange(0, i as int))),
            decreases self.file_comments.len() - i,
        {
            let len_i = self.file_comments[i].1.len();
            proof {
                let pre = self.cm().subrange(0, i as int);
                let cur = self.cm().subrange(0, i + 1);
                assert(cur.drop_last() =~~= pre);
                assert(cur.last() == self.cm()[i as int]);
                assert(csum(cur) == csum(pre) + self.cm()[i as int].1.len());
                lemma_csum_nonneg(pre);
                assert(self.cm()[i as int].1.len() == len_i);
            }
            if total <= usize::MAX - len_i {
                total = total + len_i;
            } else {
                total = usize::MAX;
            }
            i = i + 1;
        }
        proof {
            assert(self.cm().subrange(0, self.file_comments.len() as int) =~~= self.cm());
        }
        (self.file_comments.len(), total)
    }

    /// Drops the comments of the files reported missing and returns how many
    /// went. The filesystem check itself is the collaborator's job.
    pub fn cleanup_invalid_comments(&mut self, missing_files: &Vec<String>) -> (r: usize)
        requires
            old(self).wf(),
        ensures
            final(self).wf(),
            forall|f: Seq<char>|
                #[trigger] final(self).comment(f) == if missing_files.deep_view().contains(f) {
                    None::<Seq<char>>
                } else {
                    old(self).comment(f)
                },
            final(self).cm().len() <= old(self).cm().len(),
            r == old(self).cm().len() - final(self).cm().len(),
    {
        let miss = crate::bridge::chars_of_strings(missing_files);
        let ghost ms = missing_files.deep_view();
        let ghost c0 = self.cm();
        let mut keep: Vec<(Vec<char>, Vec<char>)> = Vec::new();
        let mut i: usize = 0;
        while i < self.file_comments.len()
            invariant
                0 <= i <= self.file_comments.len(),
                c0 == self.cm(),
                firsts_distinct(c0),
                ms == missing_files.deep_view(),
                miss.deep_view() == ms,
                keep.len() <= i,
                firsts_distinct(keep.deep_view()),
                forall|k: int|
                    0 <= k < keep.deep_view().len() ==> exists|a: int|
                        0 <= a < i && #[trigger] keep.deep_view()[k] == c0[a],
                forall|p: (Seq<char>, Seq<char>)|
                    #[trigger] keep.deep_view().contains(p) == (c0.subrange(0, i as int).contains(
                        p,
                    ) && !ms.contains(p.0)),
            decreases self.file_comments.len() - i,
        {
            let ghost kv0 = keep.deep_view();
            let ghost x = c0[i as int];
            proof {
                assert((self.file_comments[i as int].0@, self.file_comments[i as int].1@) == x);
            }
            let hit = crate::strset::strs_contains(&miss, &self.file_comments[i].0);
            if !hit {
                let a = copy_chars(&self.file_comments[i].0);
                let b = copy_chars(&self.file_comments[i].1);
                keep.push((a, b));
                proof {
                    assert(keep.deep_view() =~~= kv0.push(x));
                    crate::relmap::lemma_pair_contains_push(kv0, x);
                    assert forall|k: int|
                        0 <= k < keep.deep_view().len() implies exists|a2: int|
                        0 <= a2 < i + 1 && #[trigger] keep.deep_view()[k] == c0[a2] by {
                        if k < kv0.len() {
                            let a2 = choose|a2: int| 0 <= a2 < i && kv0[k] == c0[a2];
                            assert(keep.deep_view()[k] == c0[a2]);
                        } else {
                            assert(keep.deep_view()[k] == c0[i as int]);
                        }
                    }
                    assert(firsts_distinct(keep.deep_view())) by {
                        assert forall|p: int, q: int|
                            0 <= p < q < keep.deep_view().len() implies keep.deep_view()[p].0
                            != keep.deep_view()[q].0 by {
                            if q == keep.deep_view().len() - 1 {
                                let a2 = choose|a2: int| 0 <= a2 < i && kv0[p] == c0[a2];
                                assert(keep.deep_view()[p] == c0[a2]);
                                assert(c0[a2].0 != c0[i as int].0);
                            }
                        }
                    }
                }
            }
            i = i + 1;
            proof {
                let pre = c0.subrange(0, i - 1);
                let cur = c0.subrange(0, i as int);
                assert(cur =~~= pre.push(x));
                crate::relmap::lemma_pair_contains_push(pre, x);
            }
        }
        proof {
            assert(c0.subrange(0, self.file_comments.len() as int) =~~= c0);
        }
        let removed = self.file_comments.len() - keep.len();
        self.file_comments = keep;
        proof {
            let c1 = self.cm();
            assert forall|f: Seq<char>| #[trigger] final(self).comment(f) == (if ms.contains(f) {
                None::<Seq<char>>
            } else {
                comment_of(c0, f)
            }) by {
                if firsts_contain(c1, f) {
                    let j = choose|j: int| 0 <= j < c1.len() && c1[j].0 == f;
                    lemma_comment_entry(c1, j);
                    assert(c1.contains(c1[j]));
                    assert(c0.contains(c1[j]) && !ms.contains(f));
                    let a = choose|a: int| 0 <= a < c0.len() && c0[a] == c1[j];
                    lemma_comment_entry(c0, a);
                } else {
                    if !ms.contains(f) && firsts_contain(c0, f) {
                        let a = choose|a: int| 0 <= a < c0.len() && c0[a].0 == f;
                        lemma_comment_entry(c0, a);
                        assert(c0.contains(c0[a]));
                        assert(c1.contains(c0[a]));
                        let j = choose|j: int| 0 <= j < c1.len() && c1[j] == c0[a];
                        assert(firsts_contain(c1, f));
                    }
                }
            }
        }
        removed
    }

    /// Brings outside (file, comment) pairs into the store, later pairs
    /// overriding earlier ones; blank comments are skipped. Returns how many
    /// pairs were taken. The caller is expected to hand over only files that
    /// exist.
    pub fn import_comments(&mut self, comments: &Vec<(String, String)>) -> (r: usize)
        requires
            old(self).wf(),
        ensures
            final(self).wf(),
            r <= comments.len(),
            forall|f: Seq<char>|
                #[trigger] final(self).has(f) == (old(self).has(f) || exists|j: int|
                    0 <= j < comments.deep_view().len() && (#[trigger] comments.deep_view()[j]).0
                        == f && trim_spec(comments.deep_view()[j].1).len() > 0),
    {
        let ghost dv = comments.deep_view();
        let mut count: usize = 0;
        let mut i: usize = 0;
        while i < comments.len()
            invariant
                0 <= i <= comments.len(),
                dv == comments.deep_view(),
                count <= i,
                self.wf(),
                forall|f: Seq<char>|
                    #[trigger] self.has(f) == (old(self).has(f) || exists|j: int|
                        0 <= j < i && (#[trigger] dv[j]).0 == f && trim_spec(dv[j].1).len()
                            > 0),
            decreases comments.len() - i,
        {
            let ghost fp = dv[i as int].0;
            proof {
                assert((comments[i as int].0@, comments[i as int].1@) == dv[i as int]);
            }
            let res = self.update_comment(comments[i].0.as_str(), comments[i].1.as_str());
            if res.is_ok() {
                count = count + 1;
            }
            i = i + 1;
            proof {
                assert forall|f: Seq<char>| #[trigger] self.has(f) == (old(self).has(f)
                    || exists|j: int|
                    0 <= j < i && (#[trigger] dv[j]).0 == f && trim_spec(dv[j].1).len()
                        > 0) by {
                    if self.has(f) && !old(self).has(f) {
                        if f == fp && trim_spec(dv[i - 1].1).len() > 0 {
                            assert(0 <= i - 1 < i && dv[i - 1].0 == f);
                        }
                    }
                    if exists|j: int|
                        0 <= j < i && (#[trigger] dv[j]).0 == f && trim_spec(dv[j].1).len() > 0 {
                        let j = choose|j: int|
                            0 <= j < i && (#[trigger] dv[j]).0 == f && trim_spec(
                                dv[j].1,
                            ).len() > 0;
                    }
                }
            }
        }
        count
    }

    /// The snapshot of the dataset, as the persistence gateway stores it.
    pub fn to_data(&self) -> (r: CommentsData)
        requires
            self.wf(),
        ensures
            r.file_comments.deep_view() == self.cm(),
    {
        CommentsData { file_comments: self.get_all_comments() }
    }

    /// Builds the store from a stored snapshot; duplicate file entries are
    /// rejected.
    pub fn from_data(data: &CommentsData) -> (r: Result<CommentManager, CodeNexusError>)
        ensures
            r is Ok <==> firsts_distinct(data.file_comments.deep_view()),
            match r {
                Ok(m) => m.wf() && m.cm() == data.file_comments.deep_view(),
                Err(e) => e is SerializationError,
            },
    {
        let ghost dv = data.file_comments.deep_view();
        let mut table: Vec<(Vec<char>, Vec<char>)> = Vec::new();
        let mut i: usize = 0;
        while i < data.file_comments.len()
            invariant
                0 <= i <= data.file_comments.len(),
                dv == data.file_comments.deep_view(),
                table.deep_view() == dv.subrange(0, i as int),
                firsts_distinct(table.deep_view()),
            decreases data.file_comments.len() - i,
        {
            let ghost t0 = table.deep_view();
            proof {
                assert((data.file_comments[i as int].0@, data.file_comments[i as int].1@)
                    == dv[i as int]);
            }
            let fc = chars_of(data.file_comments[i].0.as_str());
            let mut j: usize = 0;
            let mut dup = false;
            while j < table.len()
                invariant
                    0 <= j <= table.len(),
                    t0 == table.deep_view(),
                    fc@ == dv[i as int].0,
                    dup ==> exists|a: int| 0 <= a < t0.len() && t0[a].0 == fc@,
                    !dup ==> forall|a: int| 0 <= a < j ==> t0[a].0 != fc@,
                decreases table.len() - j,
            {
                let hit = seq_eq(&table[j].0, &fc);
                proof {
                    assert(table.deep_view()[j as int].0 == table[j as int].0@);
                }
                if hit {
                    dup = true;
                    j = table.len();
                } else {
                    j = j + 1;
                }
            }
            if dup {
                proof {
                    let a = choose|a: int| 0 <= a < t0.len() && t0[a].0 == fc@;
                    assert(dv[a].0 == dv[i as int].0 && a != i);
                }
                return Err(CodeNexusError::SerializationError(String::new()));
            }
            let cc = chars_of(data.file_comments[i].1.as_str());
            table.push((fc, cc));
            i = i + 1;
            proof {
                assert(table.deep_view() =~~= t0.push(dv[i - 1]));
                assert(table.deep_view() =~~= dv.subrange(0, i as int));
                assert(firsts_distinct(table.deep_view())) by {
                    assert forall|p: int, q: int|
                        0 <= p < q < table.deep_view().len() implies table.deep_view()[p].0
                        != table.deep_view()[q].0 by {
                        if q == table.deep_view().len() - 1 {
                            assert(table.deep_view()[p] == t0[p]);
                        } else {
                            assert(table.deep_view()[p] == t0[p] && table.deep_view()[q]
                                == t0[q]);
                        }
                    }
                }
            }
        }
        proof {
            assert(dv.subrange(0, data.file_comments.len() as int) =~~= dv);
        }
        Ok(CommentManager { file_comments: table })
    }
}

} // verus!
