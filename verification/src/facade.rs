//! The composite query surface over the three managers: full file info,
//! complex queries, system status, search and suggestions. The adapter that
//! exposes these to callers owns the locking; these functions combine
//! in-memory state only.

use vstd::prelude::*;
use crate::comments::CommentManager;
use crate::error::CodeNexusError;
use crate::lex::{lex_le, sort_strs, sorted_lex};
use crate::query::query_result;
use crate::relations::{desc_matches, Relation, RelationManager};
use crate::relmap::rlookup;
use crate::strset::strs_push_new;
use crate::tags::TagManager;
use crate::bridge::{chars_of, strings_of};

verus! {

/// Everything known about one file.
pub struct FileInfo {
    pub path: String,
    pub tags: Vec<String>,
    pub comment: Option<String>,
    pub relations: Vec<Relation>,
    pub incoming_relations: Vec<Relation>,
}

/// A query answer: the matching files and their number.
pub struct QueryResult {
    pub files: Vec<String>,
    pub total: usize,
}

/// Tag statistics: the types in use with their values, and totals.
pub struct TagStats {
    pub tag_types: Vec<(String, Vec<String>)>,
    pub total_files: usize,
    pub total_tags: usize,
}

/// A snapshot of the whole system's counters.
pub struct SystemStatus {
    pub total_files: usize,
    pub tagged_files: usize,
    pub commented_files: usize,
    pub total_relations: usize,
    pub tag_stats: TagStats,
}

/// Parameters of a tag query request.
pub struct TagQueryParams {
    pub query: String,
}

/// Parameters for adding tags to a file.
pub struct AddTagsParams {
    pub file_path: String,
    pub tags: Vec<String>,
}

/// Parameters for removing tags from a file.
pub struct RemoveTagsParams {
    pub file_path: String,
    pub tags: Vec<String>,
}

/// Parameters for adding a comment to a file.
pub struct AddCommentParams {
    pub file_path: String,
    pub comment: String,
}

/// Parameters for adding a relation between two files.
pub struct AddRelationParams {
    pub from_file: String,
    pub to_file: String,
    pub description: String,
}

/// Parameters for removing a relation.
pub struct RemoveRelationParams {
    pub from_file: String,
    pub to_file: String,
}

/// Parameters naming one file.
pub struct FilePathParams {
    pub file_path: String,
}

/// A `FileInfo` is about `f` and faithful to the three managers.
pub open spec fn file_info_ok(
    tm: TagManager,
    cm: CommentManager,
    rm: RelationManager,
    f: Seq<char>,
    info: FileInfo,
) -> bool {
    &&& info.path@ == f
    &&& info.tags.deep_view() == tm.tags_of(f)
    &&& (match info.comment {
        Some(c) => cm.comment(f) == Some(c@),
        None => cm.comment(f) is None,
    })
    &&& info.relations.deep_view() == rm.outgoing(f)
    &&& info.incoming_relations.deep_view() == rm.incoming_of(f)
}

/// Collects everything known about one file.
pub fn get_file_info(
    tags: &TagManager,
    comments: &CommentManager,
    relations: &RelationManager,
    file_path: &str,
) -> (r: FileInfo)
    requires
        tags.wf(),
        comments.wf(),
        relations.wf(),
    ensures
        file_info_ok(*tags, *comments, *relations, file_path@, r),
{
    FileInfo {
        path: file_path.to_owned(),
        tags: tags.get_file_tags(file_path),
        comment: comments.get_comment(file_path),
        relations: relations.get_file_relations(file_path),
        incoming_relations: relations.get_incoming_relations(file_path),
    }
}

/// Collects the info of each requested file, in request order.
pub fn get_batch_file_info(
    tags: &TagManager,
    comments: &CommentManager,
    relations: &RelationManager,
    file_paths: &Vec<String>,
) -> (r: Vec<FileInfo>)
    requires
        tags.wf(),
        comments.wf(),
        relations.wf(),
    ensures
        r.len() == file_paths.len(),
        forall|i: int|
            0 <= i < r.len() ==> file_info_ok(
                *tags,
                *comments,
                *relations,
                file_paths.deep_view()[i],
                #[trigger] r[i],
            ),
{
    let mut r: Vec<FileInfo> = Vec::new();
    let mut i: usize = 0;
    while i < file_paths.len()
        invariant
            0 <= i <= file_paths.len(),
            tags.wf(),
            comments.wf(),
            relations.wf(),
            r.len() == i,
            forall|j: int|
                0 <= j < i ==> file_info_ok(
                    *tags,
                    *comments,
                    *relations,
                    file_paths.deep_view()[j],
                    #[trigger] r[j],
                ),
        decreases file_paths.len() - i,
    {
        proof {
            assert(file_paths[i as int]@ == file_paths.deep_view()[i as int]);
        }
        let info = get_file_info(tags, comments, relations, file_paths[i].as_str());
        r.push(info);
        i = i + 1;
    }
    r
}

/// Runs a tag query and wraps the answer with its count.
pub fn execute_tag_query(tags: &TagManager, query: &str) -> (r: Result<
    QueryResult,
    CodeNexusError,
>)
    requires
        tags.wf(),
    ensures
        r is Ok,
        match r {
            Ok(qr) => {
                &&& qr.total == qr.files.len()
                &&& qr.files.deep_view().no_duplicates()
                &&& sorted_lex(qr.files.deep_view())
                &&& forall|f: Seq<char>|
                    #[trigger] qr.files.deep_view().contains(f) == query_result(
                        *tags,
                        query@,
                    ).contains(f)
            },
            Err(_) => false,
        },
{
    let files = match tags.query_files_by_tags(query) {
        Ok(files) => files,
        Err(e) => {
            return Err(e);
        },
    };
    let total = files.len();
    Ok(QueryResult { files, total })
}

/// The sources of all edges whose description matches the keyword.
pub open spec fn matching_sources(rm: RelationManager, kw: Seq<char>) -> Set<Seq<char>> {
    Set::new(
        |s: Seq<char>|
            exists|p: (Seq<char>, Seq<char>)|
                #[trigger] rlookup(rm.fwd(), s).contains(p) && desc_matches(p.1, kw),
    )
}

/// What a complex query answers: the tag-query files, narrowed by (or
/// replaced with, when the tag part is empty) the files whose relation
/// descriptions match the keyword.
pub open spec fn complex_result(
    tm: TagManager,
    rm: RelationManager,
    tq: Option<Seq<char>>,
    kw: Option<Seq<char>>,
) -> Set<Seq<char>> {
    let tag_part = match tq {
        Some(q) => query_result(tm, q),
        None => Set::empty(),
    };
    match kw {
        None => tag_part,
        Some(k) => if tag_part.is_empty() {
            matching_sources(rm, k)
        } else {
            tag_part.intersect(matching_sources(rm, k))
        },
    }
}

/// Runs a combined tag and relation-description query.
pub fn execute_complex_query(
    tags: &TagManager,
    relations: &RelationManager,
    tag_query: Option<&str>,
    relation_keyword: Option<&str>,
) -> (r: Result<QueryResult, CodeNexusError>)
    requires
        tags.wf(),
        relations.wf(),
    ensures
        r is Ok,
        match r {
            Ok(qr) => {
                &&& qr.total == qr.files.len()
                &&& qr.files.deep_view().no_duplicates()
                &&& sorted_lex(qr.files.deep_view())
                &&& forall|f: Seq<char>|
                    #[trigger] qr.files.deep_view().contains(f) == complex_result(
                        *tags,
                        *relations,
                        match tag_query {
                            Some(q) => Some(q@),
                            None => None,
                        },
                        match relation_keyword {
                            Some(k) => Some(k@),
                            None => None,
                        },
                    ).contains(f)
            },
            Err(_) => false,
        },
{
    broadcast use vstd::seq_lib::group_to_multiset_ensures;

    let mut result: Vec<Vec<char>> = Vec::new();
    let ghost tag_part = match tag_query {
        Some(q) => query_result(*tags, q@),
        None => Set::<Seq<char>>::empty(),
    };
    match tag_query {
        Some(q) => {
            let files = match tags.query_files_by_tags(q) {
                Ok(files) => files,
                Err(e) => {
                    return Err(e);
                },
            };
            result = crate::bridge::chars_of_strings(&files);
            proof {
                assert(forall|f: Seq<char>|
                    #[trigger] result.deep_view().contains(f) == tag_part.contains(f));
            }
        },
        None => {
            proof {
                assert(forall|f: Seq<char>|
                    !(#[trigger] result.deep_view().contains(f)));
            }
        },
    }
    match relation_keyword {
        Some(kw) => {
            let ghost kws = kw@;
            let rel_results = relations.query_relations_by_description(kw);
            let mut rel_files: Vec<Vec<char>> = Vec::new();
            let mut i: usize = 0;
            while i < rel_results.len()
                invariant
                    0 <= i <= rel_results.len(),
                    relations.wf(),
                    rel_files.deep_view().no_duplicates(),
                    forall|s: Seq<char>, p: (Seq<char>, Seq<char>)|
                        #[trigger] rel_results.deep_view().contains((s, p)) == (rlookup(
                            relations.fwd(),
                            s,
                        ).contains(p) && desc_matches(p.1, kws)),
                    forall|s: Seq<char>|
                        #[trigger] rel_files.deep_view().contains(s) == exists|j: int|
                            0 <= j < i && (#[trigger] rel_results.deep_view()[j]).0 == s,
                decreases rel_results.len() - i,
            {
                let ghost rf0 = rel_files.deep_view();
                let ghost src = rel_results.deep_view()[i as int].0;
                proof {
                    assert(rel_results[i as int].0@ == src);
                }
                let fc = chars_of(rel_results[i].0.as_str());
                let added = strs_push_new(&mut rel_files, &fc);
                i = i + 1;
                proof {
                    if added {
                        crate::strset::lemma_contains_push(rf0, src);
                    }
                    assert forall|s: Seq<char>| #[trigger] rel_files.deep_view().contains(s)
                        == exists|j: int|
                        0 <= j < i && (#[trigger] rel_results.deep_view()[j]).0 == s by {
                        if rel_files.deep_view().contains(s) {
                            if rf0.contains(s) {
                                let j = choose|j: int|
                                    0 <= j < i - 1 && (#[trigger] rel_results.deep_view()[j]).0
                                        == s;
                                assert(0 <= j < i && rel_results.deep_view()[j].0 == s);
                            } else {
                                assert(s == src);
                                assert(rel_results.deep_view()[i - 1].0 == s);
                            }
                        }
                        if exists|j: int|
                            0 <= j < i && (#[trigger] rel_results.deep_view()[j]).0 == s {
                            let j = choose|j: int|
                                0 <= j < i && (#[trigger] rel_results.deep_view()[j]).0 == s;
                            if j < i - 1 {
                                assert(rf0.contains(s));
                            }
                        }
                    }
                }
            }
            proof {
                assert forall|s: Seq<char>| #[trigger] rel_files.deep_view().contains(s)
                    == matching_sources(*relations, kws).contains(s) by {
                    if rel_files.deep_view().contains(s) {
                        let j = choose|j: int|
                            0 <= j < rel_results.deep_view().len() && (
                            #[trigger] rel_results.deep_view()[j]).0 == s;
                        let p = rel_results.deep_view()[j].1;
                        assert(rel_results.deep_view().contains((s, p)));
                    }
                    if matching_sources(*relations, kws).contains(s) {
                        let p = choose|p: (Seq<char>, Seq<char>)|
                            #[trigger] rlookup(relations.fwd(), s).contains(p) && desc_matches(
                                p.1,
                                kws,
                            );
                        assert(rel_results.deep_view().contains((s, p)));
                        let j = choose|j: int|
                            0 <= j < rel_results.deep_view().len() && rel_results.deep_view()[j]
                                == (s, p);
                        assert(rel_results.deep_view()[j].0 == s);
                    }
                }
            }
            if result.len() == 0 {
                proof {
                    assert(tag_part.is_empty()) by {
                        if tag_part.contains(choose|f: Seq<char>| tag_part.contains(f)) {
                            let f = choose|f: Seq<char>| tag_part.contains(f);
                            assert(result.deep_view().contains(f));
                        }
                        if !tag_part.is_empty() {
                            let f = tag_part.choose();
                            assert(tag_part.contains(f));
                            assert(result.deep_view().contains(f));
                        }
                    }
                }
                result = rel_files;
            } else {
                proof {
                    assert(!tag_part.is_empty()) by {
                        let f = result.deep_view()[0];
                        assert(result.deep_view().contains(f));
                        assert(tag_part.contains(f));
                    }
                }
                let inter = crate::strset::strs_intersect(&result, &rel_files);
                result = inter;
            }
        },
        None => {},
    }
    proof {
        assert(result.deep_view().no_duplicates());
        result.deep_view().lemma_multiset_has_no_duplicates();
    }
    let sorted = sort_strs(result);
    let files = strings_of(&sorted);
    proof {
        let sv = sorted.deep_view();
        assert forall|f: Seq<char>| #[trigger] sv.contains(f) == complex_result(
            *tags,
            *relations,
            match tag_query {
                Some(q) => Some(q@),
                None => None,
            },
            match relation_keyword {
                Some(k) => Some(k@),
                None => None,
            },
        ).contains(f) by {
            vstd::seq_lib::to_multiset_contains::<Seq<char>>(sv, f);
        }
        assert(sv.no_duplicates()) by {
            sv.lemma_multiset_has_no_duplicates_conv();
        }
    }
    let total = files.len();
    Ok(QueryResult { files, total })
}

/// The larger of two counts.
fn max_usize(a: usize, b: usize) -> (r: usize)
    ensures
        r == if a >= b {
            a
        } else {
            b
        },
{
    if a >= b {
        a
    } else {
        b
    }
}

/// Collects the counters of all three managers.
pub fn get_system_status(
    tags: &TagManager,
    comments: &CommentManager,
    relations: &RelationManager,
) -> (r: SystemStatus)
    requires
        tags.wf(),
        comments.wf(),
        relations.wf(),
    ensures
        r.tagged_files == tags.ft().len(),
        r.commented_files == comments.cm().len(),
        r.total_relations as int == crate::relmap::clamp_usize(
            crate::relmap::sum_lens(relations.fwd()),
        ),
        r.total_files >= r.tagged_files,
        r.total_files >= r.commented_files,
        r.total_files == tags.ft().len() || r.total_files == comments.cm().len()
            || r.total_files == relations.fwd().len(),
        r.tag_stats.total_files == tags.ft().len(),
        r.tag_stats.total_tags == tags.ttf().len(),
        r.tag_stats.tag_types.deep_view().len() == tags.ti().len(),
{
    let tag_stats = tags.get_stats();
    let comment_stats = comments.get_stats();
    let relation_stats = relations.get_stats();
    let all_tags = tags.get_all_tags();
    let tag_stats_info = TagStats {
        tag_types: all_tags,
        total_files: tag_stats.0,
        total_tags: tag_stats.1,
    };
    let total_files = max_usize(max_usize(tag_stats.0, comment_stats.0), relation_stats.0);
    SystemStatus {
        total_files,
        tagged_files: tag_stats.0,
        commented_files: comment_stats.0,
        total_relations: relation_stats.1,
        tag_stats: tag_stats_info,
    }
}

/// The files a combined search finds: a comment matches, or an outgoing
/// edge's description matches.
pub open spec fn search_hits(cm: CommentManager, rm: RelationManager, kw: Seq<char>) -> Set<
    Seq<char>,
> {
    Set::new(
        |f: Seq<char>|
            (match cm.comment(f) {
                Some(c) => desc_matches(c, kw),
                None => false,
            }) || matching_sources(rm, kw).contains(f),
    )
}

/// Searches comments and relation descriptions and returns the full info of
/// every file that matched, sorted by path.
pub fn search_files(
    tags: &TagManager,
    comments: &CommentManager,
    relations: &RelationManager,
    keyword: &str,
) -> (r: Vec<FileInfo>)
    requires
        tags.wf(),
        comments.wf(),
        relations.wf(),
    ensures
        forall|i: int|
            0 <= i < r.len() ==> file_info_ok(
                *tags,
                *comments,
                *relations,
                (#[trigger] r[i]).path@,
                r[i],
            ),
        forall|i: int, j: int|
            0 <= i < j < r.len() ==> lex_le((#[trigger] r[i]).path@, (#[trigger] r[j]).path@)
                && r[i].path@ != r[j].path@,
        forall|f: Seq<char>|
            (exists|i: int| 0 <= i < r.len() && (#[trigger] r[i]).path@ == f) == search_hits(
                *comments,
                *relations,
                keyword@,
            ).contains(f),
{
    broadcast use vstd::seq_lib::group_to_multiset_ensures;

    let comment_hits = comments.search_comments(keyword);
    let relation_hits = relations.query_relations_by_description(keyword);
    let mut acc: Vec<Vec<char>> = Vec::new();
    let mut i: usize = 0;
    while i < comment_hits.len()
        invariant
            0 <= i <= comment_hits.len(),
            comments.wf(),
            acc.deep_view().no_duplicates(),
            forall|f: Seq<char>, c: Seq<char>|
                #[trigger] comment_hits.deep_view().contains((f, c)) == (comments.comment(f)
                    == Some(c) && desc_matches(c, keyword@)),
            forall|f: Seq<char>|
                #[trigger] acc.deep_view().contains(f) == exists|j: int|
                    0 <= j < i && (#[trigger] comment_hits.deep_view()[j]).0 == f,
        decreases comment_hits.len() - i,
    {
        let ghost a0 = acc.deep_view();
        let ghost fp = comment_hits.deep_view()[i as int].0;
        proof {
            assert(comment_hits[i as int].0@ == fp);
        }
        let fc = chars_of(comment_hits[i].0.as_str());
        let added = strs_push_new(&mut acc, &fc);
        i = i + 1;
        proof {
            if added {
                crate::strset::lemma_contains_push(a0, fp);
            }
            assert forall|f: Seq<char>| #[trigger] acc.deep_view().contains(f) == exists|j: int|
                0 <= j < i && (#[trigger] comment_hits.deep_view()[j]).0 == f by {
                if acc.deep_view().contains(f) {
                    if a0.contains(f) {
                        let j = choose|j: int|
                            0 <= j < i - 1 && (#[trigger] comment_hits.deep_view()[j]).0 == f;
                        assert(0 <= j < i && comment_hits.deep_view()[j].0 == f);
                    } else {
                        assert(comment_hits.deep_view()[i - 1].0 == f);
                    }
                }
                if exists|j: int|
                    0 <= j < i && (#[trigger] comment_hits.deep_view()[j]).0 == f {
                    let j = choose|j: int|
                        0 <= j < i && (#[trigger] comment_hits.deep_view()[j]).0 == f;
                    if j < i - 1 {
                        assert(a0.contains(f));
                    }
                }
            }
        }
    }
    let ghost chs = acc.deep_view();
    proof {
        assert forall|f: Seq<char>| #[trigger] chs.contains(f) == (match comments.comment(f) {
            Some(c) => desc_matches(c, keyword@),
            None => false,
        }) by {
            if chs.contains(f) {
                let j = choose|j: int|
                    0 <= j < comment_hits.deep_view().len() && (
                    #[trigger] comment_hits.deep_view()[j]).0 == f;
                let c = comment_hits.deep_view()[j].1;
                assert(comment_hits.deep_view().contains((f, c)));
            }
            match comments.comment(f) {
                Some(c) => {
                    if desc_matches(c, keyword@) {
                        assert(comment_hits.deep_view().contains((f, c)));
                        let j = choose|j: int|
                            0 <= j < comment_hits.deep_view().len()
                                && comment_hits.deep_view()[j] == (f, c);
                        assert(comment_hits.deep_view()[j].0 == f);
                    }
                },
                None => {},
            }
        }
    }
    let mut k: usize = 0;
    while k < relation_hits.len()
        invariant
            0 <= k <= relation_hits.len(),
            relations.wf(),
            acc.deep_view().no_duplicates(),
            forall|s: Seq<char>, p: (Seq<char>, Seq<char>)|
                #[trigger] relation_hits.deep_view().contains((s, p)) == (rlookup(
                    relations.fwd(),
                    s,
                ).contains(p) && desc_matches(p.1, keyword@)),
            forall|f: Seq<char>|
                #[trigger] acc.deep_view().contains(f) == (chs.contains(f) || exists|j: int|
                    0 <= j < k && (#[trigger] relation_hits.deep_view()[j]).0 == f),
        decreases relation_hits.len() - k,
    {
        let ghost a0 = acc.deep_view();
        let ghost fp = relation_hits.deep_view()[k as int].0;
        proof {
            assert(relation_hits[k as int].0@ == fp);
        }
        let fc = chars_of(relation_hits[k].0.as_str());
        let added = strs_push_new(&mut acc, &fc);
        k = k + 1;
        proof {
            if added {
                crate::strset::lemma_contains_push(a0, fp);
            }
            assert forall|f: Seq<char>| #[trigger] acc.deep_view().contains(f) == (chs.contains(
                f,
            ) || exists|j: int|
                0 <= j < k && (#[trigger] relation_hits.deep_view()[j]).0 == f) by {
                if acc.deep_view().contains(f) && !a0.contains(f) {
                    assert(relation_hits.deep_view()[k - 1].0 == f);
                }
                if exists|j: int|
                    0 <= j < k && (#[trigger] relation_hits.deep_view()[j]).0 == f {
                    let j = choose|j: int|
                        0 <= j < k && (#[trigger] relation_hits.deep_view()[j]).0 == f;
                    if j < k - 1 {
                        assert(a0.contains(f));
                    }
                }
            }
        }
    }
    proof {
        assert forall|f: Seq<char>| #[trigger] acc.deep_view().contains(f) == search_hits(
            *comments,
            *relations,
            keyword@,
        ).contains(f) by {
            if exists|j: int|
                0 <= j < relation_hits.deep_view().len() && (
                #[trigger] relation_hits.deep_view()[j]).0 == f {
                let j = choose|j: int|
                    0 <= j < relation_hits.deep_view().len() && (
                    #[trigger] relation_hits.deep_view()[j]).0 == f;
                let p = relation_hits.deep_view()[j].1;
                assert(relation_hits.deep_view().contains((f, p)));
                assert(matching_sources(*relations, keyword@).contains(f));
            }
            if matching_sources(*relations, keyword@).contains(f) {
                let p = choose|p: (Seq<char>, Seq<char>)|
                    #[trigger] rlookup(relations.fwd(), f).contains(p) && desc_matches(
                        p.1,
                        keyword@,
                    );
                assert(relation_hits.deep_view().contains((f, p)));
                let j = choose|j: int|
                    0 <= j < relation_hits.deep_view().len() && relation_hits.deep_view()[j]
                        == (f, p);
                assert(relation_hits.deep_view()[j].0 == f);
            }
        }
        acc.deep_view().lemma_multiset_has_no_duplicates();
    }
    let sorted = sort_strs(acc);
    proof {
        let sv = sorted.deep_view();
        assert forall|f: Seq<char>| #[trigger] sv.contains(f) == search_hits(
            *comments,
            *relations,
            keyword@,
        ).contains(f) by {
            vstd::seq_lib::to_multiset_contains::<Seq<char>>(sv, f);
        }
        assert(sv.no_duplicates()) by {
            sv.lemma_multiset_has_no_duplicates_conv();
        }
    }
    let mut r: Vec<FileInfo> = Vec::new();
    let mut i2: usize = 0;
    while i2 < sorted.len()
        invariant
            0 <= i2 <= sorted.len(),
            tags.wf(),
            comments.wf(),
            relations.wf(),
            r.len() == i2,
            forall|j: int|
                0 <= j < i2 ==> (#[trigger] r[j]).path@ == sorted.deep_view()[j] && file_info_ok(
                    *tags,
                    *comments,
                    *relations,
                    sorted.deep_view()[j],
                    r[j],
                ),
        decreases sorted.len() - i2,
    {
        let path = crate::bridge::string_of(&sorted[i2]);
        proof {
            assert(sorted[i2 as int]@ == sorted.deep_view()[i2 as int]);
        }
        let info = get_file_info(tags, comments, relations, path.as_str());
        r.push(info);
        i2 = i2 + 1;
    }
    proof {
        let sv = sorted.deep_view();
        assert forall|f: Seq<char>|
            (exists|i3: int| 0 <= i3 < r.len() && (#[trigger] r[i3]).path@ == f) == search_hits(
            *comments,
            *relations,
            keyword@,
        ).contains(f) by {
            if exists|i3: int| 0 <= i3 < r.len() && (#[trigger] r[i3]).path@ == f {
                let i3 = choose|i3: int| 0 <= i3 < r.len() && (#[trigger] r[i3]).path@ == f;
                assert(sv[i3] == f);
                assert(sv.contains(f));
            }
            if sv.contains(f) {
                let i3 = choose|i3: int| 0 <= i3 < sv.len() && sv[i3] == f;
                assert(r[i3].path@ == f);
            }
        }
    }
    r
}

/// The files related to `f`: sharing at least one tag, or joined to it by an
/// edge in either direction. The file itself is not its own tag-mate.
pub open spec fn related_set(tm: TagManager, rm: RelationManager, f: Seq<char>) -> Set<Seq<char>> {
    Set::new(
        |g: Seq<char>|
            (g != f && exists|t: Seq<char>|
                #[trigger] tm.tags_of(f).contains(t) && crate::assoc::lookup(
                    tm.ttf(),
                    t,
                ).contains(g)) || crate::relmap::firsts_contain(rm.outgoing(f), g)
                || crate::relmap::firsts_contain(rm.incoming_of(f), g),
    )
}

/// Recommends files related to `file_path` by shared tags or edges, sorted,
/// at most `max_results` of them; when nothing was cut off, the answer is
/// exactly the related set.
pub fn get_related_files(
    tags: &TagManager,
    relations: &RelationManager,
    file_path: &str,
    max_results: usize,
) -> (r: Result<Vec<String>, CodeNexusError>)
    requires
        tags.wf(),
        relations.wf(),
    ensures
        r is Ok,
        match r {
            Ok(files) => {
                &&& files.deep_view().no_duplicates()
                &&& sorted_lex(files.deep_view())
                &&& files.len() <= max_results
                &&& forall|g: Seq<char>|
                    #[trigger] files.deep_view().contains(g) ==> related_set(
                        *tags,
                        *relations,
                        file_path@,
                    ).contains(g)
                &&& files.len() < max_results ==> forall|g: Seq<char>|
                    #[trigger] files.deep_view().contains(g) == related_set(
                        *tags,
                        *relations,
                        file_path@,
                    ).contains(g)
            },
            Err(_) => false,
        },
{
    broadcast use vstd::seq_lib::group_to_multiset_ensures;

    let fc = chars_of(file_path);
    let file_tags = crate::assoc::assoc_get_copy(&tags.file_tags, &fc);
    let ghost fts = file_tags.deep_view();
    let mut acc: Vec<Vec<char>> = Vec::new();
    let mut i: usize = 0;
    while i < file_tags.len()
        invariant
            0 <= i <= file_tags.len(),
            tags.wf(),
            fc@ == file_path@,
            fts == file_tags.deep_view(),
            fts == tags.tags_of(file_path@),
            acc.deep_view().no_duplicates(),
            forall|g: Seq<char>|
                #[trigger] acc.deep_view().contains(g) == (g != file_path@ && exists|j: int|
                    0 <= j < i && crate::assoc::lookup(
                        tags.ttf(),
                        #[trigger] fts[j],
                    ).contains(g)),
        decreases file_tags.len() - i,
    {
        let ghost tag = fts[i as int];
        proof {
            assert(file_tags[i as int]@ == tag);
        }
        let tag_files = crate::assoc::assoc_get_copy(&tags.tag_to_files, &file_tags[i]);
        let ghost tfs = tag_files.deep_view();
        let mut j: usize = 0;
        while j < tag_files.len()
            invariant
                0 <= j <= tag_files.len(),
                tags.wf(),
                fc@ == file_path@,
                fts == tags.tags_of(file_path@),
                0 <= i < fts.len(),
                tag == fts[i as int],
                tfs == tag_files.deep_view(),
                tfs == crate::assoc::lookup(tags.ttf(), tag),
                acc.deep_view().no_duplicates(),
                forall|g: Seq<char>|
                    #[trigger] acc.deep_view().contains(g) == (g != file_path@ && ((exists|a: int|
                        0 <= a < i && crate::assoc::lookup(
                            tags.ttf(),
                            #[trigger] fts[a],
                        ).contains(g)) || tfs.subrange(0, j as int).contains(g))),
            decreases tag_files.len() - j,
        {
            let ghost a0 = acc.deep_view();
            let ghost cand = tfs[j as int];
            proof {
                assert(tag_files[j as int]@ == cand);
            }
            let is_self = crate::text::seq_eq(&tag_files[j], &fc);
            if !is_self {
                let added = strs_push_new(&mut acc, &tag_files[j]);
                proof {
                    if added {
                        crate::strset::lemma_contains_push(a0, cand);
                    }
                }
            }
            j = j + 1;
            proof {
                let pre = tfs.subrange(0, j - 1);
                let cur = tfs.subrange(0, j as int);
                assert(cur =~= pre.push(cand));
                crate::strset::lemma_contains_push(pre, cand);
                assert(cur.contains(cand)) by {
                    assert(cur[j - 1] == cand);
                }
            }
        }
        i = i + 1;
        proof {
            assert(tfs.subrange(0, tfs.len() as int) =~= tfs);
            assert forall|g: Seq<char>| #[trigger] acc.deep_view().contains(g) == (g
                != file_path@ && exists|a: int|
                0 <= a < i && crate::assoc::lookup(tags.ttf(), #[trigger] fts[a]).contains(
                    g,
                )) by {
                if acc.deep_view().contains(g) {
                    assert(g != file_path@);
                    if exists|a: int|
                        0 <= a < i - 1 && crate::assoc::lookup(
                            tags.ttf(),
                            #[trigger] fts[a],
                        ).contains(g) {
                        let a = choose|a: int|
                            0 <= a < i - 1 && crate::assoc::lookup(
                                tags.ttf(),
                                #[trigger] fts[a],
                            ).contains(g);
                        assert(0 <= a < i && crate::assoc::lookup(tags.ttf(), fts[a]).contains(
                            g,
                        ));
                    } else {
                        assert(crate::assoc::lookup(tags.ttf(), fts[i - 1]).contains(g));
                    }
                }
                if g != file_path@ && exists|a: int|
                    0 <= a < i && crate::assoc::lookup(tags.ttf(), #[trigger] fts[a]).contains(
                        g,
                    ) {
                    let a = choose|a: int|
                        0 <= a < i && crate::assoc::lookup(
                            tags.ttf(),
                            #[trigger] fts[a],
                        ).contains(g);
                    if a < i - 1 {
                    } else {
                        assert(crate::assoc::lookup(tags.ttf(), tag).contains(g));
                    }
                }
            }
        }
    }
    proof {
        assert(fts.subrange(0, fts.len() as int) =~= fts);
    }
    let outgoing = crate::relmap::rlookup_copy(&relations.forward, &fc);
    let ghost og = outgoing.deep_view();
    let mut k: usize = 0;
    while k < outgoing.len()
        invariant
            0 <= k <= outgoing.len(),
            tags.wf(),
            fc@ == file_path@,
            fts == tags.tags_of(file_path@),
            og == outgoing.deep_view(),
            og == relations.outgoing(file_path@),
            acc.deep_view().no_duplicates(),
            forall|g: Seq<char>|
                #[trigger] acc.deep_view().contains(g) == ((g != file_path@ && exists|a: int|
                    0 <= a < fts.len() && crate::assoc::lookup(
                        tags.ttf(),
                        #[trigger] fts[a],
                    ).contains(g)) || exists|j: int| 0 <= j < k && (#[trigger] og[j]).0 == g),
        decreases outgoing.len() - k,
    {
        let ghost a0 = acc.deep_view();
        let ghost cand = og[k as int].0;
        proof {
            assert(outgoing[k as int].0@ == cand);
        }
        let added = strs_push_new(&mut acc, &outgoing[k].0);
        k = k + 1;
        proof {
            if added {
                crate::strset::lemma_contains_push(a0, cand);
            }
            assert forall|g: Seq<char>| #[trigger] acc.deep_view().contains(g) == ((g
                != file_path@ && exists|a: int|
                0 <= a < fts.len() && crate::assoc::lookup(
                    tags.ttf(),
                    #[trigger] fts[a],
                ).contains(g)) || exists|j: int| 0 <= j < k && (#[trigger] og[j]).0 == g) by {
                if acc.deep_view().contains(g) && !a0.contains(g) {
                    assert(og[k - 1].0 == g);
                }
                if exists|j: int| 0 <= j < k && (#[trigger] og[j]).0 == g {
                    let j = choose|j: int| 0 <= j < k && (#[trigger] og[j]).0 == g;
                    if j < k - 1 {
                        assert(a0.contains(g));
                    }
                }
            }
        }
    }
    let incoming = crate::relmap::rlookup_copy(&relations.incoming, &fc);
    let ghost ic = incoming.deep_view();
    let mut k2: usize = 0;
    while k2 < incoming.len()
        invariant
            0 <= k2 <= incoming.len(),
            tags.wf(),
            fc@ == file_path@,
            fts == tags.tags_of(file_path@),
            og == relations.outgoing(file_path@),
            ic == incoming.deep_view(),
            ic == relations.incoming_of(file_path@),
            acc.deep_view().no_duplicates(),
            forall|g: Seq<char>|
                #[trigger] acc.deep_view().contains(g) == ((g != file_path@ && exists|a: int|
                    0 <= a < fts.len() && crate::assoc::lookup(
                        tags.ttf(),
                        #[trigger] fts[a],
                    ).contains(g)) || crate::relmap::firsts_contain(og, g) || exists|j: int|
                    0 <= j < k2 && (#[trigger] ic[j]).0 == g),
        decreases incoming.len() - k2,
    {
        let ghost a0 = acc.deep_view();
        let ghost cand = ic[k2 as int].0;
        proof {
            assert(incoming[k2 as int].0@ == cand);
        }
        let added = strs_push_new(&mut acc, &incoming[k2].0);
        k2 = k2 + 1;
        proof {
            if added {
                crate::strset::lemma_contains_push(a0, cand);
            }
            assert forall|g: Seq<char>| #[trigger] acc.deep_view().contains(g) == ((g
                != file_path@ && exists|a: int|
                0 <= a < fts.len() && crate::assoc::lookup(
                    tags.ttf(),
                    #[trigger] fts[a],
                ).contains(g)) || crate::relmap::firsts_contain(og, g) || exists|j: int|
                0 <= j < k2 && (#[trigger] ic[j]).0 == g) by {
                if acc.deep_view().contains(g) && !a0.contains(g) {
                    assert(ic[k2 - 1].0 == g);
                }
                if exists|j: int| 0 <= j < k2 && (#[trigger] ic[j]).0 == g {
                    let j = choose|j: int| 0 <= j < k2 && (#[trigger] ic[j]).0 == g;
                    if j < k2 - 1 {
                        assert(a0.contains(g));
                    }
                }
            }
        }
    }
    proof {
        assert forall|g: Seq<char>| #[trigger] acc.deep_view().contains(g) == related_set(
            *tags,
            *relations,
            file_path@,
        ).contains(g) by {
            if exists|a: int|
                0 <= a < fts.len() && crate::assoc::lookup(
                    tags.ttf(),
                    #[trigger] fts[a],
                ).contains(g) {
                let a = choose|a: int|
                    0 <= a < fts.len() && crate::assoc::lookup(
                        tags.ttf(),
                        #[trigger] fts[a],
                    ).contains(g);
                assert(tags.tags_of(file_path@).contains(fts[a]));
            }
            if exists|t: Seq<char>|
                #[trigger] tags.tags_of(file_path@).contains(t) && crate::assoc::lookup(
                    tags.ttf(),
                    t,
                ).contains(g) {
                let t = choose|t: Seq<char>|
                    #[trigger] tags.tags_of(file_path@).contains(t) && crate::assoc::lookup(
                        tags.ttf(),
                        t,
                    ).contains(g);
                let a = choose|a: int| 0 <= a < fts.len() && fts[a] == t;
                assert(crate::assoc::lookup(tags.ttf(), fts[a]).contains(g));
            }
            if crate::relmap::firsts_contain(og, g) {
                let j = choose|j: int| 0 <= j < og.len() && og[j].0 == g;
            }
            if crate::relmap::firsts_contain(ic, g) {
                let j = choose|j: int| 0 <= j < ic.len() && ic[j].0 == g;
            }
        }
        acc.deep_view().lemma_multiset_has_no_duplicates();
    }
    let mut sorted = sort_strs(acc);
    proof {
        let sv = sorted.deep_view();
        assert forall|g: Seq<char>| #[trigger] sv.contains(g) == related_set(
            *tags,
            *relations,
            file_path@,
        ).contains(g) by {
            vstd::seq_lib::to_multiset_contains::<Seq<char>>(sv, g);
        }
        assert(sv.no_duplicates()) by {
            sv.lemma_multiset_has_no_duplicates_conv();
        }
    }
    let ghost full = sorted.deep_view();
    if sorted.len() > max_results {
        sorted.truncate(max_results);
        proof {
            let sv = sorted.deep_view();
            assert(sv =~~= full.subrange(0, max_results as int));
            assert(sv.no_duplicates()) by {
                assert forall|p: int, q: int| 0 <= p < q < sv.len() implies sv[p] != sv[q] by {
                    assert(sv[p] == full[p] && sv[q] == full[q]);
                }
            }
            assert(sorted_lex(sv)) by {
                assert forall|p: int, q: int|
                    0 <= p < q < sv.len() implies lex_le(sv[p], sv[q]) by {
                    assert(sv[p] == full[p] && sv[q] == full[q]);
                }
            }
            assert forall|g: Seq<char>| #[trigger] sv.contains(g) implies related_set(
                *tags,
                *relations,
                file_path@,
            ).contains(g) by {
                let p = choose|p: int| 0 <= p < sv.len() && sv[p] == g;
                assert(full[p] == g);
                assert(full.contains(g));
            }
        }
    } else {
        proof {
            assert(sorted.deep_view() == full);
        }
    }
    Ok(crate::bridge::strings_of(&sorted))
}

/// `s` is a sensible suggestion for the partial query: a tag in use whose
/// type starts with the partial text, or which contains it anywhere.
pub open spec fn suggestion_ok(tm: TagManager, partial: Seq<char>, s: Seq<char>) -> bool {
    exists|ty: Seq<char>, v: Seq<char>|
        #![trigger crate::assoc::lookup(tm.ti(), ty).contains(v)]
        crate::assoc::lookup(tm.ti(), ty).contains(v) && s == crate::tags::join_tag(ty, v) && (
        crate::text::starts_with_spec(ty, partial) || crate::text::contains_seq(
            crate::tags::join_tag(ty, v),
            partial,
        ))
}

/// Builds the `type:value` text of a tag.
fn join_tag_chars(ty: &Vec<char>, v: &Vec<char>) -> (r: Vec<char>)
    ensures
        r@ == crate::tags::join_tag(ty@, v@),
{
    let mut r = crate::text::copy_chars(ty);
    r.push(':');
    let mut i: usize = 0;
    while i < v.len()
        invariant
            0 <= i <= v.len(),
            r@ == ty@ + seq![':'] + v@.subrange(0, i as int),
        decreases v.len() - i,
    {
        r.push(v[i]);
        i = i + 1;
        proof {
            assert(r@ =~= ty@ + seq![':'] + v@.subrange(0, i as int));
        }
    }
    proof {
        assert(r@ =~= crate::tags::join_tag(ty@, v@));
    }
    r
}

/// Suggests up to ten full tags for a partial query, sorted: the values of
/// every type the text prefixes, and any tag containing the text. An empty
/// partial query suggests nothing.
pub fn get_query_suggestions(tags: &TagManager, partial_query: &str) -> (r: Result<
    Vec<String>,
    CodeNexusError,
>)
    requires
        tags.wf(),
    ensures
        r is Ok,
        match r {
            Ok(sug) => {
                &&& sug.deep_view().no_duplicates()
                &&& sorted_lex(sug.deep_view())
                &&& sug.len() <= 10
                &&& partial_query@.len() == 0 ==> sug.len() == 0
                &&& forall|s: Seq<char>|
                    #[trigger] sug.deep_view().contains(s) ==> suggestion_ok(
                        *tags,
                        partial_query@,
                        s,
                    )
                &&& (partial_query@.len() > 0 && sug.len() < 10) ==> forall|s: Seq<char>|
                    #[trigger] sug.deep_view().contains(s) == suggestion_ok(
                        *tags,
                        partial_query@,
                        s,
                    )
            },
            Err(_) => false,
        },
{
    broadcast use vstd::seq_lib::group_to_multiset_ensures;

    let pc = chars_of(partial_query);
    if pc.len() == 0 {
        let empty: Vec<String> = Vec::new();
        return Ok(empty);
    }
    let ghost ti = tags.ti();
    let mut acc: Vec<Vec<char>> = Vec::new();
    let mut i: usize = 0;
    while i < tags.tag_index.len()
        invariant
            0 <= i <= tags.tag_index.len(),
            tags.wf(),
            pc@ == partial_query@,
            pc@.len() > 0,
            ti == tags.ti(),
            acc.deep_view().no_duplicates(),
            forall|s: Seq<char>|
                #[trigger] acc.deep_view().contains(s) == (exists|a: int, b: int|
                    0 <= a < i && 0 <= b < ti[a].1.len() && s == crate::tags::join_tag(
                        ti[a].0,
                        #[trigger] ti[a].1[b],
                    ) && (crate::text::starts_with_spec(ti[a].0, pc@)
                        || crate::text::contains_seq(s, pc@))),
        decreases tags.tag_index.len() - i,
    {
        let ghost ty = ti[i as int].0;
        proof {
            assert(tags.tag_index[i as int].0@ == ty);
            assert(tags.tag_index[i as int].1.deep_view() == ti[i as int].1);
        }
        let type_hit = crate::text::starts_with(&tags.tag_index[i].0, &pc);
        let mut j: usize = 0;
        while j < tags.tag_index[i].1.len()
            invariant
                0 <= j <= tags.tag_index[i as int].1.len(),
                0 <= i < tags.tag_index.len(),
                tags.wf(),
                pc@ == partial_query@,
                pc@.len() > 0,
                ti == tags.ti(),
                ty == ti[i as int].0,
                tags.tag_index[i as int].1.deep_view() == ti[i as int].1,
                type_hit == crate::text::starts_with_spec(ty, pc@),
                acc.deep_view().no_duplicates(),
                forall|s: Seq<char>|
                    #[trigger] acc.deep_view().contains(s) == ((exists|a: int, b: int|
                        0 <= a < i && 0 <= b < ti[a].1.len() && s == crate::tags::join_tag(
                            ti[a].0,
                            #[trigger] ti[a].1[b],
                        ) && (crate::text::starts_with_spec(ti[a].0, pc@)
                            || crate::text::contains_seq(s, pc@))) || (exists|b: int|
                        0 <= b < j && s == crate::tags::join_tag(
                            ty,
                            #[trigger] ti[i as int].1[b],
                        ) && (type_hit || crate::text::contains_seq(s, pc@)))),
            decreases tags.tag_index[i as int].1.len() - j,
        {
            let ghost v = ti[i as int].1[j as int];
            proof {
                assert(tags.tag_index[i as int].1[j as int]@ == v);
            }
            let full = join_tag_chars(&tags.tag_index[i].0, &tags.tag_index[i].1[j]);
            let keep = if type_hit {
                true
            } else {
                crate::text::contains_sub(&full, &pc)
            };
            let ghost a0 = acc.deep_view();
            if keep {
                let added = strs_push_new(&mut acc, &full);
                proof {
                    if added {
                        crate::strset::lemma_contains_push(a0, full@);
                    }
                }
            }
            j = j + 1;
            proof {
                assert forall|s: Seq<char>| #[trigger] acc.deep_view().contains(s)
                    == ((exists|a: int, b: int|
                    0 <= a < i && 0 <= b < ti[a].1.len() && s == crate::tags::join_tag(
                        ti[a].0,
                        #[trigger] ti[a].1[b],
                    ) && (crate::text::starts_with_spec(ti[a].0, pc@)
                        || crate::text::contains_seq(s, pc@))) || (exists|b: int|
                    0 <= b < j && s == crate::tags::join_tag(ty, #[trigger] ti[i as int].1[b])
                        && (type_hit || crate::text::contains_seq(s, pc@)))) by {
                    if acc.deep_view().contains(s) && !a0.contains(s) {
                        assert(s == crate::tags::join_tag(ty, ti[i as int].1[j - 1]));
                    }
                    if exists|b: int|
                        0 <= b < j && s == crate::tags::join_tag(
                            ty,
                            #[trigger] ti[i as int].1[b],
                        ) && (type_hit || crate::text::contains_seq(s, pc@)) {
                        let b = choose|b: int|
                            0 <= b < j && s == crate::tags::join_tag(
                                ty,
                                #[trigger] ti[i as int].1[b],
                            ) && (type_hit || crate::text::contains_seq(s, pc@));
                        if b < j - 1 {
                            assert(a0.contains(s));
                        } else {
                            assert(s == full@);
                            assert(keep);
                            assert(acc.deep_view().contains(full@));
                        }
                    }
                }
            }
        }
        i = i + 1;
        proof {
            assert forall|s: Seq<char>| #[trigger] acc.deep_view().contains(s)
                == (exists|a: int, b: int|
                0 <= a < i && 0 <= b < ti[a].1.len() && s == crate::tags::join_tag(
                    ti[a].0,
                    #[trigger] ti[a].1[b],
                ) && (crate::text::starts_with_spec(ti[a].0, pc@) || crate::text::contains_seq(
                    s,
                    pc@,
                ))) by {
                if acc.deep_view().contains(s) {
                    if exists|a: int, b: int|
                        0 <= a < i - 1 && 0 <= b < ti[a].1.len() && s == crate::tags::join_tag(
                            ti[a].0,
                            #[trigger] ti[a].1[b],
                        ) && (crate::text::starts_with_spec(ti[a].0, pc@)
                            || crate::text::contains_seq(s, pc@)) {
                        let (a, b) = choose|a: int, b: int|
                            0 <= a < i - 1 && 0 <= b < ti[a].1.len() && s
                                == crate::tags::join_tag(ti[a].0, #[trigger] ti[a].1[b]) && (
                            crate::text::starts_with_spec(ti[a].0, pc@)
                                || crate::text::contains_seq(s, pc@));
                        assert(0 <= a < i && 0 <= b < ti[a].1.len() && s
                            == crate::tags::join_tag(ti[a].0, ti[a].1[b]));
                    } else {
                        let b = choose|b: int|
                            0 <= b < ti[i - 1].1.len() && s == crate::tags::join_tag(
                                ti[i - 1].0,
                                #[trigger] ti[i - 1].1[b],
                            ) && (crate::text::starts_with_spec(ti[i - 1].0, pc@)
                                || crate::text::contains_seq(s, pc@));
                        assert(0 <= i - 1 < i && 0 <= b < ti[i - 1].1.len());
                    }
                }
                if exists|a: int, b: int|
                    0 <= a < i && 0 <= b < ti[a].1.len() && s == crate::tags::join_tag(
                        ti[a].0,
                        #[trigger] ti[a].1[b],
                    ) && (crate::text::starts_with_spec(ti[a].0, pc@)
                        || crate::text::contains_seq(s, pc@)) {
                    let (a, b) = choose|a: int, b: int|
                        0 <= a < i && 0 <= b < ti[a].1.len() && s == crate::tags::join_tag(
                            ti[a].0,
                            #[trigger] ti[a].1[b],
                        ) && (crate::text::starts_with_spec(ti[a].0, pc@)
                            || crate::text::contains_seq(s, pc@));
                }
            }
        }
    }
    proof {
        assert forall|s: Seq<char>| #[trigger] acc.deep_view().contains(s) == suggestion_ok(
            *tags,
            partial_query@,
            s,
        ) by {
            if acc.deep_view().contains(s) {
                let (a, b) = choose|a: int, b: int|
                    0 <= a < ti.len() && 0 <= b < ti[a].1.len() && s == crate::tags::join_tag(
                        ti[a].0,
                        #[trigger] ti[a].1[b],
                    ) && (crate::text::starts_with_spec(ti[a].0, pc@)
                        || crate::text::contains_seq(s, pc@));
                crate::assoc::lemma_lookup_entry(ti, a);
                assert(crate::assoc::lookup(ti, ti[a].0).contains(ti[a].1[b]));
            }
            if suggestion_ok(*tags, partial_query@, s) {
                let (ty, v) = choose|ty: Seq<char>, v: Seq<char>|
                    #![trigger crate::assoc::lookup(tags.ti(), ty).contains(v)]
                    crate::assoc::lookup(tags.ti(), ty).contains(v) && s
                        == crate::tags::join_tag(ty, v) && (crate::text::starts_with_spec(
                        ty,
                        pc@,
                    ) || crate::text::contains_seq(crate::tags::join_tag(ty, v), pc@));
                assert(crate::assoc::has_key(ti, ty)) by {
                    if !crate::assoc::has_key(ti, ty) {
                        assert(crate::assoc::lookup(ti, ty).len() == 0);
                    }
                }
                let a = crate::assoc::idx_of(ti, ty);
                crate::assoc::lemma_lookup_entry(ti, a);
                let b = choose|b: int| 0 <= b < ti[a].1.len() && ti[a].1[b] == v;
                assert(0 <= a < ti.len() && s == crate::tags::join_tag(ti[a].0, ti[a].1[b]));
            }
        }
        acc.deep_view().lemma_multiset_has_no_duplicates();
    }
    let mut sorted = sort_strs(acc);
    proof {
        let sv = sorted.deep_view();
        assert forall|s: Seq<char>| #[trigger] sv.contains(s) == suggestion_ok(
            *tags,
            partial_query@,
            s,
        ) by {
            vstd::seq_lib::to_multiset_contains::<Seq<char>>(sv, s);
        }
        assert(sv.no_duplicates()) by {
            sv.lemma_multiset_has_no_duplicates_conv();
        }
    }
    let ghost full = sorted.deep_view();
    if sorted.len() > 10 {
        sorted.truncate(10);
        proof {
            let sv = sorted.deep_view();
            assert(sv =~~= full.subrange(0, 10));
            assert(sv.no_duplicates()) by {
                assert forall|p: int, q: int| 0 <= p < q < sv.len() implies sv[p] != sv[q] by {
                    assert(sv[p] == full[p] && sv[q] == full[q]);
                }
            }
            assert(sorted_lex(sv)) by {
                assert forall|p: int, q: int|
                    0 <= p < q < sv.len() implies lex_le(sv[p], sv[q]) by {
                    assert(sv[p] == full[p] && sv[q] == full[q]);
                }
            }
            assert forall|s: Seq<char>| #[trigger] sv.contains(s) implies suggestion_ok(
                *tags,
                partial_query@,
                s,
            ) by {
                let p = choose|p: int| 0 <= p < sv.len() && sv[p] == s;
                assert(full[p] == s);
                assert(full.contains(s));
            }
        }
    } else {
        proof {
            assert(sorted.deep_view() == full);
        }
    }
    Ok(crate::bridge::strings_of(&sorted))
}

} // verus!
