//! The tag index: each file carries a set of `type:value` tags, and two
//! derived indices are kept consistent with it on every mutation — tag type →
//! values in use, and full tag → files carrying it.

use vstd::prelude::*;
use crate::assoc::{
    assoc_add_value, assoc_find, assoc_get_copy, assoc_remove_value, has_key, lookup, map_wf,
    strs_copy, StrMap, StrMapSeq,
};
use crate::bridge::{chars_of, string_of, strings_of};
use crate::error::CodeNexusError;
use crate::lex::{sort_strs, sorted_lex};
use crate::strset::lemma_contains_push;
use crate::text::subvec;

verus! {

/// `t` splits as a tag exactly at `i`: the only colon, with text on both
/// sides.
pub open spec fn valid_tag_at(t: Seq<char>, i: int) -> bool {
    &&& 1 <= i
    &&& i + 2 <= t.len()
    &&& t[i] == ':'
    &&& forall|j: int| 0 <= j < t.len() && j != i ==> t[j] != ':'
}

/// A well-formed tag: exactly one `:`, with both sides non-empty.
pub open spec fn valid_tag(t: Seq<char>) -> bool {
    exists|i: int| valid_tag_at(t, i)
}

/// The position of the unique colon of a valid tag.
pub open spec fn colon_idx(t: Seq<char>) -> int {
    choose|i: int| valid_tag_at(t, i)
}

/// The `type` half of a tag.
pub open spec fn tag_type_of(t: Seq<char>) -> Seq<char> {
    t.subrange(0, colon_idx(t))
}

/// The `value` half of a tag.
pub open spec fn tag_value_of(t: Seq<char>) -> Seq<char> {
    t.subrange(colon_idx(t) + 1, t.len() as int)
}

/// A tag built from its halves.
pub open spec fn join_tag(ty: Seq<char>, v: Seq<char>) -> Seq<char> {
    ty + seq![':'] + v
}

/// A valid tag's colon position is unique, and the tag is its halves joined.
pub proof fn lemma_tag_split(t: Seq<char>)
    requires
        valid_tag(t),
    ensures
        valid_tag_at(t, colon_idx(t)),
        join_tag(tag_type_of(t), tag_value_of(t)) == t,
        tag_type_of(t).len() >= 1,
        tag_value_of(t).len() >= 1,
        forall|j: int| 0 <= j < tag_type_of(t).len() ==> tag_type_of(t)[j] != ':',
        forall|j: int| 0 <= j < tag_value_of(t).len() ==> tag_value_of(t)[j] != ':',
{
    let i = colon_idx(t);
    assert(valid_tag_at(t, i));
    assert(join_tag(tag_type_of(t), tag_value_of(t)) =~= t);
    assert forall|j: int| 0 <= j < tag_type_of(t).len() implies tag_type_of(t)[j] != ':' by {
        assert(tag_type_of(t)[j] == t[j]);
    }
    assert forall|j: int| 0 <= j < tag_value_of(t).len() implies tag_value_of(t)[j] != ':' by {
        assert(tag_value_of(t)[j] == t[i + 1 + j]);
    }
}

/// Joining colon-free non-empty halves gives a valid tag that splits back.
pub proof fn lemma_tag_join(ty: Seq<char>, v: Seq<char>)
    requires
        ty.len() >= 1,
        v.len() >= 1,
        forall|j: int| 0 <= j < ty.len() ==> ty[j] != ':',
        forall|j: int| 0 <= j < v.len() ==> v[j] != ':',
    ensures
        valid_tag(join_tag(ty, v)),
        tag_type_of(join_tag(ty, v)) == ty,
        tag_value_of(join_tag(ty, v)) == v,
{
    let t = join_tag(ty, v);
    assert(t.len() == ty.len() + 1 + v.len());
    assert(t[ty.len() as int] == ':');
    assert forall|j: int| 0 <= j < t.len() && j != ty.len() implies t[j] != ':' by {
        if j < ty.len() {
            assert(t[j] == ty[j]);
        } else {
            assert(t[j] == v[j - ty.len() - 1]);
        }
    }
    assert(valid_tag_at(t, ty.len() as int));
    let i = colon_idx(t);
    assert(valid_tag_at(t, i));
    if i != ty.len() {
        assert(t[i] == ':');
        assert(false);
    }
    assert(tag_type_of(t) =~= ty);
    assert(tag_value_of(t) =~= v);
}

/// Two pairs of halves joining to the same valid tag are the same pair.
pub proof fn lemma_join_tag_injective(ty1: Seq<char>, v1: Seq<char>, ty2: Seq<char>, v2: Seq<char>)
    requires
        join_tag(ty1, v1) == join_tag(ty2, v2),
        valid_tag(join_tag(ty1, v1)),
    ensures
        ty1 == ty2,
        v1 == v2,
{
    let t = join_tag(ty1, v1);
    let i = colon_idx(t);
    assert(valid_tag_at(t, i));
    assert(t[ty1.len() as int] == ':') by {
        assert(t =~= ty1 + seq![':'] + v1);
    }
    assert(t[ty2.len() as int] == ':') by {
        assert(t == join_tag(ty2, v2));
        assert(join_tag(ty2, v2) =~= ty2 + seq![':'] + v2);
    }
    assert(ty1.len() == i && ty2.len() == i);
    assert(ty1 =~= ty2) by {
        assert forall|j: int| 0 <= j < ty1.len() implies ty1[j] == ty2[j] by {
            assert(t[j] == ty1[j]);
            assert(t[j] == ty2[j]);
        }
    }
    assert(t.len() == ty1.len() + 1 + v1.len());
    assert(t.len() == ty2.len() + 1 + v2.len());
    assert(v1 =~= v2) by {
        assert forall|j: int| 0 <= j < v1.len() implies v1[j] == v2[j] by {
            assert(t[i + 1 + j] == v1[j]);
            assert(t[i + 1 + j] == v2[j]);
        }
    }
}

/// Decides whether `t` is a well-formed `type:value` tag.
pub fn is_valid_tag(t: &Vec<char>) -> (r: bool)
    ensures
        r == valid_tag(t@),
{
    let mut i: usize = 0;
    let mut first: usize = 0;
    let mut count: usize = 0;
    while i < t.len()
        invariant
            0 <= i <= t.len(),
            count <= i,
            count == 0 ==> forall|j: int| 0 <= j < i ==> t@[j] != ':',
            count > 0 ==> first < i && t@[first as int] == ':' && (forall|j: int|
                0 <= j < first ==> t@[j] != ':'),
            count == 1 ==> forall|j: int| 0 <= j < i && j != first ==> t@[j] != ':',
            count >= 2 ==> exists|a: int, b: int|
                0 <= a < b < i && t@[a] == ':' && t@[b] == ':',
        decreases t.len() - i,
    {
        if t[i] == ':' {
            if count == 0 {
                first = i;
            } else {
                proof {
                    if count == 1 {
                        assert(0 <= first < i && t@[first as int] == ':' && t@[i as int] == ':');
                    }
                }
            }
            count = count + 1;
        }
        i = i + 1;
    }
    let r = count == 1 && first >= 1 && t.len() - first >= 2;
    proof {
        if r {
            assert(valid_tag_at(t@, first as int));
        } else {
            if valid_tag(t@) {
                let k = colon_idx(t@);
                assert(valid_tag_at(t@, k));
                assert(count > 0);
                assert(first == k) by {
                    if first != k {
                        assert(t@[first as int] == ':');
                    }
                }
                assert(count == 1) by {
                    if count >= 2 {
                        let (a, b) = choose|a: int, b: int|
                            0 <= a < b < t@.len() && t@[a] == ':' && t@[b] == ':';
                        assert(a != k || b != k);
                        assert(false);
                    }
                }
                assert(false);
            }
        }
    }
    r
}

/// Splits a valid tag into its `type` and `value` halves.
fn split_tag(t: &Vec<char>) -> (r: (Vec<char>, Vec<char>))
    requires
        valid_tag(t@),
    ensures
        r.0@ == tag_type_of(t@),
        r.1@ == tag_value_of(t@),
{
    proof {
        lemma_tag_split(t@);
    }
    let ghost k = colon_idx(t@);
    let mut i: usize = 0;
    while t[i] != ':'
        invariant
            valid_tag_at(t@, k),
            k + 2 <= t.len(),
            0 <= i <= k,
            forall|j: int| 0 <= j < i ==> t@[j] != ':',
        decreases k - i,
    {
        i = i + 1;
        proof {
            if i > k {
                assert(t@[k] == ':');
            }
        }
    }
    proof {
        if i != k {
            assert(t@[i as int] == ':');
        }
    }
    let ty = subvec(t, 0, i);
    let v = subvec(t, i + 1, t.len());
    (ty, v)
}

/// One snapshot of the tag dataset: file path → its tag strings.
pub struct TagsData {
    pub file_tags: Vec<(String, Vec<String>)>,
}

/// The tag index with its two derived reverse indices, kept consistent on
/// every mutation.
pub struct TagManager {
    pub file_tags: StrMap,
    pub tag_index: StrMap,
    pub tag_to_files: StrMap,
}

impl TagManager {
    /// The file → tags index.
    pub open spec fn ft(self) -> StrMapSeq {
        self.file_tags.deep_view()
    }

    /// The tag type → values index.
    pub open spec fn ti(self) -> StrMapSeq {
        self.tag_index.deep_view()
    }

    /// The tag → files index.
    pub open spec fn ttf(self) -> StrMapSeq {
        self.tag_to_files.deep_view()
    }

    /// The tags of a file, in insertion order; empty for an unknown file.
    pub open spec fn tags_of(self, f: Seq<char>) -> Seq<Seq<char>> {
        lookup(self.ft(), f)
    }

    /// The files carrying a tag; empty for an unknown tag.
    pub open spec fn files_with(self, t: Seq<char>) -> Seq<Seq<char>> {
        lookup(self.ttf(), t)
    }

    /// The file carries the tag.
    pub open spec fn has_tag(self, f: Seq<char>, t: Seq<char>) -> bool {
        self.tags_of(f).contains(t)
    }

    /// The file has an index entry, i.e. carries at least one tag.
    pub open spec fn tracks(self, f: Seq<char>) -> bool {
        has_key(self.ft(), f)
    }

    /// Index consistency: unique keys, non-empty duplicate-free entries,
    /// every stored tag well-formed, and the two derived indices agreeing
    /// exactly with the forward index.
    pub open spec fn wf(self) -> bool {
        &&& map_wf(self.ft())
        &&& map_wf(self.ti())
        &&& map_wf(self.ttf())
        &&& (forall|f: Seq<char>, t: Seq<char>|
            #[trigger] lookup(self.ft(), f).contains(t) ==> valid_tag(t))
        &&& (forall|f: Seq<char>, t: Seq<char>|
            #![trigger lookup(self.ft(), f).contains(t)]
            #![trigger lookup(self.ttf(), t).contains(f)]
            lookup(self.ft(), f).contains(t) == lookup(self.ttf(), t).contains(f))
        &&& (forall|ty: Seq<char>, v: Seq<char>|
            #![trigger lookup(self.ti(), ty).contains(v)]
            #![trigger has_key(self.ttf(), join_tag(ty, v))]
            lookup(self.ti(), ty).contains(v) == has_key(self.ttf(), join_tag(ty, v)))
    }

    /// Creates an empty tag index.
    pub fn new() -> (r: TagManager)
        ensures
            r.wf(),
            r.ft().len() == 0,
            r.ti().len() == 0,
            r.ttf().len() == 0,
    {
        let r = TagManager { file_tags: Vec::new(), tag_index: Vec::new(), tag_to_files: Vec::new() };
        proof {
            assert forall|f: Seq<char>| !has_key(r.ft(), f) by {}
            assert forall|f: Seq<char>, t: Seq<char>|
                !(#[trigger] lookup(r.ft(), f).contains(t)) by {}
            assert forall|t: Seq<char>, f: Seq<char>|
                !(#[trigger] lookup(r.ttf(), t).contains(f)) by {}
            assert forall|ty: Seq<char>, v: Seq<char>|
                !(#[trigger] lookup(r.ti(), ty).contains(v)) by {}
            assert forall|ty: Seq<char>, v: Seq<char>|
                !(#[trigger] has_key(r.ttf(), join_tag(ty, v))) by {}
        }
        r
    }

    /// Inserts one tag for one file, updating both derived indices.
    fn insert_tag(&mut self, file: &Vec<char>, tag: &Vec<char>) -> (added: bool)
        requires
            old(self).wf(),
            valid_tag(tag@),
        ensures
            final(self).wf(),
            added == !old(self).has_tag(file@, tag@),
            final(self).tags_of(file@) == if added {
                old(self).tags_of(file@).push(tag@)
            } else {
                old(self).tags_of(file@)
            },
            forall|f2: Seq<char>|
                f2 != file@ ==> #[trigger] final(self).tags_of(f2) == old(self).tags_of(f2),
            forall|f2: Seq<char>|
                #[trigger] final(self).tracks(f2) == (old(self).tracks(f2) || f2 == file@),
            final(self).files_with(tag@) == if added {
                old(self).files_with(tag@).push(file@)
            } else {
                old(self).files_with(tag@)
            },
            forall|t2: Seq<char>|
                t2 != tag@ ==> #[trigger] final(self).files_with(t2) == old(self).files_with(t2),
            forall|t2: Seq<char>|
                #[trigger] has_key(final(self).ttf(), t2) == (has_key(old(self).ttf(), t2) || (
                added && t2 == tag@)),
    {
        let ghost ft0 = self.ft();
        let ghost ti0 = self.ti();
        let ghost ttf0 = self.ttf();
        let added = assoc_add_value(&mut self.file_tags, file, tag);
        if added {
            proof {
                assert(!lookup(ttf0, tag@).contains(file@)) by {
                    assert(lookup(ft0, file@).contains(tag@) == lookup(ttf0, tag@).contains(
                        file@,
                    ));
                }
            }
            let added2 = assoc_add_value(&mut self.tag_to_files, tag, file);
            proof {
                assert(added2);
            }
            let halves = split_tag(tag);
            let ty = halves.0;
            let v = halves.1;
            proof {
                lemma_tag_split(tag@);
            }
            let ghost ti_pre = self.ti();
            let added3 = assoc_add_value(&mut self.tag_index, &ty, &v);
            proof {
                let s1 = *self;
                let tys = tag_type_of(tag@);
                let vs = tag_value_of(tag@);
                assert(join_tag(tys, vs) == tag@);
                lemma_contains_push(lookup(ft0, file@), tag@);
                lemma_contains_push(lookup(ttf0, tag@), file@);
                if added3 {
                    lemma_contains_push(lookup(ti0, tys), vs);
                }
                // every stored tag is still well-formed
                assert forall|f2: Seq<char>, t2: Seq<char>|
                    #[trigger] lookup(s1.ft(), f2).contains(t2) implies valid_tag(t2) by {
                    if f2 == file@ {
                        assert(lookup(s1.ft(), f2) == lookup(ft0, f2).push(tag@));
                        if t2 != tag@ {
                            assert(lookup(ft0, f2).contains(t2));
                        }
                    } else {
                        assert(lookup(s1.ft(), f2) == lookup(ft0, f2));
                    }
                }
                // forward and tag → files indices still agree
                assert forall|f2: Seq<char>, t2: Seq<char>|
                    #![trigger lookup(s1.ft(), f2).contains(t2)]
                    #![trigger lookup(s1.ttf(), t2).contains(f2)]
                    lookup(s1.ft(), f2).contains(t2) == lookup(s1.ttf(), t2).contains(f2) by {
                    assert(lookup(ft0, f2).contains(t2) == lookup(ttf0, t2).contains(f2));
                    if f2 == file@ {
                        assert(lookup(s1.ft(), f2) == lookup(ft0, f2).push(tag@));
                    } else {
                        assert(lookup(s1.ft(), f2) == lookup(ft0, f2));
                    }
                    if t2 == tag@ {
                        assert(lookup(s1.ttf(), t2) == lookup(ttf0, t2).push(file@));
                    } else {
                        assert(lookup(s1.ttf(), t2) == lookup(ttf0, t2));
                    }
                }
                // type → values index still mirrors the tags in use
                assert forall|ty2: Seq<char>, v2: Seq<char>|
                    #![trigger lookup(s1.ti(), ty2).contains(v2)]
                    #![trigger has_key(s1.ttf(), join_tag(ty2, v2))]
                    lookup(s1.ti(), ty2).contains(v2) == has_key(
                    s1.ttf(),
                    join_tag(ty2, v2),
                ) by {
                    assert(lookup(ti0, ty2).contains(v2) == has_key(ttf0, join_tag(ty2, v2)));
                    assert(has_key(s1.ttf(), join_tag(ty2, v2)) == (has_key(
                        ttf0,
                        join_tag(ty2, v2),
                    ) || join_tag(ty2, v2) == tag@));
                    if join_tag(ty2, v2) == tag@ {
                        lemma_join_tag_injective(ty2, v2, tys, vs);
                        assert(ty2 == tys && v2 == vs);
                        if added3 {
                            assert(lookup(s1.ti(), tys) == lookup(ti0, tys).push(vs));
                        } else {
                            assert(lookup(s1.ti(), tys).contains(vs));
                        }
                    } else {
                        if ty2 == tys {
                            assert(v2 != vs) by {
                                if v2 == vs {
                                    assert(join_tag(ty2, v2) == tag@);
                                }
                            }
                            if added3 {
                                assert(lookup(s1.ti(), ty2) == lookup(ti0, ty2).push(vs));
                            } else {
                                assert(lookup(s1.ti(), ty2) == lookup(ti0, ty2));
                            }
                        } else {
                            assert(lookup(s1.ti(), ty2) == lookup(ti0, ty2));
                        }
                    }
                }
            }
        }
        added
    }
}

impl TagManager {
    /// Removes one tag from one file, pruning both derived indices.
    fn remove_tag(&mut self, file: &Vec<char>, tag: &Vec<char>) -> (removed: bool)
        requires
            old(self).wf(),
        ensures
            final(self).wf(),
            removed == old(self).has_tag(file@, tag@),
            forall|y: Seq<char>|
                #[trigger] final(self).tags_of(file@).contains(y) == (old(self).tags_of(
                    file@,
                ).contains(y) && y != tag@),
            forall|f2: Seq<char>|
                f2 != file@ ==> #[trigger] final(self).tags_of(f2) == old(self).tags_of(f2),
            forall|f2: Seq<char>|
                #[trigger] final(self).tracks(f2) == (old(self).tracks(f2)
                    && final(self).tags_of(f2).len() > 0),
            forall|y: Seq<char>|
                #[trigger] final(self).files_with(tag@).contains(y) == (old(self).files_with(
                    tag@,
                ).contains(y) && y != file@),
            forall|t2: Seq<char>|
                t2 != tag@ ==> #[trigger] final(self).files_with(t2) == old(self).files_with(t2),
            forall|t2: Seq<char>|
                #[trigger] has_key(final(self).ttf(), t2) == (has_key(old(self).ttf(), t2)
                    && final(self).files_with(t2).len() > 0),
    {
        let ghost ft0 = self.ft();
        let ghost ti0 = self.ti();
        let ghost ttf0 = self.ttf();
        let removed = assoc_remove_value(&mut self.file_tags, file, tag);
        if !removed {
            proof {
                assert forall|f2: Seq<char>| #[trigger] final(self).tracks(f2) == (old(
                    self,
                ).tracks(f2) && final(self).tags_of(f2).len() > 0) by {
                    if has_key(ft0, f2) {
                        let j = choose|j: int| 0 <= j < ft0.len() && ft0[j].0 == f2;
                        crate::assoc::lemma_lookup_entry(ft0, j);
                    }
                }
            }
            return false;
        }
        proof {
            assert(valid_tag(tag@)) by {
                assert(lookup(ft0, file@).contains(tag@));
            }
            assert(lookup(ttf0, tag@).contains(file@)) by {
                assert(lookup(ft0, file@).contains(tag@) == lookup(ttf0, tag@).contains(file@));
            }
        }
        let removed2 = assoc_remove_value(&mut self.tag_to_files, tag, file);
        proof {
            assert(removed2);
        }
        let halves = split_tag(tag);
        let ty = halves.0;
        let v = halves.1;
        proof {
            lemma_tag_split(tag@);
        }
        let tag_gone = match assoc_find(&self.tag_to_files, tag) {
            Some(_) => false,
            None => true,
        };
        if tag_gone {
            let removed3 = assoc_remove_value(&mut self.tag_index, &ty, &v);
            proof {
                assert(removed3) by {
                    assert(lookup(ti0, tag_type_of(tag@)).contains(tag_value_of(tag@))
                        == has_key(ttf0, join_tag(tag_type_of(tag@), tag_value_of(tag@))));
                }
            }
        }
        proof {
            let s1 = *self;
            let tys = tag_type_of(tag@);
            let vs = tag_value_of(tag@);
            assert(join_tag(tys, vs) == tag@);
            // every stored tag is still well-formed
            assert forall|f2: Seq<char>, t2: Seq<char>|
                #[trigger] lookup(s1.ft(), f2).contains(t2) implies valid_tag(t2) by {
                if f2 == file@ {
                    assert(lookup(ft0, f2).contains(t2));
                } else {
                    assert(lookup(s1.ft(), f2) == lookup(ft0, f2));
                }
            }
            // forward and tag → files indices still agree
            assert forall|f2: Seq<char>, t2: Seq<char>|
                #![trigger lookup(s1.ft(), f2).contains(t2)]
                #![trigger lookup(s1.ttf(), t2).contains(f2)]
                lookup(s1.ft(), f2).contains(t2) == lookup(s1.ttf(), t2).contains(f2) by {
                assert(lookup(ft0, f2).contains(t2) == lookup(ttf0, t2).contains(f2));
                if f2 == file@ {
                    assert(lookup(s1.ft(), f2).contains(t2) == (lookup(ft0, f2).contains(t2)
                        && t2 != tag@));
                } else {
                    assert(lookup(s1.ft(), f2) == lookup(ft0, f2));
                }
                if t2 == tag@ {
                    assert(lookup(s1.ttf(), t2).contains(f2) == (lookup(ttf0, t2).contains(f2)
                        && f2 != file@));
                } else {
                    assert(lookup(s1.ttf(), t2) == lookup(ttf0, t2));
                }
            }
            // type → values index still mirrors the tags in use
            assert forall|ty2: Seq<char>, v2: Seq<char>|
                #![trigger lookup(s1.ti(), ty2).contains(v2)]
                #![trigger has_key(s1.ttf(), join_tag(ty2, v2))]
                lookup(s1.ti(), ty2).contains(v2) == has_key(s1.ttf(), join_tag(ty2, v2)) by {
                assert(lookup(ti0, ty2).contains(v2) == has_key(ttf0, join_tag(ty2, v2)));
                if join_tag(ty2, v2) == tag@ {
                    lemma_join_tag_injective(ty2, v2, tys, vs);
                    assert(ty2 == tys && v2 == vs);
                    if tag_gone {
                        assert(!has_key(s1.ttf(), tag@));
                        assert(!lookup(s1.ti(), tys).contains(vs));
                    } else {
                        assert(has_key(s1.ttf(), tag@));
                        assert(lookup(s1.ti(), tys).contains(vs)) by {
                            assert(lookup(ti0, tys).contains(vs));
                        }
                    }
                } else {
                    assert(has_key(s1.ttf(), join_tag(ty2, v2)) == has_key(
                        ttf0,
                        join_tag(ty2, v2),
                    )) by {
                        if has_key(ttf0, join_tag(ty2, v2)) {
                            let j = choose|j: int|
                                0 <= j < ttf0.len() && ttf0[j].0 == join_tag(ty2, v2);
                            crate::assoc::lemma_lookup_entry(ttf0, j);
                            assert(lookup(ttf0, join_tag(ty2, v2)).len() > 0);
                            assert(lookup(s1.ttf(), join_tag(ty2, v2)) == lookup(
                                ttf0,
                                join_tag(ty2, v2),
                            ));
                        }
                    }
                    if ty2 == tys && tag_gone {
                        assert(v2 != vs) by {
                            if v2 == vs {
                                assert(join_tag(ty2, v2) == tag@);
                            }
                        }
                        assert(lookup(s1.ti(), ty2).contains(v2) == (lookup(ti0, ty2).contains(
                            v2,
                        ) && v2 != vs));
                    } else {
                        assert(lookup(s1.ti(), ty2) == lookup(ti0, ty2));
                    }
                }
            }
            // a file entry survives exactly while it still has a tag
            assert forall|f2: Seq<char>| #[trigger] s1.tracks(f2) == (has_key(ft0, f2)
                && s1.tags_of(f2).len() > 0) by {}
        }
        removed
    }
}

/// The tag list after adding `ts` in order with set semantics: a tag already
/// present is skipped.
pub open spec fn add_new(cur: Seq<Seq<char>>, ts: Seq<Seq<char>>) -> Seq<Seq<char>>
    decreases ts.len(),
{
    if ts.len() == 0 {
        cur
    } else {
        add_new(
            if cur.contains(ts[0]) {
                cur
            } else {
                cur.push(ts[0])
            },
            ts.drop_first(),
        )
    }
}

/// The tags of `ts` that were actually new, in order, without duplicates.
pub open spec fn newly_added(cur: Seq<Seq<char>>, ts: Seq<Seq<char>>) -> Seq<Seq<char>>
    decreases ts.len(),
{
    if ts.len() == 0 {
        Seq::empty()
    } else {
        if cur.contains(ts[0]) {
            newly_added(cur, ts.drop_first())
        } else {
            seq![ts[0]] + newly_added(cur.push(ts[0]), ts.drop_first())
        }
    }
}

/// `ts` with every repetition of an earlier string dropped.
pub open spec fn dedup_first(ts: Seq<Seq<char>>) -> Seq<Seq<char>>
    decreases ts.len(),
{
    if ts.len() == 0 {
        Seq::empty()
    } else {
        let pre = dedup_first(ts.drop_last());
        if pre.contains(ts.last()) {
            pre
        } else {
            pre.push(ts.last())
        }
    }
}

/// Unrolls `add_new` and `newly_added` at the back, the way a loop grows its
/// input one tag at a time.
pub proof fn lemma_add_new_snoc(cur: Seq<Seq<char>>, ts: Seq<Seq<char>>, t: Seq<char>)
    ensures
        add_new(cur, ts.push(t)) == if add_new(cur, ts).contains(t) {
            add_new(cur, ts)
        } else {
            add_new(cur, ts).push(t)
        },
        newly_added(cur, ts.push(t)) == if add_new(cur, ts).contains(t) {
            newly_added(cur, ts)
        } else {
            newly_added(cur, ts).push(t)
        },
    decreases ts.len(),
{
    if ts.len() == 0 {
        reveal_with_fuel(add_new, 2);
        reveal_with_fuel(newly_added, 2);
        assert(ts.push(t).drop_first() =~= Seq::<Seq<char>>::empty());
        assert(ts.push(t)[0] == t);
        if !cur.contains(t) {
            assert(newly_added(cur, ts.push(t)) =~= Seq::<Seq<char>>::empty().push(t));
        }
    } else {
        let c1 = if cur.contains(ts[0]) {
            cur
        } else {
            cur.push(ts[0])
        };
        assert(ts.push(t)[0] == ts[0]);
        assert(ts.push(t).drop_first() =~= ts.drop_first().push(t));
        lemma_add_new_snoc(c1, ts.drop_first(), t);
        if !cur.contains(ts[0]) && !add_new(c1, ts.drop_first()).contains(t) {
            assert(newly_added(cur, ts.push(t)) =~= seq![ts[0]] + newly_added(
                c1,
                ts.drop_first(),
            ).push(t));
            assert(newly_added(cur, ts).push(t) =~= seq![ts[0]] + newly_added(
                c1,
                ts.drop_first(),
            ).push(t));
        }
    }
}

/// Adding tags adds exactly their strings to the file's set.
pub proof fn lemma_add_new_membership(cur: Seq<Seq<char>>, ts: Seq<Seq<char>>)
    ensures
        forall|y: Seq<char>|
            #[trigger] add_new(cur, ts).contains(y) == (cur.contains(y) || ts.contains(y)),
    decreases ts.len(),
{
    if ts.len() > 0 {
        let c1 = if cur.contains(ts[0]) {
            cur
        } else {
            cur.push(ts[0])
        };
        lemma_add_new_membership(c1, ts.drop_first());
        lemma_contains_push(cur, ts[0]);
        assert forall|y: Seq<char>| #[trigger] add_new(cur, ts).contains(y) == (cur.contains(y)
            || ts.contains(y)) by {
            assert(add_new(cur, ts) == add_new(c1, ts.drop_first()));
            assert(add_new(c1, ts.drop_first()).contains(y) == (c1.contains(y)
                || ts.drop_first().contains(y)));
            assert(ts.contains(y) == (y == ts[0] || ts.drop_first().contains(y))) by {
                if ts.contains(y) {
                    let k = choose|k: int| 0 <= k < ts.len() && ts[k] == y;
                    if k > 0 {
                        assert(ts.drop_first()[k - 1] == y);
                    }
                }
                if ts.drop_first().contains(y) {
                    let k = choose|k: int|
                        0 <= k < ts.drop_first().len() && ts.drop_first()[k] == y;
                    assert(ts[k + 1] == y);
                }
            }
        }
    }
}

/// Deduplication keeps exactly the same strings.
pub proof fn lemma_dedup_first_membership(ts: Seq<Seq<char>>)
    ensures
        forall|y: Seq<char>| #[trigger] dedup_first(ts).contains(y) == ts.contains(y),
    decreases ts.len(),
{
    if ts.len() > 0 {
        lemma_dedup_first_membership(ts.drop_last());
        let pre = dedup_first(ts.drop_last());
        lemma_contains_push(pre, ts.last());
        assert forall|y: Seq<char>| #[trigger] dedup_first(ts).contains(y) == ts.contains(
            y,
        ) by {
            assert(ts.contains(y) == (ts.drop_last().contains(y) || y == ts.last())) by {
                if ts.contains(y) {
                    let k = choose|k: int| 0 <= k < ts.len() && ts[k] == y;
                    if k < ts.len() - 1 {
                        assert(ts.drop_last()[k] == y);
                    }
                }
                if ts.drop_last().contains(y) {
                    let k = choose|k: int|
                        0 <= k < ts.drop_last().len() && ts.drop_last()[k] == y;
                    assert(ts[k] == y);
                }
                if y == ts.last() {
                    assert(ts[ts.len() - 1] == y);
                }
            }
        }
    }
}

impl TagManager {
    /// Checks that a tag has the `type:value` form.
    pub fn validate_tag(&self, tag: &str) -> (r: Result<(), CodeNexusError>)
        ensures
            r is Ok <==> valid_tag(tag@),
            r is Err ==> r->Err_0 is InvalidTagFormat && r->Err_0->InvalidTagFormat_0@ == tag@,
    {
        let tc = chars_of(tag);
        if is_valid_tag(&tc) {
            Ok(())
        } else {
            Err(CodeNexusError::InvalidTagFormat(tag.to_owned()))
        }
    }

    /// The tags of a file, in insertion order; empty for an unknown file.
    pub fn get_file_tags(&self, file: &str) -> (r: Vec<String>)
        requires
            self.wf(),
        ensures
            r.deep_view() == self.tags_of(file@),
    {
        let fchars = chars_of(file);
        let tags = assoc_get_copy(&self.file_tags, &fchars);
        strings_of(&tags)
    }

    /// Counts: files with tags, distinct tags in use, distinct tag types.
    pub fn get_stats(&self) -> (r: (usize, usize, usize))
        ensures
            r.0 == self.ft().len(),
            r.1 == self.ttf().len(),
            r.2 == self.ti().len(),
    {
        (self.file_tags.len(), self.tag_to_files.len(), self.tag_index.len())
    }

    /// Files of the project without tags; finding them needs the filesystem
    /// collaborator, which this engine does not touch, so the list is empty.
    pub fn get_untagged_files(&self) -> (r: Vec<String>)
        ensures
            r@.len() == 0,
    {
        Vec::new()
    }

    /// The snapshot of the dataset, as the persistence gateway stores it.
    pub fn to_data(&self) -> (r: TagsData)
        requires
            self.wf(),
        ensures
            r.file_tags.deep_view() == self.ft(),
    {
        let mut rows: Vec<(String, Vec<String>)> = Vec::new();
        let mut i: usize = 0;
        while i < self.file_tags.len()
            invariant
                0 <= i <= self.file_tags.len(),
                rows.deep_view() == self.ft().subrange(0, i as int),
            decreases self.file_tags.len() - i,
        {
            let ghost before = rows.deep_view();
            let key = string_of(&self.file_tags[i].0);
            let vals = strings_of(&self.file_tags[i].1);
            rows.push((key, vals));
            i = i + 1;
            proof {
                assert(rows.deep_view() =~~= before.push(self.ft()[i - 1]));
                assert(rows.deep_view() =~~= self.ft().subrange(0, i as int));
            }
        }
        proof {
            assert(self.ft().subrange(0, self.ft().len() as int) =~~= self.ft());
        }
        TagsData { file_tags: rows }
    }
}

impl TagManager {
    /// Adds tags to a file. All tags are checked first; on any format error
    /// nothing changes. Tags already present are skipped silently; the newly
    /// added ones come back in order.
    pub fn add_tags(&mut self, file: &str, tags: &Vec<String>) -> (r: Result<
        Vec<String>,
        CodeNexusError,
    >)
        requires
            old(self).wf(),
        ensures
            final(self).wf(),
            r is Ok ==> forall|i: int|
                0 <= i < tags.deep_view().len() ==> valid_tag(#[trigger] tags.deep_view()[i]),
            r is Err ==> (exists|i: int|
                0 <= i < tags.deep_view().len() && !valid_tag(#[trigger] tags.deep_view()[i])),
            (forall|i: int|
                0 <= i < tags.deep_view().len() ==> valid_tag(#[trigger] tags.deep_view()[i]))
                ==> r is Ok,
            match r {
                Ok(added) => {
                    &&& final(self).tags_of(file@) == add_new(
                        old(self).tags_of(file@),
                        tags.deep_view(),
                    )
                    &&& added.deep_view() == newly_added(
                        old(self).tags_of(file@),
                        tags.deep_view(),
                    )
                    &&& forall|t: Seq<char>|
                        #[trigger] final(self).has_tag(file@, t) == (old(self).has_tag(file@, t)
                            || tags.deep_view().contains(t))
                    &&& forall|f2: Seq<char>|
                        f2 != file@ ==> #[trigger] final(self).tags_of(f2) == old(self).tags_of(
                            f2,
                        )
                    &&& forall|f2: Seq<char>|
                        #[trigger] final(self).tracks(f2) == (old(self).tracks(f2) || (f2
                            == file@ && tags.deep_view().len() > 0))
                },
                Err(e) => {
                    &&& *final(self) == *old(self)
                    &&& e is InvalidTagFormat
                    &&& exists|i: int|
                        0 <= i < tags.deep_view().len() && e->InvalidTagFormat_0@ == #[trigger]
                        tags.deep_view()[i] && !valid_tag(tags.deep_view()[i])
                },
            },
    {
        let fchars = chars_of(file);
        let mut i: usize = 0;
        while i < tags.len()
            invariant
                0 <= i <= tags.len(),
                *self == *old(self),
                old(self).wf(),
                forall|j: int| 0 <= j < i ==> valid_tag(#[trigger] tags.deep_view()[j]),
            decreases tags.len() - i,
        {
            let tc = chars_of(tags[i].as_str());
            proof {
                assert(tags[i as int]@ == tags.deep_view()[i as int]);
            }
            if !is_valid_tag(&tc) {
                return Err(CodeNexusError::InvalidTagFormat(tags[i].clone()));
            }
            i = i + 1;
        }
        let ghost cur0 = self.tags_of(fchars@);
        let ghost ts = tags.deep_view();
        let mut added: Vec<String> = Vec::new();
        let mut k: usize = 0;
        proof {
            assert(ts.subrange(0, 0) =~= Seq::<Seq<char>>::empty());
        }
        while k < tags.len()
            invariant
                0 <= k <= tags.len(),
                ts == tags.deep_view(),
                cur0 == old(self).tags_of(fchars@),
                fchars@ == file@,
                forall|j: int| 0 <= j < ts.len() ==> valid_tag(#[trigger] ts[j]),
                self.wf(),
                self.tags_of(file@) == add_new(cur0, ts.subrange(0, k as int)),
                added.deep_view() == newly_added(cur0, ts.subrange(0, k as int)),
                forall|f2: Seq<char>|
                    f2 != file@ ==> #[trigger] self.tags_of(f2) == old(self).tags_of(f2),
                forall|f2: Seq<char>|
                    #[trigger] self.tracks(f2) == (old(self).tracks(f2) || (f2 == file@ && k
                        > 0)),
            decreases tags.len() - k,
        {
            let tc = chars_of(tags[k].as_str());
            proof {
                assert(tags[k as int]@ == ts[k as int]);
            }
            let ghost added_before = added.deep_view();
            let was_added = self.insert_tag(&fchars, &tc);
            if was_added {
                added.push(tags[k].clone());
                proof {
                    assert(added.deep_view() =~~= added_before.push(ts[k as int]));
                }
            }
            k = k + 1;
            proof {
                let pre = ts.subrange(0, k - 1);
                assert(ts.subrange(0, k as int) =~= pre.push(ts[k - 1]));
                lemma_add_new_snoc(cur0, pre, ts[k - 1]);
            }
        }
        proof {
            assert(ts.subrange(0, ts.len() as int) =~= ts);
            lemma_add_new_membership(cur0, ts);
        }
        Ok(added)
    }

    /// Removes tags from a file, all-or-nothing: the file must have a tag
    /// entry and every requested tag must be present, else nothing changes.
    /// The removed tags come back in order, repetitions dropped.
    pub fn remove_tags(&mut self, file: &str, tags: &Vec<String>) -> (r: Result<
        Vec<String>,
        CodeNexusError,
    >)
        requires
            old(self).wf(),
        ensures
            final(self).wf(),
            r is Ok <==> (old(self).tracks(file@) && forall|i: int|
                0 <= i < tags.deep_view().len() ==> old(self).has_tag(
                    file@,
                    #[trigger] tags.deep_view()[i],
                )),
            match r {
                Ok(removed) => {
                    &&& removed.deep_view() == dedup_first(tags.deep_view())
                    &&& forall|y: Seq<char>|
                        #[trigger] final(self).has_tag(file@, y) == (old(self).has_tag(file@, y)
                            && !tags.deep_view().contains(y))
                    &&& forall|f2: Seq<char>|
                        f2 != file@ ==> #[trigger] final(self).tags_of(f2) == old(self).tags_of(
                            f2,
                        )
                    &&& forall|f2: Seq<char>|
                        #[trigger] final(self).tracks(f2) == (old(self).tracks(f2)
                            && final(self).tags_of(f2).len() > 0)
                },
                Err(e) => {
                    &&& *final(self) == *old(self)
                    &&& if !old(self).tracks(file@) {
                        e is FileNotFound && e->FileNotFound_0@ == file@
                    } else {
                        &&& e is TagNotFound
                        &&& e->TagNotFound_file@ == file@
                        &&& exists|i: int|
                            0 <= i < tags.deep_view().len() && e->TagNotFound_tag@ == #[trigger]
                            tags.deep_view()[i] && !old(self).has_tag(file@, tags.deep_view()[i])
                    }
                },
            },
    {
        let fchars = chars_of(file);
        let cur = assoc_get_copy(&self.file_tags, &fchars);
        match assoc_find(&self.file_tags, &fchars) {
            Some(_) => {},
            None => {
                return Err(CodeNexusError::FileNotFound(file.to_owned()));
            },
        }
        let mut i: usize = 0;
        while i < tags.len()
            invariant
                0 <= i <= tags.len(),
                *self == *old(self),
                old(self).wf(),
                old(self).tracks(fchars@),
                cur.deep_view() == old(self).tags_of(fchars@),
                fchars@ == file@,
                forall|j: int|
                    0 <= j < i ==> cur.deep_view().contains(#[trigger] tags.deep_view()[j]),
            decreases tags.len() - i,
        {
            let tc = chars_of(tags[i].as_str());
            proof {
                assert(tags[i as int]@ == tags.deep_view()[i as int]);
            }
            if !crate::strset::strs_contains(&cur, &tc) {
                return Err(
                    CodeNexusError::TagNotFound { tag: tags[i].clone(), file: file.to_owned() },
                );
            }
            i = i + 1;
        }
        let ghost ts = tags.deep_view();
        let mut removed: Vec<String> = Vec::new();
        let mut k: usize = 0;
        proof {
            assert(ts.subrange(0, 0) =~= Seq::<Seq<char>>::empty());
            assert(dedup_first(ts.subrange(0, 0)) =~= Seq::<Seq<char>>::empty());
        }
        while k < tags.len()
            invariant
                0 <= k <= tags.len(),
                ts == tags.deep_view(),
                fchars@ == file@,
                old(self).tracks(file@),
                forall|j: int|
                    0 <= j < ts.len() ==> old(self).has_tag(file@, #[trigger] ts[j]),
                self.wf(),
                removed.deep_view() == dedup_first(ts.subrange(0, k as int)),
                forall|y: Seq<char>|
                    #[trigger] self.tags_of(file@).contains(y) == (old(self).tags_of(
                        file@,
                    ).contains(y) && !ts.subrange(0, k as int).contains(y)),
                forall|f2: Seq<char>|
                    f2 != file@ ==> #[trigger] self.tags_of(f2) == old(self).tags_of(f2),
                forall|f2: Seq<char>|
                    #[trigger] self.tracks(f2) == (old(self).tracks(f2) && self.tags_of(
                        f2,
                    ).len() > 0),
            decreases tags.len() - k,
        {
            let tc = chars_of(tags[k].as_str());
            proof {
                assert(tags[k as int]@ == ts[k as int]);
            }
            let ghost removed_before = removed.deep_view();
            let ghost pre = ts.subrange(0, k as int);
            let was_removed = self.remove_tag(&fchars, &tc);
            proof {
                lemma_dedup_first_membership(pre);
                assert(was_removed == !pre.contains(ts[k as int]));
            }
            if was_removed {
                removed.push(tags[k].clone());
                proof {
                    assert(removed.deep_view() =~~= removed_before.push(ts[k as int]));
                }
            }
            k = k + 1;
            proof {
                let cur_pre = ts.subrange(0, k as int);
                assert(cur_pre =~= pre.push(ts[k - 1]));
                assert(cur_pre.drop_last() =~= pre);
                assert(cur_pre.last() == ts[k - 1]);
                assert(dedup_first(cur_pre) == if dedup_first(pre).contains(ts[k - 1]) {
                    dedup_first(pre)
                } else {
                    dedup_first(pre).push(ts[k - 1])
                });
                lemma_contains_push(pre, ts[k - 1]);
            }
        }
        proof {
            assert(ts.subrange(0, ts.len() as int) =~= ts);
        }
        Ok(removed)
    }
}

/// A snapshot row set mentions tag `t` for file `f`.
pub open spec fn data_has(d: StrMapSeq, f: Seq<char>, t: Seq<char>) -> bool {
    exists|i: int| 0 <= i < d.len() && d[i].0 == f && d[i].1.contains(t)
}

proof fn lemma_data_has_snoc(d: StrMapSeq, i: int)
    requires
        0 <= i < d.len(),
    ensures
        forall|f: Seq<char>, t: Seq<char>|
            #[trigger] data_has(d.subrange(0, i + 1), f, t) == (data_has(d.subrange(0, i), f, t)
                || (f == d[i].0 && d[i].1.contains(t))),
{
    let pre = d.subrange(0, i);
    let cur = d.subrange(0, i + 1);
    assert forall|f: Seq<char>, t: Seq<char>|
        #[trigger] data_has(cur, f, t) == (data_has(pre, f, t) || (f == d[i].0
            && d[i].1.contains(t))) by {
        if data_has(cur, f, t) {
            let a = choose|a: int| 0 <= a < cur.len() && cur[a].0 == f && cur[a].1.contains(t);
            if a < i {
                assert(pre[a] == d[a]);
                assert(data_has(pre, f, t));
            } else {
                assert(cur[a] == d[i]);
            }
        }
        if data_has(pre, f, t) {
            let a = choose|a: int| 0 <= a < pre.len() && pre[a].0 == f && pre[a].1.contains(t);
            assert(cur[a] == pre[a]);
            assert(data_has(cur, f, t));
        }
        if f == d[i].0 && d[i].1.contains(t) {
            assert(cur[i] == d[i]);
            assert(data_has(cur, f, t));
        }
    }
}

impl TagManager {
    /// Every tag type in use with its values, the values sorted.
    pub fn get_all_tags(&self) -> (r: Vec<(String, Vec<String>)>)
        requires
            self.wf(),
        ensures
            r.deep_view().len() == self.ti().len(),
            forall|i: int|
                0 <= i < r.deep_view().len() ==> (#[trigger] r.deep_view()[i]).0 == self.ti()[i].0,
            forall|i: int|
                0 <= i < r.deep_view().len() ==> sorted_lex((#[trigger] r.deep_view()[i]).1),
            forall|i: int|
                0 <= i < r.deep_view().len() ==> (#[trigger] r.deep_view()[i]).1.to_multiset()
                    == self.ti()[i].1.to_multiset(),
    {
        let mut r: Vec<(String, Vec<String>)> = Vec::new();
        let mut i: usize = 0;
        while i < self.tag_index.len()
            invariant
                0 <= i <= self.tag_index.len(),
                r.deep_view().len() == i,
                forall|j: int|
                    0 <= j < i ==> (#[trigger] r.deep_view()[j]).0 == self.ti()[j].0,
                forall|j: int| 0 <= j < i ==> sorted_lex((#[trigger] r.deep_view()[j]).1),
                forall|j: int|
                    0 <= j < i ==> (#[trigger] r.deep_view()[j]).1.to_multiset()
                        == self.ti()[j].1.to_multiset(),
            decreases self.tag_index.len() - i,
        {
            let ghost before = r.deep_view();
            let key = string_of(&self.tag_index[i].0);
            let vals = sort_strs(strs_copy(&self.tag_index[i].1));
            let vals_s = strings_of(&vals);
            let ghost entry_view = (key@, vals_s.deep_view());
            r.push((key, vals_s));
            i = i + 1;
            proof {
                assert(r.deep_view() =~~= before.push(entry_view));
            }
        }
        r
    }

    /// Builds the index from a stored snapshot, with the same set semantics
    /// as adding the tags row by row; any malformed tag is rejected.
    pub fn from_data(data: &TagsData) -> (r: Result<TagManager, CodeNexusError>)
        ensures
            r is Ok <==> (forall|i: int, j: int|
                0 <= i < data.file_tags.deep_view().len() && 0 <= j
                    < data.file_tags.deep_view()[i].1.len() ==> valid_tag(
                    #[trigger] data.file_tags.deep_view()[i].1[j],
                )),
            match r {
                Ok(m) => {
                    &&& m.wf()
                    &&& forall|f: Seq<char>, t: Seq<char>|
                        #[trigger] m.tags_of(f).contains(t) == data_has(
                            data.file_tags.deep_view(),
                            f,
                            t,
                        )
                },
                Err(e) => e is InvalidTagFormat,
            },
    {
        let ghost d = data.file_tags.deep_view();
        let mut i: usize = 0;
        while i < data.file_tags.len()
            invariant
                0 <= i <= data.file_tags.len(),
                d == data.file_tags.deep_view(),
                forall|a: int, b: int|
                    0 <= a < i && 0 <= b < d[a].1.len() ==> valid_tag(#[trigger] d[a].1[b]),
            decreases data.file_tags.len() - i,
        {
            let row_tags = &data.file_tags[i].1;
            let mut j: usize = 0;
            while j < row_tags.len()
                invariant
                    0 <= i < data.file_tags.len(),
                    0 <= j <= row_tags.len(),
                    d == data.file_tags.deep_view(),
                    row_tags.deep_view() == d[i as int].1,
                    forall|b: int|
                        0 <= b < j ==> valid_tag(#[trigger] d[i as int].1[b]),
                decreases row_tags.len() - j,
            {
                let tc = chars_of(row_tags[j].as_str());
                proof {
                    assert(row_tags[j as int]@ == d[i as int].1[j as int]);
                }
                if !is_valid_tag(&tc) {
                    return Err(CodeNexusError::InvalidTagFormat(row_tags[j].clone()));
                }
                j = j + 1;
            }
            i = i + 1;
        }
        let mut m = TagManager::new();
        proof {
            assert forall|f: Seq<char>, t: Seq<char>|
                #[trigger] m.tags_of(f).contains(t) == data_has(d.subrange(0, 0), f, t) by {
                assert(d.subrange(0, 0).len() == 0);
                if data_has(d.subrange(0, 0), f, t) {
                    let a = choose|a: int|
                        0 <= a < d.subrange(0, 0).len() && d.subrange(0, 0)[a].0 == f
                            && d.subrange(0, 0)[a].1.contains(t);
                }
            }
        }
        let mut i2: usize = 0;
        while i2 < data.file_tags.len()
            invariant
                0 <= i2 <= data.file_tags.len(),
                d == data.file_tags.deep_view(),
                forall|a: int, b: int|
                    0 <= a < d.len() && 0 <= b < d[a].1.len() ==> valid_tag(
                        #[trigger] d[a].1[b],
                    ),
                m.wf(),
                forall|f: Seq<char>, t: Seq<char>|
                    #[trigger] m.tags_of(f).contains(t) == data_has(
                        d.subrange(0, i2 as int),
                        f,
                        t,
                    ),
            decreases data.file_tags.len() - i2,
        {
            let fchars = chars_of(data.file_tags[i2].0.as_str());
            proof {
                assert(data.file_tags[i2 as int].0@ == d[i2 as int].0);
            }
            let row_tags = &data.file_tags[i2].1;
            let mut j: usize = 0;
            while j < row_tags.len()
                invariant
                    0 <= i2 < data.file_tags.len(),
                    0 <= j <= row_tags.len(),
                    d == data.file_tags.deep_view(),
                    row_tags.deep_view() == d[i2 as int].1,
                    fchars@ == d[i2 as int].0,
                    forall|a: int, b: int|
                        0 <= a < d.len() && 0 <= b < d[a].1.len() ==> valid_tag(
                            #[trigger] d[a].1[b],
                        ),
                    m.wf(),
                    forall|f: Seq<char>, t: Seq<char>|
                        #[trigger] m.tags_of(f).contains(t) == (data_has(
                            d.subrange(0, i2 as int),
                            f,
                            t,
                        ) || (f == d[i2 as int].0 && d[i2 as int].1.subrange(
                            0,
                            j as int,
                        ).contains(t))),
                decreases row_tags.len() - j,
            {
                let tc = chars_of(row_tags[j].as_str());
                proof {
                    assert(row_tags[j as int]@ == d[i2 as int].1[j as int]);
                }
                let ghost m_before = m;
                let _ = m.insert_tag(&fchars, &tc);
                j = j + 1;
                proof {
                    let t0 = d[i2 as int].1[j - 1];
                    let pre = d[i2 as int].1.subrange(0, j - 1);
                    let cur = d[i2 as int].1.subrange(0, j as int);
                    assert(cur =~= pre.push(t0));
                    lemma_contains_push(pre, t0);
                    lemma_contains_push(m_before.tags_of(fchars@), t0);
                    assert forall|f: Seq<char>, t: Seq<char>|
                        #[trigger] m.tags_of(f).contains(t) == (data_has(
                            d.subrange(0, i2 as int),
                            f,
                            t,
                        ) || (f == d[i2 as int].0 && cur.contains(t))) by {
                        if f == fchars@ {
                            assert(m.tags_of(f).contains(t) == (m_before.tags_of(f).contains(t)
                                || t == t0));
                        } else {
                            assert(m.tags_of(f) == m_before.tags_of(f));
                        }
                    }
                }
            }
            i2 = i2 + 1;
            proof {
                lemma_data_has_snoc(d, i2 - 1);
                assert(d[i2 - 1].1.subrange(0, d[i2 - 1].1.len() as int) =~= d[i2 - 1].1);
                assert forall|f: Seq<char>, t: Seq<char>|
                    #[trigger] m.tags_of(f).contains(t) == data_has(
                        d.subrange(0, i2 as int),
                        f,
                        t,
                    ) by {
                    assert(m.tags_of(f).contains(t) == (data_has(d.subrange(0, i2 - 1), f, t)
                        || (f == d[i2 - 1].0 && d[i2 - 1].1.subrange(
                        0,
                        d[i2 - 1].1.len() as int,
                    ).contains(t))));
                }
            }
        }
        proof {
            assert(d.subrange(0, d.len() as int) =~= d);
        }
        Ok(m)
    }
}

} // verus!
