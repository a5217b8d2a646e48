//! The relation graph: directed, described edges between files, with a
//! forward index (source → outgoing edges) and a derived reverse index
//! (target → incoming edges) kept in sync on every mutation. Only one edge
//! may exist per ordered pair of files.

use vstd::prelude::*;
use crate::bridge::{chars_of, string_of};
use crate::error::CodeNexusError;
use crate::relmap::{
    firsts_contain, lemma_pair_contains_push, lemma_rlookup_entry, pairs_contain_first, radd_pair,
    rfind, rhas_key, rlookup, rlookup_copy, rmap_wf, rremove_by_first, RelMap, RelMapSeq,
};
use crate::text::trim_spec;

verus! {

/// One edge as callers see it: the peer file and the description.
#[derive(Debug, Clone, PartialEq, Eq)]
pub struct Relation {
    pub target: String,
    pub description: String,
}

impl View for Relation {
    type V = (Seq<char>, Seq<char>);

    open spec fn view(&self) -> (Seq<char>, Seq<char>) {
        (self.target@, self.description@)
    }
}

impl DeepView for Relation {
    type V = (Seq<char>, Seq<char>);

    open spec fn deep_view(&self) -> (Seq<char>, Seq<char>) {
        self.view()
    }
}

/// One snapshot of the relation dataset: source file → its outgoing edges.
pub struct RelationsData {
    pub file_relations: Vec<(String, Vec<Relation>)>,
}

/// The relation graph with its derived reverse index.
pub struct RelationManager {
    pub forward: RelMap,
    pub incoming: RelMap,
}

impl RelationManager {
    /// The source → (target, description) index.
    pub open spec fn fwd(self) -> RelMapSeq {
        self.forward.deep_view()
    }

    /// The target → (source, description) index.
    pub open spec fn inc(self) -> RelMapSeq {
        self.incoming.deep_view()
    }

    /// The outgoing edges of a file, in insertion order.
    pub open spec fn outgoing(self, s: Seq<char>) -> Seq<(Seq<char>, Seq<char>)> {
        rlookup(self.fwd(), s)
    }

    /// The incoming edges of a file, as (source, description) pairs.
    pub open spec fn incoming_of(self, t: Seq<char>) -> Seq<(Seq<char>, Seq<char>)> {
        rlookup(self.inc(), t)
    }

    /// An edge from `s` to `t` exists.
    pub open spec fn edge(self, s: Seq<char>, t: Seq<char>) -> bool {
        firsts_contain(self.outgoing(s), t)
    }

    /// Index consistency: well-formed maps whose edge sets mirror each other
    /// exactly.
    pub open spec fn wf(self) -> bool {
        &&& rmap_wf(self.fwd())
        &&& rmap_wf(self.inc())
        &&& (forall|s: Seq<char>, t: Seq<char>, d: Seq<char>|
            #![trigger rlookup(self.fwd(), s).contains((t, d))]
            #![trigger rlookup(self.inc(), t).contains((s, d))]
            rlookup(self.fwd(), s).contains((t, d)) == rlookup(self.inc(), t).contains((s, d)))
    }

    /// Creates an empty relation graph.
    pub fn new() -> (r: RelationManager)
        ensures
            r.wf(),
            r.fwd().len() == 0,
            r.inc().len() == 0,
    {
        let r = RelationManager { forward: Vec::new(), incoming: Vec::new() };
        proof {
            assert forall|s: Seq<char>, t: Seq<char>, d: Seq<char>|
                !(#[trigger] rlookup(r.fwd(), s).contains((t, d))) by {}
            assert forall|t: Seq<char>, s: Seq<char>, d: Seq<char>|
                !(#[trigger] rlookup(r.inc(), t).contains((s, d))) by {}
        }
        r
    }

    /// Adds an edge. The description must not be blank, and no edge may
    /// already exist between the same ordered pair; re-adding with another
    /// description is rejected, not merged.
    pub fn add_relation(&mut self, from_file: &str, to_file: &str, description: &str) -> (r:
        Result<(), CodeNexusError>)
        requires
            old(self).wf(),
        ensures
            final(self).wf(),
            r is Ok <==> (trim_spec(description@).len() > 0 && !old(self).edge(
                from_file@,
                to_file@,
            )),
            match r {
                Ok(_) => {
                    &&& final(self).outgoing(from_file@) == old(self).outgoing(from_file@).push(
                        (to_file@, description@),
                    )
                    &&& forall|x: Seq<char>|
                        x != from_file@ ==> #[trigger] final(self).outgoing(x) == old(
                            self,
                        ).outgoing(x)
                    &&& final(self).incoming_of(to_file@) == old(self).incoming_of(
                        to_file@,
                    ).push((from_file@, description@))
                    &&& forall|x: Seq<char>|
                        x != to_file@ ==> #[trigger] final(self).incoming_of(x) == old(
                            self,
                        ).incoming_of(x)
                    &&& forall|x: Seq<char>|
                        #[trigger] rhas_key(final(self).fwd(), x) == (rhas_key(
                            old(self).fwd(),
                            x,
                        ) || x == from_file@)
                },
                Err(e) => {
                    &&& *final(self) == *old(self)
                    &&& if trim_spec(description@).len() == 0 {
                        e is ConfigError
                    } else {
                        &&& e is RelationAlreadyExists
                        &&& e->RelationAlreadyExists_from@ == from_file@
                        &&& e->RelationAlreadyExists_to@ == to_file@
                    }
                },
            },
    {
        let dc = chars_of(description);
        let dt = crate::text::trim(&dc);
        if dt.len() == 0 {
            return Err(
                CodeNexusError::ConfigError(String::new()),
            );
        }
        let fc = chars_of(from_file);
        let tc = chars_of(to_file);
        let out = rlookup_copy(&self.forward, &fc);
        if pairs_contain_first(&out, &tc) {
            return Err(
                CodeNexusError::RelationAlreadyExists {
                    from: from_file.to_owned(),
                    to: to_file.to_owned(),
                },
            );
        }
        let ghost f0 = self.fwd();
        let ghost i0 = self.inc();
        proof {
            assert(!firsts_contain(rlookup(i0, tc@), fc@)) by {
                if firsts_contain(rlookup(i0, tc@), fc@) {
                    let j = choose|j: int|
                        0 <= j < rlookup(i0, tc@).len() && rlookup(i0, tc@)[j].0 == fc@;
                    let d0 = rlookup(i0, tc@)[j].1;
                    assert(rlookup(i0, tc@).contains((fc@, d0)));
                    assert(rlookup(f0, fc@).contains((tc@, d0)));
                    assert(firsts_contain(rlookup(f0, fc@), tc@));
                }
            }
        }
        radd_pair(&mut self.forward, &fc, &tc, &dc);
        radd_pair(&mut self.incoming, &tc, &fc, &dc);
        proof {
            let s1 = *self;
            lemma_pair_contains_push(rlookup(f0, fc@), (tc@, dc@));
            lemma_pair_contains_push(rlookup(i0, tc@), (fc@, dc@));
            assert forall|s: Seq<char>, t: Seq<char>, d: Seq<char>|
                #![trigger rlookup(s1.fwd(), s).contains((t, d))]
                #![trigger rlookup(s1.inc(), t).contains((s, d))]
                rlookup(s1.fwd(), s).contains((t, d)) == rlookup(s1.inc(), t).contains(
                (s, d),
            ) by {
                assert(rlookup(f0, s).contains((t, d)) == rlookup(i0, t).contains((s, d)));
                if s == fc@ {
                    assert(rlookup(s1.fwd(), s) == rlookup(f0, s).push((tc@, dc@)));
                } else {
                    assert(rlookup(s1.fwd(), s) == rlookup(f0, s));
                }
                if t == tc@ {
                    assert(rlookup(s1.inc(), t) == rlookup(i0, t).push((fc@, dc@)));
                } else {
                    assert(rlookup(s1.inc(), t) == rlookup(i0, t));
                }
            }
        }
        Ok(())
    }

    /// Removes the edge between an ordered pair of files; it must exist.
    pub fn remove_relation(&mut self, from_file: &str, to_file: &str) -> (r: Result<
        (),
        CodeNexusError,
    >)
        requires
            old(self).wf(),
        ensures
            final(self).wf(),
            r is Ok <==> old(self).edge(from_file@, to_file@),
            match r {
                Ok(_) => {
                    &&& forall|p: (Seq<char>, Seq<char>)|
                        #[trigger] final(self).outgoing(from_file@).contains(p) == (old(
                            self,
                        ).outgoing(from_file@).contains(p) && p.0 != to_file@)
                    &&& forall|x: Seq<char>|
                        x != from_file@ ==> #[trigger] final(self).outgoing(x) == old(
                            self,
                        ).outgoing(x)
                    &&& forall|p: (Seq<char>, Seq<char>)|
                        #[trigger] final(self).incoming_of(to_file@).contains(p) == (old(
                            self,
                        ).incoming_of(to_file@).contains(p) && p.0 != from_file@)
                    &&& forall|x: Seq<char>|
                        x != to_file@ ==> #[trigger] final(self).incoming_of(x) == old(
                            self,
                        ).incoming_of(x)
                    &&& forall|x: Seq<char>|
                        #[trigger] rhas_key(final(self).fwd(), x) == (rhas_key(
                            old(self).fwd(),
                            x,
                        ) && final(self).outgoing(x).len() > 0)
                },
                Err(e) => {
                    &&& *final(self) == *old(self)
                    &&& e is RelationNotFound
                    &&& e->RelationNotFound_from@ == from_file@
                    &&& e->RelationNotFound_to@ == to_file@
                },
            },
    {
        let fc = chars_of(from_file);
        let tc = chars_of(to_file);
        let ghost f0 = self.fwd();
        let ghost i0 = self.inc();
        let removed = rremove_by_first(&mut self.forward, &fc, &tc);
        if !removed {
            return Err(
                CodeNexusError::RelationNotFound {
                    from: from_file.to_owned(),
                    to: to_file.to_owned(),
                },
            );
        }
        proof {
            assert(firsts_contain(rlookup(i0, tc@), fc@)) by {
                let j = choose|j: int|
                    0 <= j < rlookup(f0, fc@).len() && rlookup(f0, fc@)[j].0 == tc@;
                let d0 = rlookup(f0, fc@)[j].1;
                assert(rlookup(f0, fc@).contains((tc@, d0)));
                assert(rlookup(i0, tc@).contains((fc@, d0)));
                let x = choose|x: int|
                    0 <= x < rlookup(i0, tc@).len() && rlookup(i0, tc@)[x] == (fc@, d0);
                assert(rlookup(i0, tc@)[x].0 == fc@);
            }
        }
        let removed2 = rremove_by_first(&mut self.incoming, &tc, &fc);
        proof {
            assert(removed2);
            let s1 = *self;
            assert forall|s: Seq<char>, t: Seq<char>, d: Seq<char>|
                #![trigger rlookup(s1.fwd(), s).contains((t, d))]
                #![trigger rlookup(s1.inc(), t).contains((s, d))]
                rlookup(s1.fwd(), s).contains((t, d)) == rlookup(s1.inc(), t).contains(
                (s, d),
            ) by {
                assert(rlookup(f0, s).contains((t, d)) == rlookup(i0, t).contains((s, d)));
                if s == fc@ {
                    assert(rlookup(s1.fwd(), s).contains((t, d)) == (rlookup(f0, s).contains(
                        (t, d),
                    ) && t != tc@));
                } else {
                    assert(rlookup(s1.fwd(), s) == rlookup(f0, s));
                }
                if t == tc@ {
                    assert(rlookup(s1.inc(), t).contains((s, d)) == (rlookup(i0, t).contains(
                        (s, d),
                    ) && s != fc@));
                } else {
                    assert(rlookup(s1.inc(), t) == rlookup(i0, t));
                }
            }
        }
        Ok(())
    }
}

/// Converts stored (peer, description) pairs into `Relation` values.
fn relations_of_pairs(pairs: &Vec<(Vec<char>, Vec<char>)>) -> (r: Vec<Relation>)
    ensures
        r.deep_view() == pairs.deep_view(),
{
    let mut r: Vec<Relation> = Vec::new();
    let mut i: usize = 0;
    while i < pairs.len()
        invariant
            0 <= i <= pairs.len(),
            r.deep_view() == pairs.deep_view().subrange(0, i as int),
        decreases pairs.len() - i,
    {
        let ghost before = r.deep_view();
        let rel = Relation {
            target: string_of(&pairs[i].0),
            description: string_of(&pairs[i].1),
        };
        r.push(rel);
        i = i + 1;
        proof {
            assert(r.deep_view() =~~= before.push(pairs.deep_view()[i - 1]));
            assert(r.deep_view() =~~= pairs.deep_view().subrange(0, i as int));
        }
    }
    proof {
        assert(pairs.deep_view().subrange(0, pairs.len() as int) =~~= pairs.deep_view());
    }
    r
}

impl RelationManager {
    /// The outgoing edges of a file; empty for an unknown file.
    pub fn get_file_relations(&self, file_path: &str) -> (r: Vec<Relation>)
        requires
            self.wf(),
        ensures
            r.deep_view() == self.outgoing(file_path@),
    {
        let fc = chars_of(file_path);
        let pairs = rlookup_copy(&self.forward, &fc);
        relations_of_pairs(&pairs)
    }

    /// The incoming edges of a file, each as the source file and the edge's
    /// description; empty for an unknown file.
    pub fn get_incoming_relations(&self, file_path: &str) -> (r: Vec<Relation>)
        requires
            self.wf(),
        ensures
            r.deep_view() == self.incoming_of(file_path@),
    {
        let fc = chars_of(file_path);
        let pairs = rlookup_copy(&self.incoming, &fc);
        relations_of_pairs(&pairs)
    }

    /// Whether an edge from `from_file` to `to_file` exists.
    pub fn has_relation(&self, from_file: &str, to_file: &str) -> (r: bool)
        requires
            self.wf(),
        ensures
            r == self.edge(from_file@, to_file@),
    {
        let fc = chars_of(from_file);
        let tc = chars_of(to_file);
        let pairs = rlookup_copy(&self.forward, &fc);
        pairs_contain_first(&pairs, &tc)
    }

    /// Every source file with its outgoing edges.
    pub fn get_all_relations(&self) -> (r: Vec<(String, Vec<Relation>)>)
        requires
            self.wf(),
        ensures
            r.deep_view() == self.fwd(),
    {
        let mut r: Vec<(String, Vec<Relation>)> = Vec::new();
        let mut i: usize = 0;
        while i < self.forward.len()
            invariant
                0 <= i <= self.forward.len(),
                r.deep_view() == self.fwd().subrange(0, i as int),
            decreases self.forward.len() - i,
        {
            let ghost before = r.deep_view();
            let key = string_of(&self.forward[i].0);
            let rels = relations_of_pairs(&self.forward[i].1);
            r.push((key, rels));
            i = i + 1;
            proof {
                assert(r.deep_view() =~~= before.push(self.fwd()[i - 1]));
                assert(r.deep_view() =~~= self.fwd().subrange(0, i as int));
            }
        }
        proof {
            assert(self.fwd().subrange(0, self.forward.len() as int) =~~= self.fwd());
        }
        r
    }

    /// The source files that have outgoing edges, sorted.
    pub fn get_related_files(&self) -> (r: Vec<String>)
        requires
            self.wf(),
        ensures
            r.deep_view().no_duplicates(),
            crate::lex::sorted_lex(r.deep_view()),
            forall|f: Seq<char>|
                #[trigger] r.deep_view().contains(f) == rhas_key(self.fwd(), f),
    {
        broadcast use vstd::seq_lib::group_to_multiset_ensures;

        let keys = crate::relmap::rkeys(&self.forward);
        let sorted = crate::lex::sort_strs(keys);
        let r = crate::bridge::strings_of(&sorted);
        proof {
            let sv = sorted.deep_view();
            assert forall|f: Seq<char>| #[trigger] sv.contains(f) == rhas_key(self.fwd(), f) by {
                vstd::seq_lib::to_multiset_contains::<Seq<char>>(sv, f);
            }
            assert(sv.no_duplicates()) by {
                keys.deep_view().lemma_multiset_has_no_duplicates();
                sv.lemma_multiset_has_no_duplicates_conv();
            }
        }
        r
    }

    /// Counts: sources with edges, edges in all, targets with incoming
    /// edges; the middle count clips at the usize maximum.
    pub fn get_stats(&self) -> (r: (usize, usize, usize))
        ensures
            r.0 == self.fwd().len(),
            r.1 as int == crate::relmap::clamp_usize(crate::relmap::sum_lens(self.fwd())),
            r.2 == self.inc().len(),
    {
        let total = crate::relmap::count_pairs(&self.forward);
        (self.forward.len(), total, self.incoming.len())
    }
}

/// The depth budget left below `max_depth` at `depth`, never negative.
pub open spec fn depth_fuel(max_depth: int, depth: int) -> int {
    if max_depth - depth >= 0 {
        max_depth - depth
    } else {
        0
    }
}

/// One step of the traversal: expand `file` unless the depth budget is spent
/// or it was already visited; an expanded file's outgoing edges go into the
/// graph and its targets are visited in order, one level deeper.
pub open spec fn graph_step(
    m: RelMapSeq,
    file: Seq<char>,
    max_depth: int,
    depth: int,
    g: RelMapSeq,
    vis: Seq<Seq<char>>,
) -> (RelMapSeq, Seq<Seq<char>>)
    decreases depth_fuel(max_depth, depth), 1int, 0int,
{
    if depth >= max_depth || vis.contains(file) {
        (g, vis)
    } else {
        let vis1 = vis.push(file);
        if rhas_key(m, file) {
            let rels = rlookup(m, file);
            graph_children(m, rels, 0, max_depth, depth, g.push((file, rels)), vis1)
        } else {
            (g, vis1)
        }
    }
}

/// Visits the targets `rels[i..]`, threading the graph and visited set.
pub open spec fn graph_children(
    m: RelMapSeq,
    rels: Seq<(Seq<char>, Seq<char>)>,
    i: int,
    max_depth: int,
    depth: int,
    g: RelMapSeq,
    vis: Seq<Seq<char>>,
) -> (RelMapSeq, Seq<Seq<char>>)
    decreases depth_fuel(max_depth, depth), 0int, rels.len() - i,
{
    if i < 0 || i >= rels.len() {
        (g, vis)
    } else {
        let t = rels[i].0;
        let gv = if depth + 1 < max_depth && !vis.contains(t) {
            graph_step(m, t, max_depth, depth + 1, g, vis)
        } else {
            (g, vis)
        };
        graph_children(m, rels, i + 1, max_depth, depth, gv.0, gv.1)
    }
}

/// Expands one file, mirroring `graph_step`.
fn build_graph(
    m: &RelMap,
    file: &Vec<char>,
    max_depth: usize,
    depth: usize,
    g: &mut RelMap,
    vis: &mut Vec<Vec<char>>,
)
    requires
        rmap_wf(m.deep_view()),
    ensures
        (final(g).deep_view(), final(vis).deep_view()) == graph_step(
            m.deep_view(),
            file@,
            max_depth as int,
            depth as int,
            old(g).deep_view(),
            old(vis).deep_view(),
        ),
    decreases depth_fuel(max_depth as int, depth as int), 1int, 0int,
{
    if depth >= max_depth {
        return ;
    }
    if crate::strset::strs_contains(vis, file) {
        return ;
    }
    let ghost vis0 = vis.deep_view();
    vis.push(crate::text::copy_chars(file));
    proof {
        assert(vis.deep_view() =~~= vis0.push(file@));
    }
    match rfind(m, file) {
        Some(i) => {
            proof {
                lemma_rlookup_entry(m.deep_view(), i as int);
            }
            let ghost g0 = g.deep_view();
            let key = crate::text::copy_chars(file);
            let rels = crate::relmap::pairs_copy(&m[i].1);
            let rels2 = crate::relmap::pairs_copy(&m[i].1);
            g.push((key, rels));
            proof {
                assert(g.deep_view() =~~= g0.push((file@, rlookup(m.deep_view(), file@))));
            }
            build_children(m, &rels2, 0, max_depth, depth, g, vis);
        },
        None => {},
    }
}

/// Visits each target of `rels` from `i` on, mirroring `graph_children`.
fn build_children(
    m: &RelMap,
    rels: &Vec<(Vec<char>, Vec<char>)>,
    i: usize,
    max_depth: usize,
    depth: usize,
    g: &mut RelMap,
    vis: &mut Vec<Vec<char>>,
)
    requires
        rmap_wf(m.deep_view()),
        depth < max_depth,
    ensures
        (final(g).deep_view(), final(vis).deep_view()) == graph_children(
            m.deep_view(),
            rels.deep_view(),
            i as int,
            max_depth as int,
            depth as int,
            old(g).deep_view(),
            old(vis).deep_view(),
        ),
    decreases depth_fuel(max_depth as int, depth as int), 0int, rels.len() - i,
{
    if i >= rels.len() {
        return ;
    }
    proof {
        assert(rels.deep_view()[i as int].0 == rels[i as int].0@);
    }
    if depth + 1 < max_depth && !crate::strset::strs_contains(vis, &rels[i].0) {
        build_graph(m, &rels[i].0, max_depth, depth + 1, g, vis);
    }
    build_children(m, rels, i + 1, max_depth, depth, g, vis);
}

impl RelationManager {
    /// The subgraph reachable from `file_path` within `max_depth` levels:
    /// each expanded file with its outgoing edges. A file already visited is
    /// not expanded again, so a cycle ends the walk instead of looping.
    pub fn get_relation_graph(&self, file_path: &str, max_depth: usize) -> (r: Vec<
        (String, Vec<Relation>),
    >)
        requires
            self.wf(),
        ensures
            r.deep_view() == graph_step(
                self.fwd(),
                file_path@,
                max_depth as int,
                0,
                Seq::empty(),
                Seq::empty(),
            ).0,
    {
        let fc = chars_of(file_path);
        let mut g: RelMap = Vec::new();
        let mut vis: Vec<Vec<char>> = Vec::new();
        proof {
            assert(g.deep_view() =~~= Seq::<(Seq<char>, Seq<(Seq<char>, Seq<char>)>)>::empty());
            assert(vis.deep_view() =~~= Seq::<Seq<char>>::empty());
        }
        build_graph(&self.forward, &fc, max_depth, 0, &mut g, &mut vis);
        let mut r: Vec<(String, Vec<Relation>)> = Vec::new();
        let mut i: usize = 0;
        while i < g.len()
            invariant
                0 <= i <= g.len(),
                r.deep_view() == g.deep_view().subrange(0, i as int),
            decreases g.len() - i,
        {
            let ghost before = r.deep_view();
            let key = string_of(&g[i].0);
            let rels = relations_of_pairs(&g[i].1);
            r.push((key, rels));
            i = i + 1;
            proof {
                assert(r.deep_view() =~~= before.push(g.deep_view()[i - 1]));
                assert(r.deep_view() =~~= g.deep_view().subrange(0, i as int));
            }
        }
        proof {
            assert(g.deep_view().subrange(0, g.len() as int) =~~= g.deep_view());
        }
        r
    }
}

/// Some row among the first `i` of `f` has key `s` and holds the pair
/// `(t, d)`.
pub open spec fn fwd_prefix_has(
    f: RelMapSeq,
    i: int,
    s: Seq<char>,
    t: Seq<char>,
    d: Seq<char>,
) -> bool {
    exists|a: int| 0 <= a < i && f[a].0 == s && f[a].1.contains((t, d))
}

impl RelationManager {
    /// Rebuilds the reverse index from the forward index.
    pub fn build_incoming_index(&mut self)
        requires
            rmap_wf(old(self).fwd()),
        ensures
            final(self).wf(),
            final(self).fwd() == old(self).fwd(),
    {
        let ghost f = self.fwd();
        let mut inc: RelMap = Vec::new();
        let mut i: usize = 0;
        proof {
            assert forall|s: Seq<char>, t: Seq<char>, d: Seq<char>|
                !(#[trigger] rlookup(inc.deep_view(), t).contains((s, d))) by {}
        }
        while i < self.forward.len()
            invariant
                0 <= i <= self.forward.len(),
                f == self.fwd(),
                rmap_wf(f),
                rmap_wf(inc.deep_view()),
                forall|s: Seq<char>, t: Seq<char>, d: Seq<char>|
                    #[trigger] rlookup(inc.deep_view(), t).contains((s, d)) == fwd_prefix_has(
                        f,
                        i as int,
                        s,
                        t,
                        d,
                    ),
            decreases self.forward.len() - i,
        {
            let row_key = &self.forward[i].0;
            let mut j: usize = 0;
            proof {
                assert(self.fwd()[i as int].0 == self.forward[i as int].0@);
                assert(self.fwd()[i as int].1 == self.forward[i as int].1.deep_view());
            }
            while j < self.forward[i].1.len()
                invariant
                    0 <= i < self.forward.len(),
                    0 <= j <= f[i as int].1.len(),
                    f == self.fwd(),
                    rmap_wf(f),
                    rmap_wf(inc.deep_view()),
                    f[i as int].1.len() == self.forward[i as int].1.len(),
                    row_key@ == f[i as int].0,
                    forall|s: Seq<char>, t: Seq<char>, d: Seq<char>|
                        #[trigger] rlookup(inc.deep_view(), t).contains((s, d))
                            == (fwd_prefix_has(f, i as int, s, t, d) || (s == f[i as int].0
                            && f[i as int].1.subrange(0, j as int).contains((t, d)))),
                decreases self.forward[i as int].1.len() - j,
            {
                let ghost inc0 = inc.deep_view();
                let ghost skey = f[i as int].0;
                let ghost pair = f[i as int].1[j as int];
                proof {
                    assert(self.forward[i as int].1.deep_view()[j as int] == (self.forward[i
                        as int].1[j as int].0@, self.forward[i as int].1[j as int].1@));
                    assert(!firsts_contain(rlookup(inc0, pair.0), skey)) by {
                        if firsts_contain(rlookup(inc0, pair.0), skey) {
                            let x = choose|x: int|
                                0 <= x < rlookup(inc0, pair.0).len() && rlookup(
                                    inc0,
                                    pair.0,
                                )[x].0 == skey;
                            let d0 = rlookup(inc0, pair.0)[x].1;
                            assert(rlookup(inc0, pair.0).contains((skey, d0)));
                            if fwd_prefix_has(f, i as int, skey, pair.0, d0) {
                                let a = choose|a: int|
                                    0 <= a < i && f[a].0 == skey && f[a].1.contains(
                                        (pair.0, d0),
                                    );
                                assert(f[a].0 == f[i as int].0 && a != i);
                            } else {
                                let pre = f[i as int].1.subrange(0, j as int);
                                assert(pre.contains((pair.0, d0)));
                                let b = choose|b: int|
                                    0 <= b < pre.len() && pre[b] == (pair.0, d0);
                                assert(f[i as int].1[b] == (pair.0, d0));
                                assert(f[i as int].1[b].0 == f[i as int].1[j as int].0 && b
                                    != j);
                            }
                        }
                    }
                }
                let tkey = crate::text::copy_chars(&self.forward[i].1[j].0);
                let dval = crate::text::copy_chars(&self.forward[i].1[j].1);
                let skeyv = crate::text::copy_chars(row_key);
                proof {
                    assert(tkey@ == pair.0 && dval@ == pair.1 && skeyv@ == skey);
                }
                radd_pair(&mut inc, &tkey, &skeyv, &dval);
                j = j + 1;
                proof {
                    lemma_pair_contains_push(rlookup(inc0, pair.0), (skey, pair.1));
                    let cur = f[i as int].1.subrange(0, j as int);
                    let pre = f[i as int].1.subrange(0, j - 1);
                    assert(cur =~~= pre.push(pair));
                    lemma_pair_contains_push(pre, pair);
                    assert forall|s: Seq<char>, t: Seq<char>, d: Seq<char>|
                        #[trigger] rlookup(inc.deep_view(), t).contains((s, d))
                            == (fwd_prefix_has(f, i as int, s, t, d) || (s == f[i as int].0
                            && cur.contains((t, d)))) by {
                        if t == pair.0 {
                            assert(rlookup(inc.deep_view(), t) == rlookup(inc0, t).push(
                                (skey, pair.1),
                            ));
                        } else {
                            assert(rlookup(inc.deep_view(), t) == rlookup(inc0, t));
                        }
                    }
                }
            }
            i = i + 1;
            proof {
                assert(f[i - 1].1.subrange(0, f[i - 1].1.len() as int) =~~= f[i - 1].1);
                assert forall|s: Seq<char>, t: Seq<char>, d: Seq<char>|
                    #[trigger] rlookup(inc.deep_view(), t).contains((s, d)) == fwd_prefix_has(
                    f,
                    i as int,
                    s,
                    t,
                    d,
                ) by {
                    if fwd_prefix_has(f, i as int, s, t, d) {
                        let a = choose|a: int|
                            0 <= a < i && f[a].0 == s && f[a].1.contains((t, d));
                        if a < i - 1 {
                            assert(fwd_prefix_has(f, i - 1, s, t, d));
                        } else {
                            assert(s == f[i - 1].0 && f[i - 1].1.contains((t, d)));
                        }
                    }
                    if fwd_prefix_has(f, i - 1, s, t, d) {
                        let a = choose|a: int|
                            0 <= a < i - 1 && f[a].0 == s && f[a].1.contains((t, d));
                        assert(fwd_prefix_has(f, i as int, s, t, d));
                    }
                    if s == f[i - 1].0 && f[i - 1].1.contains((t, d)) {
                        assert(fwd_prefix_has(f, i as int, s, t, d));
                    }
                }
            }
        }
        self.incoming = inc;
        proof {
            let s1 = *self;
            assert forall|s: Seq<char>, t: Seq<char>, d: Seq<char>|
                #![trigger rlookup(s1.fwd(), s).contains((t, d))]
                #![trigger rlookup(s1.inc(), t).contains((s, d))]
                rlookup(s1.fwd(), s).contains((t, d)) == rlookup(s1.inc(), t).contains(
                (s, d),
            ) by {
                assert(rlookup(s1.inc(), t).contains((s, d)) == fwd_prefix_has(
                    f,
                    f.len() as int,
                    s,
                    t,
                    d,
                ));
                if rlookup(f, s).contains((t, d)) {
                    assert(rhas_key(f, s));
                    let a = crate::relmap::ridx_of(f, s);
                    lemma_rlookup_entry(f, a);
                    assert(f[a].0 == s && f[a].1.contains((t, d)));
                }
                if fwd_prefix_has(f, f.len() as int, s, t, d) {
                    let a = choose|a: int|
                        0 <= a < f.len() && f[a].0 == s && f[a].1.contains((t, d));
                    lemma_rlookup_entry(f, a);
                }
            }
        }
    }
}

/// Keeps the pairs whose first component is not among `miss`, in order.
fn filter_pairs(l: &Vec<(Vec<char>, Vec<char>)>, miss: &Vec<Vec<char>>) -> (kept: Vec<
    (Vec<char>, Vec<char>),
>)
    requires
        crate::relmap::firsts_distinct(l.deep_view()),
    ensures
        kept.len() <= l.len(),
        crate::relmap::firsts_distinct(kept.deep_view()),
        forall|p: (Seq<char>, Seq<char>)|
            #[trigger] kept.deep_view().contains(p) == (l.deep_view().contains(p)
                && !miss.deep_view().contains(p.0)),
{
    let mut kept: Vec<(Vec<char>, Vec<char>)> = Vec::new();
    let mut i: usize = 0;
    while i < l.len()
        invariant
            0 <= i <= l.len(),
            kept.len() <= i,
            crate::relmap::firsts_distinct(l.deep_view()),
            forall|k: int|
                0 <= k < kept.deep_view().len() ==> exists|a: int|
                    0 <= a < i && #[trigger] kept.deep_view()[k] == l.deep_view()[a],
            crate::relmap::firsts_distinct(kept.deep_view()),
            forall|p: (Seq<char>, Seq<char>)|
                #[trigger] kept.deep_view().contains(p) == (l.deep_view().subrange(
                    0,
                    i as int,
                ).contains(p) && !miss.deep_view().contains(p.0)),
        decreases l.len() - i,
    {
        let ghost kv0 = kept.deep_view();
        let ghost lv = l.deep_view();
        let ghost x = lv[i as int];
        proof {
            assert((l[i as int].0@, l[i as int].1@) == x);
        }
        let hit = crate::strset::strs_contains(miss, &l[i].0);
        if !hit {
            let a = crate::text::copy_chars(&l[i].0);
            let b = crate::text::copy_chars(&l[i].1);
            kept.push((a, b));
            proof {
                assert(kept.deep_view() =~~= kv0.push(x));
                lemma_pair_contains_push(kv0, x);
                assert forall|k: int|
                    0 <= k < kept.deep_view().len() implies exists|a2: int|
                    0 <= a2 < i + 1 && #[trigger] kept.deep_view()[k] == lv[a2] by {
                    if k < kv0.len() {
                        let a2 = choose|a2: int| 0 <= a2 < i && kv0[k] == lv[a2];
                        assert(kept.deep_view()[k] == lv[a2]);
                    } else {
                        assert(kept.deep_view()[k] == lv[i as int]);
                    }
                }
                assert(crate::relmap::firsts_distinct(kept.deep_view())) by {
                    assert forall|p: int, q: int|
                        0 <= p < q < kept.deep_view().len() implies kept.deep_view()[p].0 != kept
                        .deep_view()[q].0 by {
                        if q == kept.deep_view().len() - 1 {
                            let a2 = choose|a2: int| 0 <= a2 < i && kv0[p] == lv[a2];
                            assert(kept.deep_view()[p] == lv[a2]);
                            assert(lv[a2].0 != lv[i as int].0);
                        }
                    }
                }
            }
        }
        i = i + 1;
        proof {
            let pre = lv.subrange(0, i - 1);
            let cur = lv.subrange(0, i as int);
            assert(cur =~~= pre.push(x));
            lemma_pair_contains_push(pre, x);
        }
    }
    proof {
        assert(l.deep_view().subrange(0, l.len() as int) =~~= l.deep_view());
    }
    kept
}

impl RelationManager {
    /// Drops every edge whose source or target is among the files reported
    /// missing, rebuilds the reverse index, and returns how many edges left
    /// (clipped at the usize maximum). The filesystem check itself is the
    /// collaborator's job; this takes its result.
    pub fn cleanup_invalid_relations(&mut self, missing_files: &Vec<String>) -> (r: usize)
        requires
            old(self).wf(),
        ensures
            final(self).wf(),
            forall|s: Seq<char>, t: Seq<char>, d: Seq<char>|
                #[trigger] rlookup(final(self).fwd(), s).contains((t, d)) == (rlookup(
                    old(self).fwd(),
                    s,
                ).contains((t, d)) && !missing_files.deep_view().contains(s)
                    && !missing_files.deep_view().contains(t)),
            r as int == crate::relmap::clamp_usize(
                crate::relmap::sum_lens(old(self).fwd()) - crate::relmap::sum_lens(
                    final(self).fwd(),
                ),
            ),
    {
        let miss = crate::bridge::chars_of_strings(missing_files);
        let ghost ms = missing_files.deep_view();
        let ghost f0 = self.fwd();
        let mut newf: RelMap = Vec::new();
        let mut removed: usize = 0;
        let mut i: usize = 0;
        proof {
            assert(newf.deep_view().len() == 0);
            assert(crate::relmap::sum_lens(f0.subrange(0, 0)) == 0);
        }
        while i < self.forward.len()
            invariant
                0 <= i <= self.forward.len(),
                f0 == self.fwd(),
                rmap_wf(f0),
                ms == missing_files.deep_view(),
                miss.deep_view() == ms,
                rmap_wf(newf.deep_view()),
                forall|s: Seq<char>, t: Seq<char>, d: Seq<char>|
                    #[trigger] rlookup(newf.deep_view(), s).contains((t, d)) == (fwd_prefix_has(
                        f0,
                        i as int,
                        s,
                        t,
                        d,
                    ) && !ms.contains(s) && !ms.contains(t)),
                forall|k: Seq<char>|
                    #[trigger] rhas_key(newf.deep_view(), k) ==> exists|a: int|
                        0 <= a < i && f0[a].0 == k,
                removed as int == crate::relmap::clamp_usize(
                    crate::relmap::sum_lens(f0.subrange(0, i as int)) - crate::relmap::sum_lens(
                        newf.deep_view(),
                    ),
                ),
            decreases self.forward.len() - i,
        {
            let ghost nf0 = newf.deep_view();
            let ghost key = f0[i as int].0;
            let ghost row = f0[i as int].1;
            proof {
                assert(self.forward[i as int].0@ == key);
                assert(self.forward[i as int].1.deep_view() == row);
                crate::relmap::lemma_sum_lens_nonneg_pub(nf0);
                crate::relmap::lemma_sum_lens_nonneg_pub(f0.subrange(0, i as int));
                crate::relmap::lemma_sum_lens_prefix(f0, i as int);
            }
            let len_i = self.forward[i].1.len();
            let key_missing = crate::strset::strs_contains(&miss, &self.forward[i].0);
            if key_missing {
                if removed <= usize::MAX - len_i {
                    removed = removed + len_i;
                } else {
                    removed = usize::MAX;
                }
                proof {
                    assert forall|s: Seq<char>, t: Seq<char>, d: Seq<char>|
                        #[trigger] rlookup(nf0, s).contains((t, d)) == (fwd_prefix_has(
                        f0,
                        i + 1,
                        s,
                        t,
                        d,
                    ) && !ms.contains(s) && !ms.contains(t)) by {
                        lemma_fwd_prefix_snoc(f0, i as int, s, t, d);
                        if s == key && f0[i as int].1.contains((t, d)) {
                            assert(ms.contains(s));
                        }
                    }
                }
            } else {
                let kept = filter_pairs(&self.forward[i].1, &miss);
                let kept_n = kept.len();
                let ghost kv = kept.deep_view();
                if kept.len() > 0 {
                    let keyv = crate::text::copy_chars(&self.forward[i].0);
                    proof {
                        assert(!rhas_key(nf0, key)) by {
                            if rhas_key(nf0, key) {
                                let a = choose|a: int| 0 <= a < i && f0[a].0 == key;
                                assert(f0[a].0 == f0[i as int].0 && a != i);
                            }
                        }
                    }
                    newf.push((keyv, kept));
                    proof {
                        assert(newf.deep_view() =~~= nf0.push((key, kv)));
                        crate::relmap::lemma_rappend_entry_pub(nf0, key, kv);
                        assert(crate::relmap::rentries_wf(newf.deep_view())) by {
                            assert forall|j: int|
                                0 <= j < newf.deep_view().len() implies crate::relmap::firsts_distinct(
                                (#[trigger] newf.deep_view()[j]).1,
                            ) && newf.deep_view()[j].1.len() > 0 by {
                                if j < nf0.len() {
                                    assert(newf.deep_view()[j] == nf0[j]);
                                }
                            }
                        }
                        assert(crate::relmap::sum_lens(newf.deep_view()) == crate::relmap::sum_lens(
                            nf0,
                        ) + kv.len()) by {
                            assert(newf.deep_view().drop_last() =~~= nf0);
                        }
                    }
                }
                let delta = len_i - kept_n;
                if removed <= usize::MAX - delta {
                    removed = removed + delta;
                } else {
                    removed = usize::MAX;
                }
                proof {
                    assert forall|s: Seq<char>, t: Seq<char>, d: Seq<char>|
                        #[trigger] rlookup(newf.deep_view(), s).contains((t, d))
                            == (fwd_prefix_has(f0, i + 1, s, t, d) && !ms.contains(s)
                            && !ms.contains(t)) by {
                        lemma_fwd_prefix_snoc(f0, i as int, s, t, d);
                        if kv.len() > 0 {
                            if s == key {
                                assert(rlookup(newf.deep_view(), s) == kv);
                            } else {
                                assert(rlookup(newf.deep_view(), s) == rlookup(nf0, s));
                            }
                        } else {
                            if s == key && f0[i as int].1.contains((t, d)) && !ms.contains(t) {
                                assert(kv.contains((t, d)));
                            }
                            if rlookup(nf0, s).contains((t, d)) && s == key {
                                let a = choose|a: int|
                                    0 <= a < nf0.len() && nf0[a].0 == s;
                                assert(rhas_key(nf0, key));
                                let a2 = choose|a2: int| 0 <= a2 < i && f0[a2].0 == key;
                                assert(f0[a2].0 == f0[i as int].0 && a2 != i);
                            }
                        }
                    }
                    assert forall|k: Seq<char>|
                        #[trigger] rhas_key(newf.deep_view(), k) implies exists|a: int|
                        0 <= a < i + 1 && f0[a].0 == k by {
                        if rhas_key(nf0, k) {
                            let a = choose|a: int| 0 <= a < i && f0[a].0 == k;
                            assert(0 <= a < i + 1 && f0[a].0 == k);
                        } else {
                            assert(f0[i as int].0 == k);
                        }
                    }
                }
            }
            i = i + 1;
            proof {
                assert(f0.subrange(0, i as int).drop_last() =~~= f0.subrange(0, i - 1));
                assert(crate::relmap::sum_lens(f0.subrange(0, i as int)) == crate::relmap::sum_lens(
                    f0.subrange(0, i - 1),
                ) + row.len());
            }
        }
        proof {
            assert(f0.subrange(0, self.forward.len() as int) =~~= f0);
        }
        self.forward = newf;
        self.build_incoming_index();
        proof {
            assert forall|s: Seq<char>, t: Seq<char>, d: Seq<char>|
                #[trigger] rlookup(final(self).fwd(), s).contains((t, d)) == (rlookup(
                f0,
                s,
            ).contains((t, d)) && !ms.contains(s) && !ms.contains(t)) by {
                assert(rlookup(final(self).fwd(), s).contains((t, d)) == (fwd_prefix_has(
                    f0,
                    f0.len() as int,
                    s,
                    t,
                    d,
                ) && !ms.contains(s) && !ms.contains(t)));
                if rlookup(f0, s).contains((t, d)) {
                    assert(rhas_key(f0, s));
                    let a = crate::relmap::ridx_of(f0, s);
                    lemma_rlookup_entry(f0, a);
                }
                if fwd_prefix_has(f0, f0.len() as int, s, t, d) {
                    let a = choose|a: int|
                        0 <= a < f0.len() && f0[a].0 == s && f0[a].1.contains((t, d));
                    lemma_rlookup_entry(f0, a);
                }
            }
        }
        removed
    }
}

proof fn lemma_fwd_prefix_snoc(f: RelMapSeq, i: int, s: Seq<char>, t: Seq<char>, d: Seq<char>)
    requires
        0 <= i < f.len(),
    ensures
        fwd_prefix_has(f, i + 1, s, t, d) == (fwd_prefix_has(f, i, s, t, d) || (s == f[i].0
            && f[i].1.contains((t, d)))),
{
    if fwd_prefix_has(f, i + 1, s, t, d) {
        let a = choose|a: int| 0 <= a < i + 1 && f[a].0 == s && f[a].1.contains((t, d));
        if a < i {
            assert(fwd_prefix_has(f, i, s, t, d));
        }
    }
    if fwd_prefix_has(f, i, s, t, d) {
        let a = choose|a: int| 0 <= a < i && f[a].0 == s && f[a].1.contains((t, d));
        assert(0 <= a < i + 1 && f[a].0 == s && f[a].1.contains((t, d)));
    }
    if s == f[i].0 && f[i].1.contains((t, d)) {
        assert(0 <= i < i + 1 && f[i].0 == s && f[i].1.contains((t, d)));
    }
}

/// An edge description matches a keyword: the lowercased keyword occurs in
/// the lowercased description. An empty keyword matches everything.
pub open spec fn desc_matches(d: Seq<char>, keyword: Seq<char>) -> bool {
    crate::text::contains_seq(crate::bridge::lower_of(d), crate::bridge::lower_of(keyword))
}

impl RelationManager {
    /// Every edge whose description contains the keyword, case-insensitively,
    /// as (source file, edge) pairs sorted by source file.
    pub fn query_relations_by_description(&self, keyword: &str) -> (r: Vec<(String, Relation)>)
        requires
            self.wf(),
        ensures
            forall|s: Seq<char>, p: (Seq<char>, Seq<char>)|
                #[trigger] r.deep_view().contains((s, p)) == (rlookup(self.fwd(), s).contains(p)
                    && desc_matches(p.1, keyword@)),
            forall|k1: int, k2: int|
                0 <= k1 < k2 < r.deep_view().len() ==> crate::lex::lex_le(
                    (#[trigger] r.deep_view()[k1]).0,
                    (#[trigger] r.deep_view()[k2]).0,
                ),
    {
        broadcast use vstd::seq_lib::group_to_multiset_ensures;

        let kw_low = crate::bridge::lowercase(keyword);
        let kwc = chars_of(kw_low.as_str());
        let keys = crate::relmap::rkeys(&self.forward);
        let ghost keys_dv = keys.deep_view();
        let skeys = crate::lex::sort_strs(keys);
        let ghost skv = skeys.deep_view();
        proof {
            assert forall|f: Seq<char>| #[trigger] skv.contains(f) == rhas_key(self.fwd(), f) by {
                vstd::seq_lib::to_multiset_contains::<Seq<char>>(skv, f);
                vstd::seq_lib::to_multiset_contains::<Seq<char>>(keys_dv, f);
            }
            assert(skv.no_duplicates()) by {
                keys_dv.lemma_multiset_has_no_duplicates();
                skv.lemma_multiset_has_no_duplicates_conv();
            }
        }
        let mut r: Vec<(String, Relation)> = Vec::new();
        let mut i: usize = 0;
        while i < skeys.len()
            invariant
                0 <= i <= skeys.len(),
                self.wf(),
                skv == skeys.deep_view(),
                crate::lex::sorted_lex(skv),
                skv.no_duplicates(),
                kwc@ == crate::bridge::lower_of(keyword@),
                forall|f: Seq<char>| #[trigger] skv.contains(f) == rhas_key(self.fwd(), f),
                forall|s: Seq<char>, p: (Seq<char>, Seq<char>)|
                    #[trigger] r.deep_view().contains((s, p)) == (skv.subrange(
                        0,
                        i as int,
                    ).contains(s) && rlookup(self.fwd(), s).contains(p) && desc_matches(
                        p.1,
                        keyword@,
                    )),
                forall|k: int|
                    0 <= k < r.deep_view().len() ==> skv.subrange(0, i as int).contains(
                        (#[trigger] r.deep_view()[k]).0,
                    ),
                forall|k1: int, k2: int|
                    0 <= k1 < k2 < r.deep_view().len() ==> crate::lex::lex_le(
                        (#[trigger] r.deep_view()[k1]).0,
                        (#[trigger] r.deep_view()[k2]).0,
                    ),
            decreases skeys.len() - i,
        {
            let ghost key = skv[i as int];
            proof {
                assert(skeys[i as int]@ == key);
                assert(skv.contains(key));
            }
            let pairs = rlookup_copy(&self.forward, &skeys[i]);
            let ghost pv = pairs.deep_view();
            let mut j: usize = 0;
            while j < pairs.len()
                invariant
                    0 <= j <= pairs.len(),
                    0 <= i < skv.len(),
                    self.wf(),
                    key == skv[i as int],
                    skeys[i as int]@ == key,
                    skv == skeys.deep_view(),
                    crate::lex::sorted_lex(skv),
                    skv.no_duplicates(),
                    kwc@ == crate::bridge::lower_of(keyword@),
                    pv == pairs.deep_view(),
                    pv == rlookup(self.fwd(), key),
                    forall|f: Seq<char>| #[trigger] skv.contains(f) == rhas_key(self.fwd(), f),
                    forall|s: Seq<char>, p: (Seq<char>, Seq<char>)|
                        #[trigger] r.deep_view().contains((s, p)) == ((skv.subrange(
                            0,
                            i as int,
                        ).contains(s) && rlookup(self.fwd(), s).contains(p) && desc_matches(
                            p.1,
                            keyword@,
                        )) || (s == key && pv.subrange(0, j as int).contains(p) && desc_matches(
                            p.1,
                            keyword@,
                        ))),
                    forall|k: int|
                        0 <= k < r.deep_view().len() ==> crate::lex::lex_le(
                            (#[trigger] r.deep_view()[k]).0,
                            key,
                        ),
                    forall|k1: int, k2: int|
                        0 <= k1 < k2 < r.deep_view().len() ==> crate::lex::lex_le(
                            (#[trigger] r.deep_view()[k1]).0,
                            (#[trigger] r.deep_view()[k2]).0,
                        ),
                decreases pairs.len() - j,
            {
                let ghost rv0 = r.deep_view();
                let ghost pr = pv[j as int];
                proof {
                    assert((pairs[j as int].0@, pairs[j as int].1@) == pr);
                }
                let dstr = string_of(&pairs[j].1);
                let dlow = crate::bridge::lowercase(dstr.as_str());
                let dlc = chars_of(dlow.as_str());
                let hit = if kwc.len() == 0 {
                    proof {
                        assert(dlc@.subrange(0, 0) =~= kwc@);
                        assert(crate::text::is_match_at(dlc@, kwc@, 0));
                    }
                    true
                } else {
                    crate::text::contains_sub(&dlc, &kwc)
                };
                if hit {
                    let entry = (
                        string_of(&skeys[i]),
                        Relation { target: string_of(&pairs[j].0), description: string_of(&pairs[j].1) },
                    );
                    r.push(entry);
                    proof {
                        assert(r.deep_view() =~~= rv0.push((key, pr)));
                        assert forall|s: Seq<char>, p: (Seq<char>, Seq<char>)|
                            #[trigger] r.deep_view().contains((s, p)) == (rv0.contains((s, p))
                                || (s, p) == (key, pr)) by {
                            let rv = r.deep_view();
                            if rv.contains((s, p)) {
                                let k = choose|k: int| 0 <= k < rv.len() && rv[k] == (s, p);
                                if k < rv0.len() {
                                    assert(rv0[k] == (s, p));
                                }
                            }
                            if rv0.contains((s, p)) {
                                let k = choose|k: int| 0 <= k < rv0.len() && rv0[k] == (s, p);
                                assert(rv[k] == (s, p));
                            }
                            if (s, p) == (key, pr) {
                                assert(rv[rv.len() - 1] == (s, p));
                            }
                        }
                        crate::lex::lemma_lex_le_reflexive(key);
                    }
                }
                j = j + 1;
                proof {
                    let pre = pv.subrange(0, j - 1);
                    let cur = pv.subrange(0, j as int);
                    assert(cur =~~= pre.push(pr));
                    lemma_pair_contains_push(pre, pr);
                }
            }
            i = i + 1;
            proof {
                let pre = skv.subrange(0, i - 1);
                let cur = skv.subrange(0, i as int);
                assert(cur =~~= pre.push(key));
                crate::strset::lemma_contains_push(pre, key);
                assert(pv.subrange(0, pv.len() as int) =~~= pv);
                assert forall|s: Seq<char>, p: (Seq<char>, Seq<char>)|
                    #[trigger] r.deep_view().contains((s, p)) == (cur.contains(s) && rlookup(
                    self.fwd(),
                    s,
                ).contains(p) && desc_matches(p.1, keyword@)) by {
                    if s == key {
                        assert(pv == rlookup(self.fwd(), key));
                    }
                }
                assert forall|k: int|
                    0 <= k < r.deep_view().len() implies cur.contains(
                    (#[trigger] r.deep_view()[k]).0,
                ) by {
                    let s = r.deep_view()[k].0;
                    let p = r.deep_view()[k].1;
                    assert(r.deep_view().contains((s, p)));
                }
                if i < skv.len() {
                    assert forall|k: int|
                        0 <= k < r.deep_view().len() implies crate::lex::lex_le(
                        (#[trigger] r.deep_view()[k]).0,
                        skv[i as int],
                    ) by {
                        let s = r.deep_view()[k].0;
                        assert(cur.contains(s));
                        let a = choose|a: int| 0 <= a < cur.len() && cur[a] == s;
                        assert(skv[a] == s);
                        assert(crate::lex::lex_le(skv[a], skv[i as int]));
                    }
                }
            }
        }
        proof {
            assert(skv.subrange(0, skeys.len() as int) =~~= skv);
            assert forall|s: Seq<char>, p: (Seq<char>, Seq<char>)|
                #[trigger] r.deep_view().contains((s, p)) == (rlookup(self.fwd(), s).contains(p)
                    && desc_matches(p.1, keyword@)) by {
                if rlookup(self.fwd(), s).contains(p) {
                    assert(rhas_key(self.fwd(), s)) by {
                        if !rhas_key(self.fwd(), s) {
                            assert(rlookup(self.fwd(), s).len() == 0);
                        }
                    }
                    assert(skv.contains(s));
                }
            }
        }
        r
    }
}

impl RelationManager {
    /// The snapshot of the dataset, as the persistence gateway stores it.
    pub fn to_data(&self) -> (r: RelationsData)
        requires
            self.wf(),
        ensures
            r.file_relations.deep_view() == self.fwd(),
    {
        RelationsData { file_relations: self.get_all_relations() }
    }

    /// Builds the graph from a stored snapshot and derives the reverse
    /// index. The snapshot must be well-formed: unique source files, at most
    /// one edge per ordered pair, no empty edge lists, no blank description.
    pub fn from_data(data: &RelationsData) -> (r: Result<RelationManager, CodeNexusError>)
        ensures
            r is Ok <==> (rmap_wf(data.file_relations.deep_view()) && (forall|i: int, j: int|
                0 <= i < data.file_relations.deep_view().len() && 0 <= j
                    < data.file_relations.deep_view()[i].1.len() ==> trim_spec(
                    (#[trigger] data.file_relations.deep_view()[i].1[j]).1,
                ).len() > 0)),
            match r {
                Ok(m) => m.wf() && m.fwd() == data.file_relations.deep_view(),
                Err(e) => e is SerializationError,
            },
    {
        let ghost dv = data.file_relations.deep_view();
        let mut fwd: RelMap = Vec::new();
        let mut i: usize = 0;
        while i < data.file_relations.len()
            invariant
                0 <= i <= data.file_relations.len(),
                dv == data.file_relations.deep_view(),
                fwd.deep_view() == dv.subrange(0, i as int),
                rmap_wf(fwd.deep_view()),
                forall|a: int, b: int|
                    0 <= a < i && 0 <= b < dv[a].1.len() ==> trim_spec(
                        (#[trigger] dv[a].1[b]).1,
                    ).len() > 0,
            decreases data.file_relations.len() - i,
        {
            let ghost fwd0 = fwd.deep_view();
            let row = &data.file_relations[i];
            let key = chars_of(row.0.as_str());
            proof {
                assert(dv[i as int].0 == row.0@);
                assert(dv[i as int].1 == row.1.deep_view());
            }
            match rfind(&fwd, &key) {
                Some(_) => {
                    proof {
                        let a = choose|a: int|
                            0 <= a < fwd0.len() && fwd0[a].0 == key@;
                        assert(dv[a].0 == dv[i as int].0 && a != i);
                    }
                    return Err(CodeNexusError::SerializationError(String::new()));
                },
                None => {},
            }
            if row.1.len() == 0 {
                proof {
                    assert(dv[i as int].1.len() == 0);
                }
                return Err(CodeNexusError::SerializationError(String::new()));
            }
            let mut pairs: Vec<(Vec<char>, Vec<char>)> = Vec::new();
            let mut j: usize = 0;
            while j < row.1.len()
                invariant
                    0 <= j <= row.1.len(),
                    dv == data.file_relations.deep_view(),
                    0 <= i < dv.len(),
                    dv[i as int].1 == row.1.deep_view(),
                    pairs.deep_view() == dv[i as int].1.subrange(0, j as int),
                    crate::relmap::firsts_distinct(pairs.deep_view()),
                    forall|b: int|
                        0 <= b < j ==> trim_spec((#[trigger] dv[i as int].1[b]).1).len() > 0,
                decreases row.1.len() - j,
            {
                let ghost pv0 = pairs.deep_view();
                let rel = &row.1[j];
                proof {
                    assert(dv[i as int].1[j as int] == (rel.target@, rel.description@));
                }
                let tc = chars_of(rel.target.as_str());
                let dc = chars_of(rel.description.as_str());
                if pairs_contain_first(&pairs, &tc) {
                    proof {
                        let b = choose|b: int|
                            0 <= b < pv0.len() && pv0[b].0 == tc@;
                        assert(dv[i as int].1[b].0 == dv[i as int].1[j as int].0 && b != j);
                        assert(!crate::relmap::firsts_distinct(dv[i as int].1));
                    }
                    return Err(CodeNexusError::SerializationError(String::new()));
                }
                let dt = crate::text::trim(&dc);
                if dt.len() == 0 {
                    return Err(CodeNexusError::SerializationError(String::new()));
                }
                pairs.push((tc, dc));
                j = j + 1;
                proof {
                    assert(pairs.deep_view() =~~= pv0.push(dv[i as int].1[j - 1]));
                    assert(pairs.deep_view() =~~= dv[i as int].1.subrange(0, j as int));
                    lemma_pair_contains_push(pv0, dv[i as int].1[j - 1]);
                    assert(crate::relmap::firsts_distinct(pairs.deep_view())) by {
                        assert forall|p: int, q: int|
                            0 <= p < q < pairs.deep_view().len() implies pairs.deep_view()[p].0
                            != pairs.deep_view()[q].0 by {
                            if q == pairs.deep_view().len() - 1 {
                                assert(pairs.deep_view()[p] == pv0[p]);
                            }
                        }
                    }
                }
            }
            fwd.push((key, pairs));
            i = i + 1;
            proof {
                assert(dv[i - 1].1.subrange(0, dv[i - 1].1.len() as int) =~~= dv[i - 1].1);
                assert(fwd.deep_view() =~~= fwd0.push((dv[i - 1].0, dv[i - 1].1)));
                assert(fwd.deep_view() =~~= dv.subrange(0, i as int));
                assert(rmap_wf(fwd.deep_view())) by {
                    assert forall|p: int, q: int|
                        0 <= p < q < fwd.deep_view().len() implies fwd.deep_view()[p].0 != fwd
                        .deep_view()[q].0 by {
                        if q == fwd.deep_view().len() - 1 {
                            assert(fwd.deep_view()[p] == fwd0[p]);
                            if fwd0[p].0 == dv[i - 1].0 {
                                assert(rhas_key(fwd0, dv[i - 1].0));
                            }
                        } else {
                            assert(fwd.deep_view()[p] == fwd0[p] && fwd.deep_view()[q]
                                == fwd0[q]);
                        }
                    }
                    assert forall|a: int|
                        0 <= a < fwd.deep_view().len() implies crate::relmap::firsts_distinct(
                        (#[trigger] fwd.deep_view()[a]).1,
                    ) && fwd.deep_view()[a].1.len() > 0 by {
                        if a < fwd0.len() {
                            assert(fwd.deep_view()[a] == fwd0[a]);
                        }
                    }
                }
            }
        }
        proof {
            assert(dv.subrange(0, data.file_relations.len() as int) =~~= dv);
        }
        let mut m = RelationManager { forward: fwd, incoming: Vec::new() };
        m.build_incoming_index();
        Ok(m)
    }
}

} // verus!
