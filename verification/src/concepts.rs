//! Concept operations of a memoir beyond storing and listing: search by
//! label and by text, refinement, and per-memoir figures.
use vstd::prelude::*;
use crate::encode::{FTS_MAX_QUERY_BYTES, alnum_runs, capped_tokens, is_char_boundary_truncation, quoted_join, sanitize_fts_query};
use crate::facts::lemma_filter_step;
use crate::clock::now_rfc3339;
use crate::consolidate::{add_new, add_new_keywords};
use crate::graph::{Concept, ConceptLink, FULL_CONFIDENCE, Label, MemoirStats, MemoirTable, concept_id_of, copy_labels, has_concept};
use crate::model::{IcmError, copy_strings};
use crate::maintain::str_eq;
use crate::model::IcmResult;
use crate::text::{concat, owned};
use crate::transcript::{counted, first_n, fts5_rank, fts5_ranking, keep_first, lemma_tally_bounded, name_first};
use crate::tally::tally;
use crate::tally::text_views;

verus! {

broadcast use vstd::seq_lib::group_seq_properties;

/// Concept `c` belongs to memoir `m` and carries the label `l`.
pub open spec fn labelled(c: Concept, m: Seq<char>, l: Label) -> bool {
    &&& c.memoir_id@ == m
    &&& exists|j: int| 0 <= j < c.labels@.len() && (#[trigger] c.labels@[j]).namespace@ == l.namespace@ && c.labels@[j].value@ == l.value@
}

/// The concepts of memoir `m` that carry label `l`.
pub open spec fn labelled_in(m: Seq<char>, l: Label) -> spec_fn(Concept) -> bool {
    |c: Concept| labelled(c, m, l)
}

/// What a text search of concepts looks at: the name and the definition.
pub open spec fn concept_text(c: Concept) -> Seq<char> {
    c.name@ + " "@ + c.definition@
}

/// The searchable texts of the concepts, row by row.
pub open spec fn concept_texts(cs: Seq<Concept>) -> Seq<Seq<char>> {
    Seq::new(cs.len(), |i: int| concept_text(cs[i]))
}

/// The ranked rows that are concepts of memoir `m`, in rank order.
pub open spec fn ranked_in(rank: Seq<usize>, cs: Seq<Concept>, m: Seq<char>) -> Seq<usize> {
    rank.filter(|i: usize| i < cs.len() && cs[i as int].memoir_id@ == m)
}

/// `v` lists, in order, the values of the concepts at the rows `sel`.
pub open spec fn concepts_at(cs: Seq<Concept>, sel: Seq<usize>, v: Seq<Concept>) -> bool {
    &&& v.len() == sel.len()
    &&& forall|k: int| 0 <= k < v.len() ==> (#[trigger] v[k])@ == cs[sel[k] as int]@
}

/// `v` lists, in order, the values of the concepts of `s`.
pub open spec fn same_concepts(s: Seq<Concept>, v: Seq<Concept>) -> bool {
    &&& v.len() == s.len()
    &&& forall|k: int| 0 <= k < v.len() ==> (#[trigger] v[k])@ == s[k]@
}

/// The text a query becomes once made safe for FTS5 (see
/// `sanitize_fts_query`).
pub open spec fn sanitized(query: Seq<char>, q: Seq<char>) -> bool {
    exists|k: int| is_char_boundary_truncation(query, FTS_MAX_QUERY_BYTES as nat, k) && q == quoted_join(capped_tokens(alnum_runs(query.take(k))))
}

/// Whether concept `c` carries label `l`.
fn carries(c: &Concept, l: &Label) -> (b: bool)
    ensures
        b == exists|j: int| 0 <= j < c.labels@.len() && (#[trigger] c.labels@[j]).namespace@ == l.namespace@ && c.labels@[j].value@ == l.value@,
{
    let mut j: usize = 0;
    while j < c.labels.len()
        invariant
            j <= c.labels@.len(),
            forall|z: int| 0 <= z < j ==> !((#[trigger] c.labels@[z]).namespace@ == l.namespace@ && c.labels@[z].value@ == l.value@),
        decreases c.labels.len() - j,
    {
        if c.labels[j].namespace == l.namespace && c.labels[j].value == l.value {
            return true;
        }
        j += 1;
    }
    false
}

impl MemoirTable {
    /// The concepts of memoir `memoir_id` carrying `label` (the namespace
    /// and value matched literally), in table order, at most `limit`.
    pub fn search_concepts_by_label(&self, memoir_id: &str, label: &Label, limit: usize) -> (r: IcmResult<Vec<Concept>>)
        ensures
            r matches Ok(v) && same_concepts(first_n(self.concepts@.filter(labelled_in(memoir_id@, *label)), limit as nat), v@),
    {
        let ghost t = self.concepts@;
        let ghost p = labelled_in(memoir_id@, *label);
        let m = owned(memoir_id);
        let mut sel: Vec<Concept> = Vec::new();
        let mut i: usize = 0;
        while i < self.concepts.len()
            invariant
                i <= t.len(),
                t == self.concepts@,
                m@ == memoir_id@,
                p == labelled_in(memoir_id@, *label),
                same_concepts(t.take(i as int).filter(p), sel@),
            decreases self.concepts.len() - i,
        {
            proof {
                lemma_filter_step(t, i as int, p);
            }
            let c = &self.concepts[i];
            if c.memoir_id == m && carries(c, label) {
                sel.push(c.copy());
            }
            i += 1;
        }
        proof {
            assert(t.take(t.len() as int) =~= t);
        }
        let ghost all = sel@;
        let v = keep_first(sel, limit);
        proof {
            let f = t.filter(p);
            assert forall|k: int| 0 <= k < v@.len() implies (#[trigger] v@[k])@ == first_n(f, limit as nat)[k]@ by {
                assert(v@[k] == all[k]);
            }
        }
        Ok(v)
    }

    /// The concepts of memoir `memoir_id` at the rows of `rank`, in rank
    /// order, rows out of range dropped, at most `limit`.
    pub fn concepts_from_ranking(&self, rank: &Vec<usize>, memoir_id: &str, limit: usize) -> (v: Vec<Concept>)
        ensures
            concepts_at(self.concepts@, first_n(ranked_in(rank@, self.concepts@, memoir_id@), limit as nat), v@),
    {
        let ghost t = self.concepts@;
        let ghost p = |i: usize| i < t.len() && t[i as int].memoir_id@ == memoir_id@;
        let m = owned(memoir_id);
        let mut sel: Vec<usize> = Vec::new();
        let mut j: usize = 0;
        while j < rank.len()
            invariant
                j <= rank@.len(),
                t == self.concepts@,
                m@ == memoir_id@,
                p == (|i: usize| i < t.len() && t[i as int].memoir_id@ == memoir_id@),
                sel@ == rank@.take(j as int).filter(p),
            decreases rank.len() - j,
        {
            proof {
                lemma_filter_step(rank@, j as int, p);
            }
            let ix = rank[j];
            if ix < self.concepts.len() && self.concepts[ix].memoir_id == m {
                sel.push(ix);
            }
            j += 1;
        }
        proof {
            assert(rank@.take(rank@.len() as int) =~= rank@);
        }
        let top = keep_first(sel, limit);
        let mut v: Vec<Concept> = Vec::new();
        let mut k: usize = 0;
        while k < top.len()
            invariant
                k <= top@.len(),
                t == self.concepts@,
                top@ == first_n(ranked_in(rank@, t, memoir_id@), limit as nat),
                forall|z: int| 0 <= z < top@.len() ==> #[trigger] top@[z] < t.len(),
                v@.len() == k,
                forall|z: int| 0 <= z < k ==> (#[trigger] v@[z])@ == t[top@[z] as int]@,
            decreases top.len() - k,
        {
            v.push(self.concepts[top[k]].copy());
            k += 1;
        }
        v
    }

    /// Full-text search of the concepts of memoir `memoir_id`: the query is
    /// made safe (see `sanitize_fts_query`) and matched by FTS5 against each
    /// concept's name and definition, best match first, at most `limit`. A
    /// query with no word finds nothing.
    pub fn search_concepts_fts(&self, memoir_id: &str, query: &str, limit: usize) -> (r: IcmResult<Vec<Concept>>)
        ensures
            r matches Ok(v) && exists|q: Seq<char>| {
                &&& sanitized(query@, q)
                &&& q.len() == 0 ==> v@.len() == 0
                &&& q.len() > 0 ==> match fts5_ranking(q, concept_texts(self.concepts@)) {
                    None => v@.len() == 0,
                    Some(rank) => concepts_at(self.concepts@, first_n(ranked_in(rank, self.concepts@, memoir_id@), limit as nat), v@),
                }
            },
    {
        let q = sanitize_fts_query(query);
        proof {
            assert(sanitized(query@, q@));
        }
        let qc = crate::text::chars_of(q.as_str());
        if qc.len() == 0 {
            return Ok(Vec::new());
        }
        let mut texts: Vec<String> = Vec::new();
        let mut i: usize = 0;
        while i < self.concepts.len()
            invariant
                i <= self.concepts@.len(),
                texts@.len() == i,
                forall|k: int| 0 <= k < i ==> (#[trigger] texts@[k])@ == concept_text(self.concepts@[k]),
            decreases self.concepts.len() - i,
        {
            let a = concat(self.concepts[i].name.as_str(), " ");
            proof {
                reveal_strlit(" ");
            }
            texts.push(concat(a.as_str(), self.concepts[i].definition.as_str()));
            i += 1;
        }
        proof {
            assert(text_views(texts@) =~= concept_texts(self.concepts@));
        }
        match fts5_rank(q.as_str(), &texts) {
            Some(rank) => Ok(self.concepts_from_ranking(&rank, memoir_id, limit)),
            None => Ok(Vec::new()),
        }
    }
}

/// What a refinement adds to a concept's confidence, in thousandths.
pub const REFINE_CONFIDENCE_STEP: u32 = 100;

/// The confidence after one refinement: one step more, never past full
/// confidence (a value already past it is kept).
pub open spec fn raised_confidence(c: u32) -> u32 {
    if c >= FULL_CONFIDENCE {
        c
    } else if c + REFINE_CONFIDENCE_STEP >= FULL_CONFIDENCE {
        FULL_CONFIDENCE
    } else {
        (c + REFINE_CONFIDENCE_STEP) as u32
    }
}

/// `after` is `before` refined with definition `def` and the memory ids
/// `srcs`: one revision more, confidence raised, the ids it did not cite
/// yet appended, each once; identity, name, labels and creation time kept.
pub open spec fn refined(before: Concept, after: Concept, def: Seq<char>, srcs: Seq<String>) -> bool {
    &&& after.id == before.id
    &&& after.memoir_id == before.memoir_id
    &&& after.name == before.name
    &&& after.labels@ == before.labels@
    &&& after.created_at == before.created_at
    &&& after.definition@ == def
    &&& after.revision == if before.revision < u32::MAX { (before.revision + 1) as u32 } else { u32::MAX }
    &&& after.confidence == raised_confidence(before.confidence)
    &&& text_views(after.source_memory_ids@) == add_new(text_views(before.source_memory_ids@), srcs)
}

/// The refined copy of concept `c`.
fn refine_copy(c: &Concept, def: &str, srcs: &[String]) -> (r: Concept)
    ensures
        refined(*c, r, def@, srcs@),
{
    let mut ids = copy_strings(&c.source_memory_ids);
    let mut more: Vec<String> = Vec::new();
    let mut i: usize = 0;
    while i < srcs.len()
        invariant
            i <= srcs@.len(),
            more@ == srcs@.take(i as int),
        decreases srcs.len() - i,
    {
        more.push(srcs[i].clone());
        proof {
            assert(srcs@.take(i + 1) =~= srcs@.take(i as int).push(srcs@[i as int]));
        }
        i += 1;
    }
    proof {
        assert(srcs@.take(srcs@.len() as int) =~= srcs@);
    }
    add_new_keywords(&mut ids, &more);
    proof {
        assert(text_views(ids@) =~= Seq::new(ids@.len(), |i: int| ids@[i]@));
        assert(text_views(c.source_memory_ids@) =~= Seq::new(c.source_memory_ids@.len(), |i: int| c.source_memory_ids@[i]@));
    }
    let confidence = if c.confidence >= FULL_CONFIDENCE {
        c.confidence
    } else if c.confidence + REFINE_CONFIDENCE_STEP >= FULL_CONFIDENCE {
        FULL_CONFIDENCE
    } else {
        c.confidence + REFINE_CONFIDENCE_STEP
    };
    Concept {
        id: c.id.clone(),
        memoir_id: c.memoir_id.clone(),
        name: c.name.clone(),
        definition: owned(def),
        labels: copy_labels(&c.labels),
        confidence,
        revision: if c.revision < u32::MAX { c.revision + 1 } else { u32::MAX },
        source_memory_ids: ids,
        created_at: c.created_at.clone(),
        updated_at: now_rfc3339(),
    }
}

impl MemoirTable {
    /// Refine concept `id`: new definition, one revision more, confidence
    /// raised by `REFINE_CONFIDENCE_STEP` up to full, and the memory ids of
    /// `new_source_ids` it did not cite yet appended. A missing concept is
    /// `NotFound(id)` and changes nothing.
    pub fn refine_concept(&mut self, id: &str, new_definition: &str, new_source_ids: &[String]) -> (r: IcmResult<()>)
        requires
            old(self).wf(),
        ensures
            final(self).wf(),
            final(self).memoirs == old(self).memoirs,
            final(self).links == old(self).links,
            !has_concept(old(self).concepts@, id@) ==> final(self).concepts@ == old(self).concepts@
                && (r matches Err(IcmError::NotFound(m)) && m@ == id@),
            has_concept(old(self).concepts@, id@) ==> r is Ok && exists|k: int| {
                &&& 0 <= k < old(self).concepts@.len()
                &&& (#[trigger] old(self).concepts@[k]).id@ == id@
                &&& final(self).concepts@.len() == old(self).concepts@.len()
                &&& forall|j: int| 0 <= j < old(self).concepts@.len() && j != k ==> (#[trigger] final(self).concepts@[j]) == old(self).concepts@[j]
                &&& refined(old(self).concepts@[k], final(self).concepts@[k], new_definition@, new_source_ids@)
            },
    {
        let k = match self.concept_index(&owned(id)) {
            Some(k) => k,
            None => {
                return Err(IcmError::NotFound(owned(id)));
            },
        };
        let ghost before = self.concepts@;
        let c = refine_copy(&self.concepts[k], new_definition, new_source_ids);
        self.concepts.set(k, c);
        proof {
            let after = self.concepts@;
            assert forall|j: int| 0 <= j < after.len() implies (#[trigger] after[j]).id@ == before[j].id@
                && after[j].memoir_id@ == before[j].memoir_id@ && after[j].name@ == before[j].name@ by {
                if j == k {
                } else {
                    assert(after[j] == before[j]);
                }
            }
            assert forall|x: Seq<char>| has_concept(after, x) == has_concept(before, x) by {
                if has_concept(before, x) {
                    let w = choose|w: int| 0 <= w < before.len() && (#[trigger] before[w]).id@ == x;
                    assert(after[w].id@ == x);
                }
                if has_concept(after, x) {
                    let w = choose|w: int| 0 <= w < after.len() && (#[trigger] after[w]).id@ == x;
                    assert(before[w].id@ == x);
                }
            }
        }
        Ok(())
    }
}

/// The concepts of memoir `m`.
pub open spec fn in_memoir(m: Seq<char>) -> spec_fn(Concept) -> bool {
    |c: Concept| c.memoir_id@ == m
}

/// The links leaving a concept of memoir `m`.
pub open spec fn from_memoir(cs: Seq<Concept>, m: Seq<char>) -> spec_fn(ConceptLink) -> bool {
    |x: ConceptLink| concept_id_of(cs, m, x.source_id@)
}

/// Sum of the confidences of the concepts.
pub open spec fn confidence_sum(cs: Seq<Concept>) -> nat
    decreases cs.len(),
{
    if cs.len() == 0 {
        0
    } else {
        confidence_sum(cs.drop_last()) + (cs.last().confidence as nat)
    }
}

/// The labels of a concept written `namespace:value`.
pub open spec fn labels_written(c: Concept) -> Seq<Seq<char>> {
    Seq::new(c.labels@.len(), |j: int| c.labels@[j].namespace@ + ":"@ + c.labels@[j].value@)
}

/// The labels of the concepts written `namespace:value`, concept by
/// concept.
pub open spec fn label_texts(cs: Seq<Concept>) -> Seq<Seq<char>>
    decreases cs.len(),
{
    if cs.len() == 0 {
        Seq::empty()
    } else {
        label_texts(cs.drop_last()) + labels_written(cs.last())
    }
}

/// The sum of `n` confidences is at most `n` times the largest one.
proof fn lemma_confidence_sum_bound(cs: Seq<Concept>)
    ensures
        confidence_sum(cs) <= cs.len() * (u32::MAX as nat),
    decreases cs.len(),
{
    if cs.len() > 0 {
        lemma_confidence_sum_bound(cs.drop_last());
    }
}

impl MemoirTable {
    /// Figures about memoir `memoir_id`: its number of concepts, the number
    /// of links leaving them, their mean confidence (rounded down, 0 for
    /// none) and how often each label occurs, most frequent first.
    pub fn memoir_stats(&self, memoir_id: &str) -> (r: IcmResult<MemoirStats>)
        requires
            self.wf(),
        ensures
            r matches Ok(st) && {
                let cs = self.concepts@.filter(in_memoir(memoir_id@));
                &&& st.total_concepts == cs.len()
                &&& st.total_links == self.links@.filter(from_memoir(self.concepts@, memoir_id@)).len()
                &&& st.avg_confidence == if cs.len() == 0 { 0 } else { confidence_sum(cs) / cs.len() }
                &&& counted(label_texts(cs), st.label_counts@)
            },
    {
        let ghost t = self.concepts@;
        let ghost p = in_memoir(memoir_id@);
        let m = owned(memoir_id);
        let mut n: usize = 0;
        let mut sum: u128 = 0;
        let mut labels: Vec<String> = Vec::new();
        let mut i: usize = 0;
        while i < self.concepts.len()
            invariant
                i <= t.len(),
                t == self.concepts@,
                m@ == memoir_id@,
                p == in_memoir(memoir_id@),
                n == t.take(i as int).filter(p).len(),
                n <= i,
                sum == confidence_sum(t.take(i as int).filter(p)),
                sum <= n * (u32::MAX as nat),
                text_views(labels@) == label_texts(t.take(i as int).filter(p)),
            decreases self.concepts.len() - i,
        {
            proof {
                lemma_filter_step(t, i as int, p);
            }
            let c = &self.concepts[i];
            if c.memoir_id == m {
                let ghost f0 = t.take(i as int).filter(p);
                proof {
                    assert(t.take(i + 1).filter(p) == f0.push(*c));
                    assert(f0.push(*c).drop_last() =~= f0);
                }
                n = n + 1;
                sum = sum + c.confidence as u128;
                let mut j: usize = 0;
                let ghost l0 = labels@;
                while j < c.labels.len()
                    invariant
                        j <= c.labels@.len(),
                        labels@.len() == l0.len() + j,
                        forall|z: int| 0 <= z < l0.len() ==> #[trigger] labels@[z] == l0[z],
                        forall|z: int| 0 <= z < j ==> (#[trigger] labels@[l0.len() + z])@ == labels_written(*c)[z],
                    decreases c.labels.len() - j,
                {
                    let a = concat(c.labels[j].namespace.as_str(), ":");
                    proof {
                        reveal_strlit(":");
                    }
                    labels.push(concat(a.as_str(), c.labels[j].value.as_str()));
                    j += 1;
                }
                proof {
                    let w = labels_written(*c);
                    assert forall|z: int| 0 <= z < labels@.len() implies #[trigger] text_views(labels@)[z] == (text_views(l0) + w)[z] by {
                        if z >= l0.len() {
                            let y = z - l0.len();
                            assert(labels@[l0.len() + y]@ == w[y]);
                        }
                    }
                    assert(text_views(labels@) =~= text_views(l0) + w);
                }
            }
            i += 1;
        }
        proof {
            assert(t.take(t.len() as int) =~= t);
        }
        let mut links: usize = 0;
        let ghost q = from_memoir(t, memoir_id@);
        let ghost l = self.links@;
        let mut k: usize = 0;
        while k < self.links.len()
            invariant
                k <= l.len(),
                l == self.links@,
                t == self.concepts@,
                self.wf(),
                m@ == memoir_id@,
                q == from_memoir(t, memoir_id@),
                links == l.take(k as int).filter(q).len(),
                links <= k,
            decreases self.links.len() - k,
        {
            proof {
                lemma_filter_step(l, k as int, q);
            }
            let src = &self.links[k].source_id;
            let hit = match self.concept_index(src) {
                Some(c) => {
                    proof {
                        if concept_id_of(t, memoir_id@, src@) {
                            let w = choose|w: int| 0 <= w < t.len() && (#[trigger] t[w]).memoir_id@ == memoir_id@ && t[w].id@ == src@;
                            if w != c {
                                assert(t[w].id@ != t[c as int].id@);
                            }
                        }
                    }
                    self.concepts[c].memoir_id == m
                },
                None => false,
            };
            if hit {
                links = links + 1;
            }
            k += 1;
        }
        proof {
            assert(l.take(l.len() as int) =~= l);
            lemma_confidence_sum_bound(t.filter(p));
        }
        let avg: u32 = if n == 0 {
            0
        } else {
            proof {
                assert(sum / (n as u128) <= u32::MAX) by (nonlinear_arith)
                    requires
                        sum <= n * (u32::MAX as nat),
                        n > 0;
            }
            (sum / (n as u128)) as u32
        };
        let g = tally(&labels);
        let nl = labels.len();
        proof {
            lemma_tally_bounded(text_views(labels@), g@);
            assert(text_views(labels@).len() == nl);
        }
        let label_counts = name_first(g, Ghost(label_texts(t.filter(p))));
        Ok(MemoirStats { total_concepts: n, total_links: links, avg_confidence: avg, label_counts })
    }
}

} // verus!
