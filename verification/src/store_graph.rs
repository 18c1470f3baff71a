//! The memoir operations of the store: the graph tables behind the
//! read-only switch.
use vstd::prelude::*;
use crate::extract::{concept_of_cluster, has_byte_prefix};
use crate::graph::{
    Concept, ConceptLink, Memoir, MemoirTable, Relation, add_concept_effect, concept_named, concept_of, concept_with_id,
    create_memoir_effect, delete_concept_effect, delete_memoir_effect, lists_view, memoir_named, memoir_with_id,
};
use crate::links::{add_link_effect, delete_link_effect, neighbour_link, neighbour_of, other_end};
use crate::model::{IcmError, IcmResult};
use crate::order::sorted_by_text;
use crate::patterns::PatternCluster;
use crate::store::SqliteStore;
use crate::concepts::{concept_texts, concepts_at, confidence_sum, from_memoir, in_memoir, label_texts, labelled_in, ranked_in, refined, same_concepts, sanitized};
use crate::graph::{Label, MemoirStats, has_concept};
use crate::neighbourhood::{inside, within};
use crate::transcript::{counted, first_n, fts5_ranking};
use crate::text::owned;

verus! {

/// The store's other tables are untouched.
pub open spec fn graph_only(before: SqliteStore, after: SqliteStore) -> bool {
    &&& after.readonly == before.readonly
    &&& after.facts@ == before.facts@
    &&& after.memories.rows@ == before.memories.rows@
    &&& after.transcripts == before.transcripts
}

/// A refused write: nothing changes and the read-only error names `op`.
pub open spec fn refused(before: SqliteStore, after: SqliteStore, op: Seq<char>, e: IcmError) -> bool {
    &&& after.graph == before.graph
    &&& e matches IcmError::ReadOnly(m) && m@ == op
}

impl SqliteStore {
    /// Store a new memoir (see `MemoirTable::create_memoir`).
    pub fn create_memoir(&mut self, memoir: Memoir) -> (r: IcmResult<String>)
        requires
            old(self).wf(),
        ensures
            final(self).wf(),
            graph_only(*old(self), *final(self)),
            old(self).readonly ==> (r matches Err(e) && refused(*old(self), *final(self), "create_memoir"@, e)),
            !old(self).readonly ==> create_memoir_effect(old(self).graph, final(self).graph, memoir, r),
    {
        if self.readonly {
            return Err(IcmError::ReadOnly(owned("create_memoir")));
        }
        self.graph.create_memoir(memoir)
    }

    /// The memoir with id `id`, if any.
    pub fn get_memoir(&self, id: &str) -> (r: IcmResult<Option<Memoir>>)
        requires
            self.wf(),
        ensures
            r == Ok::<Option<Memoir>, IcmError>(memoir_with_id(self.graph.memoirs@, id@)),
    {
        self.graph.get_memoir(id)
    }

    /// The memoir named `name`, if any.
    pub fn get_memoir_by_name(&self, name: &str) -> (r: IcmResult<Option<Memoir>>)
        requires
            self.wf(),
        ensures
            r == Ok::<Option<Memoir>, IcmError>(memoir_named(self.graph.memoirs@, name@)),
    {
        self.graph.get_memoir_by_name(name)
    }

    /// Every memoir, by name.
    pub fn list_memoirs(&self) -> (r: IcmResult<Vec<Memoir>>)
        ensures
            r matches Ok(v) && v@.to_multiset() == self.graph.memoirs@.to_multiset() && sorted_by_text(v@),
    {
        self.graph.list_memoirs()
    }

    /// Delete a memoir with its concepts and their links (see
    /// `MemoirTable::delete_memoir`).
    pub fn delete_memoir(&mut self, id: &str) -> (r: IcmResult<()>)
        requires
            old(self).wf(),
        ensures
            final(self).wf(),
            graph_only(*old(self), *final(self)),
            old(self).readonly ==> (r matches Err(e) && refused(*old(self), *final(self), "delete_memoir"@, e)),
            !old(self).readonly ==> delete_memoir_effect(old(self).graph, final(self).graph, id@, r),
    {
        if self.readonly {
            return Err(IcmError::ReadOnly(owned("delete_memoir")));
        }
        self.graph.delete_memoir(id)
    }

    /// Store a new concept (see `MemoirTable::add_concept`).
    pub fn add_concept(&mut self, concept: Concept) -> (r: IcmResult<String>)
        requires
            old(self).wf(),
        ensures
            final(self).wf(),
            graph_only(*old(self), *final(self)),
            old(self).readonly ==> (r matches Err(e) && refused(*old(self), *final(self), "add_concept"@, e)),
            !old(self).readonly ==> add_concept_effect(old(self).graph, final(self).graph, concept, r),
    {
        if self.readonly {
            return Err(IcmError::ReadOnly(owned("add_concept")));
        }
        self.graph.add_concept(concept)
    }

    /// The concept with id `id`, if any.
    pub fn get_concept(&self, id: &str) -> (r: IcmResult<Option<Concept>>)
        requires
            self.wf(),
        ensures
            r matches Ok(o) && match o {
                Some(c) => concept_with_id(self.graph.concepts@, id@) == Some(c@),
                None => concept_with_id(self.graph.concepts@, id@) is None,
            },
    {
        self.graph.get_concept(id)
    }

    /// The concept of memoir `memoir_id` named `name`, if any.
    pub fn get_concept_by_name(&self, memoir_id: &str, name: &str) -> (r: IcmResult<Option<Concept>>)
        requires
            self.wf(),
        ensures
            r matches Ok(o) && match o {
                Some(c) => concept_named(self.graph.concepts@, memoir_id@, name@) == Some(c@),
                None => concept_named(self.graph.concepts@, memoir_id@, name@) is None,
            },
    {
        self.graph.get_concept_by_name(memoir_id, name)
    }

    /// The concepts of memoir `memoir_id`, by name.
    pub fn list_concepts(&self, memoir_id: &str) -> (r: IcmResult<Vec<Concept>>)
        ensures
            r matches Ok(v) && {
                &&& sorted_by_text(v@)
                &&& v@.len() == self.graph.concepts@.filter(|c: Concept| c.memoir_id@ == memoir_id@).len()
                &&& forall|i: int| 0 <= i < v@.len() ==> concept_of(self.graph.concepts@, memoir_id@, (#[trigger] v@[i])@)
                &&& forall|k: int| 0 <= k < self.graph.concepts@.len() && (#[trigger] self.graph.concepts@[k]).memoir_id@ == memoir_id@ ==> lists_view(v@, self.graph.concepts@[k]@)
            },
    {
        self.graph.list_concepts(memoir_id)
    }

    /// Delete a concept and its links (see `MemoirTable::delete_concept`).
    pub fn delete_concept(&mut self, id: &str) -> (r: IcmResult<()>)
        requires
            old(self).wf(),
        ensures
            final(self).wf(),
            graph_only(*old(self), *final(self)),
            old(self).readonly ==> (r matches Err(e) && refused(*old(self), *final(self), "delete_concept"@, e)),
            !old(self).readonly ==> delete_concept_effect(old(self).graph, final(self).graph, id@, r),
    {
        if self.readonly {
            return Err(IcmError::ReadOnly(owned("delete_concept")));
        }
        self.graph.delete_concept(id)
    }

    /// Add a link, refusing self-links and cycles (see
    /// `MemoirTable::add_link`).
    pub fn add_link(&mut self, link: ConceptLink) -> (r: IcmResult<String>)
        requires
            old(self).wf(),
        ensures
            final(self).wf(),
            graph_only(*old(self), *final(self)),
            old(self).readonly ==> (r matches Err(e) && refused(*old(self), *final(self), "add_link"@, e)),
            !old(self).readonly ==> add_link_effect(old(self).graph, final(self).graph, link, r),
    {
        if self.readonly {
            return Err(IcmError::ReadOnly(owned("add_link")));
        }
        self.graph.add_link(link)
    }

    /// The links leaving concept `id`, oldest first.
    pub fn get_links_from(&self, id: &str) -> (r: IcmResult<Vec<ConceptLink>>)
        ensures
            r matches Ok(v) && v@ == self.graph.links@.filter(|x: ConceptLink| x.source_id@ == id@),
    {
        self.graph.get_links_from(id)
    }

    /// The links arriving at concept `id`, oldest first.
    pub fn get_links_to(&self, id: &str) -> (r: IcmResult<Vec<ConceptLink>>)
        ensures
            r matches Ok(v) && v@ == self.graph.links@.filter(|x: ConceptLink| x.target_id@ == id@),
    {
        self.graph.get_links_to(id)
    }

    /// Delete link `id` (see `MemoirTable::delete_link`).
    pub fn delete_link(&mut self, id: &str) -> (r: IcmResult<()>)
        requires
            old(self).wf(),
        ensures
            final(self).wf(),
            graph_only(*old(self), *final(self)),
            old(self).readonly ==> (r matches Err(e) && refused(*old(self), *final(self), "delete_link"@, e)),
            !old(self).readonly ==> delete_link_effect(old(self).graph, final(self).graph, id@, r),
    {
        if self.readonly {
            return Err(IcmError::ReadOnly(owned("delete_link")));
        }
        self.graph.delete_link(id)
    }

    /// The concepts linked to concept `id` (see `MemoirTable::get_neighbors`).
    pub fn get_neighbors(&self, id: &str, relation: Option<Relation>) -> (r: IcmResult<Vec<Concept>>)
        requires
            self.wf(),
        ensures
            r matches Ok(v) && {
                let ls = self.graph.links@.filter(neighbour_of(id@, relation));
                &&& v@.len() == ls.len()
                &&& forall|k: int| 0 <= k < ls.len() ==> concept_with_id(self.graph.concepts@, other_end(ls[k], id@)) == Some((#[trigger] v@[k])@)
            },
    {
        self.graph.get_neighbors(id, relation)
    }

    /// Store a detected pattern as a concept of memoir `memoir_id`: named
    /// after its first three keywords (or `pattern-` and the first eight
    /// bytes of its first memory id when it has none), defined by its
    /// representative summary and size, drawn from its memories, with a
    /// confidence growing with its size and its first five keywords as
    /// `pattern` labels.
    pub fn extract_pattern_as_concept(&mut self, cluster: &PatternCluster, memoir_id: &str) -> (r: IcmResult<String>)
        requires
            old(self).wf(),
            cluster.keywords@.len() > 0 || (cluster.memory_ids@.len() > 0 && has_byte_prefix(cluster.memory_ids@[0]@, 8)),
        ensures
            final(self).wf(),
            graph_only(*old(self), *final(self)),
            old(self).readonly ==> (r matches Err(e) && refused(*old(self), *final(self), "add_concept"@, e)),
            !old(self).readonly ==> exists|c: Concept| #[trigger] concept_of_cluster(*cluster, memoir_id@, c) && add_concept_effect(old(self).graph, final(self).graph, c, r),
    {
        if self.readonly {
            return Err(IcmError::ReadOnly(owned("add_concept")));
        }
        self.graph.extract_pattern_as_concept(cluster, memoir_id)
    }
}

impl SqliteStore {
    /// The concepts of memoir `memoir_id` carrying `label` (see
    /// `MemoirTable::search_concepts_by_label`).
    pub fn search_concepts_by_label(&self, memoir_id: &str, label: &Label, limit: usize) -> (r: IcmResult<Vec<Concept>>)
        ensures
            r matches Ok(v) && same_concepts(first_n(self.graph.concepts@.filter(labelled_in(memoir_id@, *label)), limit as nat), v@),
    {
        self.graph.search_concepts_by_label(memoir_id, label, limit)
    }

    /// Full-text search of the concepts of memoir `memoir_id` (see
    /// `MemoirTable::search_concepts_fts`).
    pub fn search_concepts_fts(&self, memoir_id: &str, query: &str, limit: usize) -> (r: IcmResult<Vec<Concept>>)
        ensures
            r matches Ok(v) && exists|q: Seq<char>| {
                &&& sanitized(query@, q)
                &&& q.len() == 0 ==> v@.len() == 0
                &&& q.len() > 0 ==> match fts5_ranking(q, concept_texts(self.graph.concepts@)) {
                    None => v@.len() == 0,
                    Some(rank) => concepts_at(self.graph.concepts@, first_n(ranked_in(rank, self.graph.concepts@, memoir_id@), limit as nat), v@),
                }
            },
    {
        self.graph.search_concepts_fts(memoir_id, query, limit)
    }

    /// Refine concept `id` (see `MemoirTable::refine_concept`); a read-only
    /// store refuses.
    pub fn refine_concept(&mut self, id: &str, new_definition: &str, new_source_ids: &[String]) -> (r: IcmResult<()>)
        requires
            old(self).wf(),
        ensures
            final(self).wf(),
            graph_only(*old(self), *final(self)),
            old(self).readonly ==> (r matches Err(e) && refused(*old(self), *final(self), "refine_concept"@, e)),
            !old(self).readonly ==> {
                &&& final(self).graph.memoirs == old(self).graph.memoirs
                &&& final(self).graph.links == old(self).graph.links
                &&& !has_concept(old(self).graph.concepts@, id@) ==> final(self).graph.concepts@ == old(self).graph.concepts@
                    && (r matches Err(IcmError::NotFound(m)) && m@ == id@)
                &&& has_concept(old(self).graph.concepts@, id@) ==> r is Ok && exists|k: int| {
                    &&& 0 <= k < old(self).graph.concepts@.len()
                    &&& (#[trigger] old(self).graph.concepts@[k]).id@ == id@
                    &&& final(self).graph.concepts@.len() == old(self).graph.concepts@.len()
                    &&& forall|j: int| 0 <= j < old(self).graph.concepts@.len() && j != k ==> (#[trigger] final(self).graph.concepts@[j]) == old(self).graph.concepts@[j]
                    &&& refined(old(self).graph.concepts@[k], final(self).graph.concepts@[k], new_definition@, new_source_ids@)
                }
            },
    {
        if self.readonly {
            return Err(IcmError::ReadOnly(owned("refine_concept")));
        }
        self.graph.refine_concept(id, new_definition, new_source_ids)
    }

    /// Figures about memoir `memoir_id` (see `MemoirTable::memoir_stats`).
    pub fn memoir_stats(&self, memoir_id: &str) -> (r: IcmResult<MemoirStats>)
        requires
            self.wf(),
        ensures
            r matches Ok(st) && {
                let cs = self.graph.concepts@.filter(in_memoir(memoir_id@));
                &&& st.total_concepts == cs.len()
                &&& st.total_links == self.graph.links@.filter(from_memoir(self.graph.concepts@, memoir_id@)).len()
                &&& st.avg_confidence == if cs.len() == 0 { 0 } else { confidence_sum(cs) / cs.len() }
                &&& counted(label_texts(cs), st.label_counts@)
            },
    {
        self.graph.memoir_stats(memoir_id)
    }

    /// The neighbourhood of concept `concept_id` within `depth` links (see
    /// `MemoirTable::get_neighborhood`).
    pub fn get_neighborhood(&self, concept_id: &str, depth: usize) -> (r: IcmResult<(Vec<Concept>, Vec<ConceptLink>)>)
        requires
            self.wf(),
        ensures
            r matches Ok(res) && {
                &&& !has_concept(self.graph.concepts@, concept_id@) ==> res.0@.len() == 0 && res.1@.len() == 0
                &&& has_concept(self.graph.concepts@, concept_id@) ==> {
                    let w = within(self.graph.links@, concept_id@, depth as nat);
                    &&& Seq::new(res.0@.len(), |k: int| res.0@[k].id@).no_duplicates()
                    &&& Seq::new(res.0@.len(), |k: int| res.0@[k].id@).to_set() == w
                    &&& res.0@[0].id@ == concept_id@
                    &&& forall|k: int| 0 <= k < res.0@.len() ==> concept_with_id(self.graph.concepts@, (#[trigger] res.0@[k]).id@) == Some(res.0@[k]@)
                    &&& res.1@ == self.graph.links@.filter(inside(w))
                }
            },
    {
        self.graph.get_neighborhood(concept_id, depth)
    }
}

} // verus!
