//! The SQLite-backed store's tables and the invariants that tie them
//! together. Each table is a vector of rows in insertion order; the
//! operations in the sibling modules are the store's queries and updates.
use vstd::prelude::*;
use crate::model::{Fact, IcmError, IcmResult, Memory, MemoryView};
use crate::text::owned;
use crate::facts::{fact_ids_unique, facts_wf};
use crate::memory::{MemoryTable, memory_with_id, normalized_from, store_effect, topic_indices, topic_listing};
use crate::patterns::{MemoryMap, entry_for, fetched, heaviest_matching, heaviest_of_topic, unique_ids, with_wildcard};
use crate::text::chars_of;
use crate::normalize::{content_hash, memory_input_error};
use crate::clock::now_rfc3339;
use crate::maintain::{StoreStats, accessed, deleted_row, hash_taken, stats_of, survives, touched_count};
use crate::patterns::texts;
use crate::search::{KEYWORD_CAP, SEARCH_LIMIT_CAP, capped_keywords, fts_hit, heaviest_where, keyword_hit, query_terms};
use crate::encode::{FTS_MAX_QUERY_BYTES, is_char_boundary_truncation};
use crate::memory::{decayed_rows, min_nat, non_critical_count};
use crate::consolidate::{folded, mem_views, purged};
use crate::backends::Embedder;
use crate::graph::MemoirTable;
use crate::transcript::TranscriptTable;
use crate::cache::{MEMORY_CACHE_CAP, cache_cap, cache_clear, cache_get, cache_invalidate, cache_invalidate_many, cache_put, cached, coherent, entries_ok, lemma_coherent_after, new_cache, within_cap};
use crate::patterns::PatternCluster;
use crate::clusters::pattern_clusters;

verus! {

broadcast use vstd::seq_lib::group_seq_properties;

/// The memory store: facts, memories, transcripts, memoirs and metadata.
pub struct SqliteStore {
    pub readonly: bool,
    pub facts: Vec<Fact>,
    pub memories: MemoryTable,
    pub graph: MemoirTable,
    pub transcripts: TranscriptTable,
    pub cache: lru::LruCache<String, Memory>,
}

/// Only the memories (and the cache) may have changed.
pub open spec fn memories_only(before: SqliteStore, after: SqliteStore) -> bool {
    &&& after.readonly == before.readonly
    &&& after.facts@ == before.facts@
    &&& after.graph == before.graph
    &&& after.transcripts == before.transcripts
}

impl SqliteStore {
    /// Every table invariant holds.
    pub open spec fn wf(&self) -> bool {
        &&& facts_wf(self.facts@)
        &&& fact_ids_unique(self.facts@)
        &&& self.memories.wf()
        &&& self.graph.wf()
        &&& self.transcripts.wf()
        &&& coherent(cached(self.cache), self.memories.rows@)
        &&& within_cap(self.cache)
        &&& entries_ok(self.cache)
        &&& cache_cap(self.cache) == MEMORY_CACHE_CAP
    }

    /// A new, empty, writable store.
    pub fn in_memory() -> (r: IcmResult<SqliteStore>)
        ensures
            r matches Ok(s) && s.wf() && !s.readonly && s.facts@.len() == 0 && s.memories.rows@.len() == 0
                && s.graph.memoirs@.len() == 0 && s.graph.concepts@.len() == 0 && s.graph.links@.len() == 0
                && s.transcripts.sessions@.len() == 0 && s.transcripts.messages@.len() == 0,
    {
        Ok(SqliteStore { readonly: false, facts: Vec::new(), memories: MemoryTable::new(), graph: MemoirTable::new(), transcripts: TranscriptTable::new(), cache: new_cache() })
    }

    /// Whether the store refuses writes.
    pub fn is_readonly(&self) -> (b: bool)
        ensures
            b == self.readonly,
    {
        self.readonly
    }

    /// Store a memory. A read-only store refuses; otherwise as
    /// `MemoryTable::insert`: input failing the write checks is refused with
    /// the reason, a duplicate of a stored `(topic, summary)` is merged into
    /// it, and anything else is appended.
    pub fn store(&mut self, memory: Memory) -> (r: IcmResult<String>)
        requires
            old(self).wf(),
        ensures
            final(self).wf(),
            memories_only(*old(self), *final(self)),
            old(self).readonly ==> final(self).memories.rows@ == old(self).memories.rows@
                && (r matches Err(IcmError::ReadOnly(m)) && m@ == "store"@),
            !old(self).readonly && memory_input_error(memory.topic@, memory.summary@) is Some ==> {
                &&& final(self).memories.rows@ == old(self).memories.rows@
                &&& r matches Err(IcmError::InvalidInput(m)) && Some(m@) == memory_input_error(memory.topic@, memory.summary@)
            },
            !old(self).readonly && memory_input_error(memory.topic@, memory.summary@) is None ==> exists|m: MemoryView| {
                &&& normalized_from(memory@, m)
                &&& match r {
                    Ok(id) => store_effect(old(self).memories.rows@, final(self).memories.rows@, m, id@),
                    Err(e) => {
                        &&& e is Database
                        &&& final(self).memories.rows@ == old(self).memories.rows@
                        &&& exists|j: int| 0 <= j < old(self).memories.rows@.len() && (#[trigger] old(self).memories.rows@[j]).id@ == m.id@
                        &&& forall|k: int| 0 <= k < old(self).memories.rows@.len() ==> content_hash((#[trigger] old(self).memories.rows@[k]).topic@, old(self).memories.rows@[k].summary@) != content_hash(m.topic@, m.summary@)
                    },
                }
            },
    {
        if self.readonly {
            return Err(IcmError::ReadOnly(owned("store")));
        }
        let ghost before = self.memories.rows@;
        let ghost hb = self.memories.hashes@;
        let ghost input = memory@;
        let ghost ts = memory.topic@;
        let ghost ss = memory.summary@;
        let r = self.memories.insert(memory);
        if let Ok(id) = &r {
            let ghost c0 = cached(self.cache);
            cache_invalidate(&mut self.cache, id.as_str());
            proof {
                let m = choose|m: MemoryView| normalized_from(input, m) && match r {
                    Ok(id) => store_effect(before, self.memories.rows@, m, id@),
                    Err(e) => false,
                };
                let after = self.memories.rows@;
                let gone = seq![id@];
                assert forall|i: int| 0 <= i < before.len() && !gone.contains(#[trigger] before[i].id@) implies after[i]@ == before[i]@ by {
                    if !(after[i]@ == before[i]@) {
                        assert(gone[0] == before[i].id@);
                    }
                }
                lemma_coherent_after(c0, before, hb, after, self.memories.hashes@, gone);
            }
        }
        r
    }

    /// The memories of `topic`, heaviest first, at most 500.
    pub fn get_by_topic(&self, topic: &str) -> (r: IcmResult<Vec<Memory>>)
        ensures
            r matches Ok(v) && heaviest_of_topic(self.memories.rows@, topic@, v@),
    {
        self.memories.get_by_topic(topic)
    }

    /// Memories by topic prefix: a topic ending in `*` is a `LIKE` prefix
    /// (`wshm*` matches `wshm:owner/repo`; SQLite's `LIKE`, so ASCII case is
    /// ignored and `%`/`_` in the prefix are wildcards), heaviest first, at
    /// most 500; any other topic is matched exactly, as `get_by_topic`.
    pub fn get_by_topic_prefix(&self, topic: &str) -> (r: IcmResult<Vec<Memory>>)
        ensures
            r matches Ok(v) && if topic@.len() > 0 && topic@.last() == '*' {
                heaviest_matching(self.memories.rows@, topic@.drop_last().push('%'), true, false, v@)
            } else {
                heaviest_of_topic(self.memories.rows@, topic@, v@)
            },
    {
        let cs = chars_of(topic);
        if cs.len() > 0 && cs[cs.len() - 1] == '*' {
            let mut p = cs;
            p.pop();
            p.push('%');
            Ok(self.memories.heaviest_like(&p, true, false))
        } else {
            self.memories.get_by_topic(topic)
        }
    }

    /// Every topic with its number of memories, by topic.
    pub fn list_topics(&self) -> (r: IcmResult<Vec<(String, usize)>>)
        ensures
            r matches Ok(v) && topic_listing(self.memories.rows@, None, true, v@),
    {
        Ok(self.memories.topic_counts(None, true))
    }

    /// Topics with their number of memories, by topic; with a prefix, only
    /// topics matching SQLite's `LIKE 'prefix%'` (ASCII case ignored, `%`
    /// and `_` in the prefix act as wildcards).
    pub fn list_topics_with_prefix(&self, prefix: Option<&str>) -> (r: IcmResult<Vec<(String, usize)>>)
        ensures
            r matches Ok(v) && match prefix {
                Some(p) => topic_listing(self.memories.rows@, Some(p@.push('%')), true, v@),
                None => topic_listing(self.memories.rows@, None, true, v@),
            },
    {
        match prefix {
            Some(p) => {
                let pat = with_wildcard(p);
                Ok(self.memories.topic_counts(Some(&pat), true))
            },
            None => self.list_topics(),
        }
    }

    /// Fetch many memories by id in one pass, one entry per distinct id;
    /// ids naming no memory are silently dropped.
    /// Cached memories are answered from the cache; the others are read
    /// from the table and cached. When the cache has room for every id
    /// it holds or is asked for, every memory fetched is cached afterwards.
    pub fn get_many(&mut self, ids: &[&str]) -> (r: IcmResult<MemoryMap>)
        requires
            old(self).wf(),
        ensures
            final(self).wf(),
            memories_only(*old(self), *final(self)),
            final(self).memories.rows@ == old(self).memories.rows@,
            r matches Ok(m) && fetched(old(self).memories.rows@, ids@, m),
            cached(old(self).cache).dom().union(texts(ids@).to_set()).len() <= MEMORY_CACHE_CAP ==> forall|x: Seq<char>|
                texts(ids@).contains(x) && #[trigger] memory_with_id(old(self).memories.rows@, x) is Some
                    ==> cached(final(self).cache).contains_key(x),
    {
        let ghost s0 = *self;
        let ghost room = cached(self.cache).dom().union(texts(ids@).to_set());
        proof {
            assert(cached(self.cache).dom().finite());
        }
        let ghost rows = self.memories.rows@;
        let mut out = MemoryMap { entries: Vec::new() };
        let mut i: usize = 0;
        while i < ids.len()
            invariant
                i <= ids@.len(),
                self.wf(),
                memories_only(s0, *self),
                self.memories == s0.memories,
                rows == self.memories.rows@,
                unique_ids(out.entries@),
                forall|x: Seq<char>| #[trigger] entry_for(out.entries@, x) == if texts(ids@.take(i as int)).contains(x) { memory_with_id(rows, x) } else { None },
                room == cached(s0.cache).dom().union(texts(ids@).to_set()),
                room.finite(),
                cached(self.cache).dom().subset_of(cached(s0.cache).dom().union(texts(ids@.take(i as int)).to_set())),
                room.len() <= MEMORY_CACHE_CAP ==> forall|x: Seq<char>|
                    texts(ids@.take(i as int)).contains(x) && #[trigger] memory_with_id(rows, x) is Some ==> cached(self.cache).contains_key(x),
            decreases ids.len() - i,
        {
            let key = owned(ids[i]);
            let ghost prev = texts(ids@.take(i as int));
            proof {
                assert(texts(ids@.take(i + 1)) =~= prev.push(key@));
            }
            if !out.contains_key(&key) {
                let found: Option<Memory> = match cache_get(&mut self.cache, ids[i]) {
                    Some(m) => Some(m),
                    None => match self.memories.index_of_id(&key) {
                        Some(k) => {
                            let m = self.memories.rows[k].copy();
                            proof {
                                crate::memory::lemma_memory_with_id_at(rows, self.memories.hashes@, k as int);
                            }
                            let ghost cb = cached(self.cache);
                            proof {
                                let tk = texts(ids@.take(i as int));
                                assert forall|x: Seq<char>| #[trigger] cb.dom().insert(key@).contains(x) implies room.contains(x) by {
                                    if x == key@ {
                                        assert(texts(ids@)[i as int] == key@);
                                    } else if !cached(s0.cache).dom().contains(x) {
                                        assert(tk.to_set().contains(x));
                                        let j = choose|j: int| 0 <= j < tk.len() && tk[j] == x;
                                        assert(texts(ids@)[j] == x);
                                    }
                                }
                                vstd::set_lib::lemma_len_subset(cb.dom().insert(key@), room);
                            }
                            cache_put(&mut self.cache, &m);
                            Some(m)
                        },
                        None => None,
                    },
                };
                match found {
                    Some(m) => {
                        let ghost before = out.entries@;
                        let ghost mm = m;
                        proof {
                            assert(memory_with_id(rows, key@) == Some(mm@));
                            let c = choose|c: int| 0 <= c < rows.len() && (#[trigger] rows[c]).id@ == key@;
                            assert(rows[c]@ == mm@);
                            assert(!prev.contains(key@)) by {
                                if prev.contains(key@) {
                                    assert(entry_for(before, key@) == memory_with_id(rows, key@));
                                }
                            }
                            crate::patterns::lemma_entry_for_push(before, mm@, mm);
                        }
                        out.entries.push(m);
                        proof {
                            assert forall|x: Seq<char>| #[trigger] entry_for(out.entries@, x) == if texts(ids@.take(i + 1)).contains(x) { memory_with_id(rows, x) } else { None } by {
                                if x == key@ {
                                    assert(texts(ids@.take(i + 1))[i as int] == key@);
                                } else {
                                    assert(texts(ids@.take(i + 1)).contains(x) == prev.contains(x));
                                }
                            }
                        }
                    },
                    None => {
                        proof {
                            assert(memory_with_id(rows, key@) is None);
                            assert forall|x: Seq<char>| #[trigger] entry_for(out.entries@, x) == if texts(ids@.take(i + 1)).contains(x) { memory_with_id(rows, x) } else { None } by {
                                if x != key@ {
                                    assert(texts(ids@.take(i + 1)).contains(x) == prev.contains(x));
                                }
                            }
                        }
                    },
                }
            } else {
                proof {
                    assert(prev.contains(key@));
                    assert forall|x: Seq<char>| #[trigger] entry_for(out.entries@, x) == if texts(ids@.take(i + 1)).contains(x) { memory_with_id(rows, x) } else { None } by {
                        assert(texts(ids@.take(i + 1)).contains(x) == prev.contains(x));
                    }
                }
            }
            i += 1;
        }
        proof {
            assert(ids@.take(ids@.len() as int) =~= ids@);
        }
        Ok(out)
    }

    /// Number of memories.
    pub fn count(&self) -> (r: IcmResult<usize>)
        ensures
            r == Ok::<usize, IcmError>(self.memories.rows@.len() as usize),
    {
        self.memories.count()
    }

    /// Number of memories of `topic`.
    pub fn count_by_topic(&self, topic: &str) -> (r: IcmResult<usize>)
        ensures
            r matches Ok(n) && exists|sel: Seq<usize>| topic_indices(self.memories.rows@, topic@, sel) && n == sel.len(),
    {
        self.memories.count_by_topic(topic)
    }

    /// The memory with id `id`, if any.
    /// A cached memory is answered from the cache; a memory read from the
    /// table is cached.
    pub fn get(&mut self, id: &str) -> (r: IcmResult<Option<Memory>>)
        requires
            old(self).wf(),
        ensures
            final(self).wf(),
            memories_only(*old(self), *final(self)),
            final(self).memories.rows@ == old(self).memories.rows@,
            r matches Ok(o) && match o {
                Some(m) => memory_with_id(old(self).memories.rows@, id@) == Some(m@),
                None => memory_with_id(old(self).memories.rows@, id@) is None,
            },
    {
        match cache_get(&mut self.cache, id) {
            Some(m) => {
                return Ok(Some(m));
            },
            None => {},
        }
        let r = self.memories.get(id);
        match &r {
            Ok(Some(m)) => {
                proof {
                    let i = choose|i: int| 0 <= i < self.memories.rows@.len() && (#[trigger] self.memories.rows@[i]).id@ == id@;
                    crate::memory::lemma_memory_with_id_at(self.memories.rows@, self.memories.hashes@, i);
                }
                cache_put(&mut self.cache, m);
            },
            _ => {},
        }
        r
    }

    /// Delete the memory `id`, dropping every link to it. A read-only store
    /// refuses; a missing id is `NotFound(id)`.
    pub fn delete(&mut self, id: &str) -> (r: IcmResult<()>)
        requires
            old(self).wf(),
        ensures
            final(self).wf(),
            memories_only(*old(self), *final(self)),
            old(self).readonly ==> final(self).memories.rows@ == old(self).memories.rows@
                && (r matches Err(IcmError::ReadOnly(m)) && m@ == "delete"@),
            !old(self).readonly ==> {
                &&& (r is Ok <==> exists|k: int| 0 <= k < old(self).memories.rows@.len() && (#[trigger] old(self).memories.rows@[k]).id@ == id@)
                &&& r is Ok ==> exists|k: int| (#[trigger] old(self).memories.rows@[k]).id@ == id@ && deleted_row(old(self).memories.rows@, final(self).memories.rows@, k)
                &&& r is Err ==> final(self).memories.rows@ == old(self).memories.rows@ && (r matches Err(IcmError::NotFound(m)) && m@ == id@)
            },
    {
        if self.readonly {
            return Err(IcmError::ReadOnly(owned("delete")));
        }
        let r = self.memories.delete(id);
        cache_clear(&mut self.cache);
        r
    }

    /// Replace the stored memory with `memory`'s id by `memory` (see
    /// `MemoryTable::update`); a read-only store refuses.
    pub fn update(&mut self, memory: &Memory) -> (r: IcmResult<()>)
        requires
            old(self).wf(),
        ensures
            final(self).wf(),
            memories_only(*old(self), *final(self)),
            old(self).readonly ==> final(self).memories.rows@ == old(self).memories.rows@
                && (r matches Err(IcmError::ReadOnly(m)) && m@ == "update"@),
            !old(self).readonly && memory_with_id(old(self).memories.rows@, memory.id@) is None ==> final(self).memories.rows@ == old(self).memories.rows@
                && (r matches Err(IcmError::NotFound(m)) && m@ == memory.id@),
            !old(self).readonly && memory_with_id(old(self).memories.rows@, memory.id@) is Some
                && hash_taken(old(self).memories.rows@, memory.id@, memory.topic@, memory.summary@)
                ==> final(self).memories.rows@ == old(self).memories.rows@ && (r matches Err(e) && e is Database),
            !old(self).readonly && memory_with_id(old(self).memories.rows@, memory.id@) is Some
                && !hash_taken(old(self).memories.rows@, memory.id@, memory.topic@, memory.summary@) ==> r is Ok && exists|k: int| {
                &&& 0 <= k < old(self).memories.rows@.len()
                &&& (#[trigger] old(self).memories.rows@[k]).id@ == memory.id@
                &&& final(self).memories.rows@.len() == old(self).memories.rows@.len()
                &&& final(self).memories.rows@[k]@ == memory@
                &&& forall|j: int| 0 <= j < old(self).memories.rows@.len() && j != k ==> (#[trigger] final(self).memories.rows@[j]) == old(self).memories.rows@[j]
            },
    {
        if self.readonly {
            return Err(IcmError::ReadOnly(owned("update")));
        }
        let ghost before = self.memories.rows@;
        let ghost hb = self.memories.hashes@;
        let m = memory.copy();
        let r = self.memories.update(m);
        if r.is_ok() {
            let ghost c0 = cached(self.cache);
            cache_invalidate(&mut self.cache, memory.id.as_str());
            proof {
                let after = self.memories.rows@;
                let gone = seq![memory.id@];
                assert forall|i: int| 0 <= i < before.len() && !gone.contains(#[trigger] before[i].id@) implies after[i]@ == before[i]@ by {
                    if !(after[i]@ == before[i]@) {
                        assert(gone[0] == before[i].id@);
                    }
                }
                lemma_coherent_after(c0, before, hb, after, self.memories.hashes@, gone);
            }
        }
        r
    }

    /// Record one access to memory `id`: its access count goes up by one
    /// (saturating) and its last access time becomes now. A read-only store
    /// does nothing; a missing id is `NotFound(id)`.
    pub fn update_access(&mut self, id: &str) -> (r: IcmResult<()>)
        requires
            old(self).wf(),
        ensures
            final(self).wf(),
            memories_only(*old(self), *final(self)),
            old(self).readonly ==> final(self).memories.rows@ == old(self).memories.rows@ && r is Ok,
            !old(self).readonly ==> exists|now: String| accessed(old(self).memories.rows@, final(self).memories.rows@, seq![id@], now),
            !old(self).readonly ==> (r is Ok <==> exists|k: int| 0 <= k < old(self).memories.rows@.len() && (#[trigger] old(self).memories.rows@[k]).id@ == id@),
            !old(self).readonly && r is Err ==> (r matches Err(IcmError::NotFound(m)) && m@ == id@),
    {
        if self.readonly {
            return Ok(());
        }
        let now = now_rfc3339();
        let ids: [&str; 1] = [id];
        let ghost t = self.memories.rows@;
        let ghost hb = self.memories.hashes@;
        let n = self.memories.touch(ids.as_slice(), &now);
        let ghost c0 = cached(self.cache);
        cache_invalidate(&mut self.cache, id);
        proof {
            assert(texts(ids@) =~= seq![id@]);
            lemma_coherent_after(c0, t, hb, self.memories.rows@, self.memories.hashes@, seq![id@]);
            assert(texts(ids@) =~= seq![id@]);
            assert(accessed(t, self.memories.rows@, seq![id@], now));
            let p = |m: Memory| seq![id@].contains(m.id@);
            if exists|k: int| 0 <= k < t.len() && (#[trigger] t[k]).id@ == id@ {
                let k = choose|k: int| 0 <= k < t.len() && (#[trigger] t[k]).id@ == id@;
                assert(seq![id@][0] == id@);
                assert(p(t[k]));
                t.lemma_filter_contains(p, k);
                assert(t.filter(p).contains(t[k]));
            } else {
                if t.filter(p).len() > 0 {
                    t.lemma_filter_pred(p, 0);
                    let x = t.filter(p)[0];
                    assert(t.filter(p).contains(x));
                    t.lemma_filter_contains_rev(p, x);
                    let k = choose|k: int| 0 <= k < t.len() && t[k] == x;
                    assert(seq![id@].contains(x.id@));
                    let z = choose|z: int| 0 <= z < 1 && seq![id@][z] == x.id@;
                    assert(t[k].id@ == id@);
                }
            }
        }
        if n == 0 {
            return Err(IcmError::NotFound(owned(id)));
        }
        Ok(())
    }

    /// Record one access to each memory named in `ids`, answering how many
    /// memories that touched. No ids, or a read-only store, touch nothing.
    pub fn batch_update_access(&mut self, ids: &[&str]) -> (r: IcmResult<usize>)
        requires
            old(self).wf(),
        ensures
            final(self).wf(),
            memories_only(*old(self), *final(self)),
            (old(self).readonly || ids@.len() == 0) ==> final(self).memories.rows@ == old(self).memories.rows@
                && r == Ok::<usize, IcmError>(0),
            !(old(self).readonly || ids@.len() == 0) ==> exists|now: String| {
                &&& accessed(old(self).memories.rows@, final(self).memories.rows@, texts(ids@), now)
                &&& r matches Ok(n) && n == touched_count(old(self).memories.rows@, texts(ids@))
            },
    {
        if ids.len() == 0 || self.readonly {
            return Ok(0);
        }
        let now = now_rfc3339();
        let ghost t = self.memories.rows@;
        let ghost hb = self.memories.hashes@;
        let n = self.memories.touch(ids, &now);
        let ghost c0 = cached(self.cache);
        cache_invalidate_many(&mut self.cache, ids);
        proof {
            lemma_coherent_after(c0, t, hb, self.memories.rows@, self.memories.hashes@, texts(ids@));
        }
        Ok(n)
    }

    /// Memories in which one of the first 50 keywords occurs literally
    /// (ASCII case ignored) in the topic, the summary or a keyword,
    /// heaviest first, at most `limit` and never more than 100.
    pub fn search_by_keywords(&self, keywords: &[&str], limit: usize) -> (r: IcmResult<Vec<Memory>>)
        ensures
            r matches Ok(v) && (keywords@.len() == 0 ==> v@.len() == 0) && (keywords@.len() > 0 ==> heaviest_where(
                self.memories.rows@,
                keyword_hit(capped_keywords(keywords@)),
                min_nat(limit as nat, SEARCH_LIMIT_CAP as nat),
                v@,
            )),
    {
        Ok(self.memories.search_by_keywords(keywords, limit))
    }

    /// Full-text search: memories of which every term of the query is a
    /// term of the topic or summary (lower-cased), heaviest first, at most
    /// `limit` and never more than 100. A query with no term finds nothing.
    pub fn search_fts(&self, query: &str, limit: usize) -> (r: IcmResult<Vec<Memory>>)
        ensures
            r matches Ok(v) && exists|k: int| {
                &&& is_char_boundary_truncation(query@, FTS_MAX_QUERY_BYTES as nat, k)
                &&& query_terms(query@, k).len() == 0 ==> v@.len() == 0
                &&& query_terms(query@, k).len() > 0 ==> heaviest_where(
                    self.memories.rows@,
                    fts_hit(query_terms(query@, k)),
                    min_nat(limit as nat, SEARCH_LIMIT_CAP as nat),
                    v@,
                )
            },
    {
        Ok(self.memories.search_fts(query, limit))
    }

    /// Number of memories and topics, mean weight, earliest and latest
    /// creation times.
    pub fn stats(&self) -> (r: IcmResult<StoreStats>)
        ensures
            r matches Ok(s) && stats_of(self.memories.rows@, s),
    {
        Ok(self.memories.stats())
    }

    /// One decay pass at `factor_permille` thousandths (see
    /// `MemoryTable::apply_decay`); a read-only store refuses.
    pub fn apply_decay(&mut self, factor_permille: u32) -> (r: IcmResult<usize>)
        requires
            old(self).wf(),
        ensures
            final(self).wf(),
            memories_only(*old(self), *final(self)),
            old(self).readonly ==> final(self).memories.rows@ == old(self).memories.rows@
                && (r matches Err(IcmError::ReadOnly(m)) && m@ == "apply_decay"@),
            !old(self).readonly ==> decayed_rows(old(self).memories.rows@, final(self).memories.rows@, factor_permille)
                && r == Ok::<usize, IcmError>(non_critical_count(old(self).memories.rows@) as usize),
    {
        if self.readonly {
            return Err(IcmError::ReadOnly(owned("apply_decay")));
        }
        let n = self.memories.apply_decay(factor_permille);
        cache_clear(&mut self.cache);
        Ok(n)
    }

    /// Remove the memories whose weight is under `weight_threshold` (fixed
    /// point), critical and high ones excepted, answering how many went
    /// (see `MemoryTable::prune`); a read-only store refuses.
    pub fn prune(&mut self, weight_threshold: u32) -> (r: IcmResult<usize>)
        requires
            old(self).wf(),
        ensures
            final(self).wf(),
            memories_only(*old(self), *final(self)),
            old(self).readonly ==> final(self).memories.rows@ == old(self).memories.rows@
                && (r matches Err(IcmError::ReadOnly(m)) && m@ == "prune"@),
            !old(self).readonly ==> mem_views(final(self).memories.rows@) == mem_views(old(self).memories.rows@.filter(survives(weight_threshold)))
                && r == Ok::<usize, IcmError>((old(self).memories.rows@.len() - final(self).memories.rows@.len()) as usize),
    {
        if self.readonly {
            return Err(IcmError::ReadOnly(owned("prune")));
        }
        let n = self.memories.prune(weight_threshold);
        cache_clear(&mut self.cache);
        Ok(n)
    }

    /// Replace the memories of `topic` by `consolidated` (see
    /// `MemoryTable::consolidate_topic`); a read-only store refuses.
    pub fn consolidate_topic(&mut self, topic: &str, consolidated: Memory) -> (r: IcmResult<()>)
        requires
            old(self).wf(),
        ensures
            final(self).wf(),
            memories_only(*old(self), *final(self)),
            old(self).readonly ==> final(self).memories.rows@ == old(self).memories.rows@
                && (r matches Err(IcmError::ReadOnly(m)) && m@ == "consolidate_topic"@),
            !old(self).readonly && memory_input_error(consolidated.topic@, consolidated.summary@) is Some ==> {
                &&& final(self).memories.rows@ == old(self).memories.rows@
                &&& r matches Err(IcmError::InvalidInput(m)) && Some(m@) == memory_input_error(consolidated.topic@, consolidated.summary@)
            },
            !old(self).readonly && memory_input_error(consolidated.topic@, consolidated.summary@) is None ==> exists|mid: Seq<Memory>, m: MemoryView| {
                &&& purged(old(self).memories.rows@, mid, topic@)
                &&& normalized_from(consolidated@, m)
                &&& match r {
                    Ok(_) => exists|id: Seq<char>| store_effect(mid, final(self).memories.rows@, m, id),
                    Err(e) => e is Database && mem_views(final(self).memories.rows@) == mem_views(old(self).memories.rows@),
                }
            },
    {
        if self.readonly {
            return Err(IcmError::ReadOnly(owned("consolidate_topic")));
        }
        let r = self.memories.consolidate_topic(topic, consolidated);
        cache_clear(&mut self.cache);
        r
    }

    /// Fold `topic` into one memory when it holds more than `threshold`
    /// (see `MemoryTable::auto_consolidate`). A read-only store never
    /// consolidates.
    pub fn auto_consolidate(&mut self, topic: &str, threshold: usize) -> (r: IcmResult<bool>)
        requires
            old(self).wf(),
        ensures
            final(self).wf(),
            memories_only(*old(self), *final(self)),
            old(self).readonly ==> final(self).memories.rows@ == old(self).memories.rows@ && r == Ok::<bool, IcmError>(false),
            !old(self).readonly ==> forall|sel: Seq<usize>| topic_indices(old(self).memories.rows@, topic@, sel) && sel.len() <= threshold
                ==> r == Ok::<bool, IcmError>(false) && final(self).memories.rows@ == old(self).memories.rows@,
            !old(self).readonly ==> forall|sel: Seq<usize>| topic_indices(old(self).memories.rows@, topic@, sel) && sel.len() > threshold ==> exists|v: Seq<Memory>, c: Memory| {
                &&& heaviest_of_topic(old(self).memories.rows@, topic@, v)
                &&& folded(v, topic@, c)
                &&& memory_input_error(c.topic@, c.summary@) is Some ==> {
                    &&& final(self).memories.rows@ == old(self).memories.rows@
                    &&& r matches Err(IcmError::InvalidInput(m)) && Some(m@) == memory_input_error(c.topic@, c.summary@)
                }
                &&& memory_input_error(c.topic@, c.summary@) is None ==> exists|mid: Seq<Memory>, m: MemoryView| {
                    &&& purged(old(self).memories.rows@, mid, topic@)
                    &&& normalized_from(c@, m)
                    &&& match r {
                        Ok(b) => b && exists|id: Seq<char>| store_effect(mid, final(self).memories.rows@, m, id),
                        Err(e) => e is Database && mem_views(final(self).memories.rows@) == mem_views(old(self).memories.rows@),
                    }
                }
            },
    {
        if self.readonly {
            return Ok(false);
        }
        let r = self.memories.auto_consolidate(topic, threshold);
        cache_clear(&mut self.cache);
        r
    }

    /// As `auto_consolidate`; embeddings are not kept by this store, so the
    /// embedder is not consulted.
    pub fn auto_consolidate_with_embedder(&mut self, topic: &str, threshold: usize, embedder: Option<&dyn Embedder>) -> (r: IcmResult<bool>)
        requires
            old(self).wf(),
        ensures
            final(self).wf(),
            memories_only(*old(self), *final(self)),
            old(self).readonly ==> final(self).memories.rows@ == old(self).memories.rows@ && r == Ok::<bool, IcmError>(false),
            !old(self).readonly ==> forall|sel: Seq<usize>| topic_indices(old(self).memories.rows@, topic@, sel) && sel.len() <= threshold
                ==> r == Ok::<bool, IcmError>(false) && final(self).memories.rows@ == old(self).memories.rows@,
            !old(self).readonly ==> forall|sel: Seq<usize>| topic_indices(old(self).memories.rows@, topic@, sel) && sel.len() > threshold ==> exists|v: Seq<Memory>, c: Memory| {
                &&& heaviest_of_topic(old(self).memories.rows@, topic@, v)
                &&& folded(v, topic@, c)
                &&& memory_input_error(c.topic@, c.summary@) is Some ==> {
                    &&& final(self).memories.rows@ == old(self).memories.rows@
                    &&& r matches Err(IcmError::InvalidInput(m)) && Some(m@) == memory_input_error(c.topic@, c.summary@)
                }
                &&& memory_input_error(c.topic@, c.summary@) is None ==> exists|mid: Seq<Memory>, m: MemoryView| {
                    &&& purged(old(self).memories.rows@, mid, topic@)
                    &&& normalized_from(c@, m)
                    &&& match r {
                        Ok(b) => b && exists|id: Seq<char>| store_effect(mid, final(self).memories.rows@, m, id),
                        Err(e) => e is Database && mem_views(final(self).memories.rows@) == mem_views(old(self).memories.rows@),
                    }
                }
            },
    {
        self.auto_consolidate(topic, threshold)
    }

    /// Recurring patterns in `topic` (see `MemoryTable::detect_patterns`).
    pub fn detect_patterns(&self, topic: &str, min_cluster_size: usize) -> (r: IcmResult<Vec<PatternCluster>>)
        ensures
            r matches Ok(out) && exists|v: Seq<Memory>| {
                &&& #[trigger] heaviest_of_topic(self.memories.rows@, topic@, v)
                &&& v.len() < min_cluster_size ==> out@.len() == 0
                &&& v.len() >= min_cluster_size ==> pattern_clusters(v, min_cluster_size as nat, out@)
            },
    {
        self.memories.detect_patterns(topic, min_cluster_size)
    }
}

} // verus!
