//! Batched reads and topic-prefix queries over the memories table.
use vstd::prelude::*;
use crate::encode::{escape_like_wildcards, like_escaped};
use crate::like::{like_match, like_matches};
use crate::memory::{MemoryTable, TOPIC_READ_LIMIT, lemma_increasing_no_dup, memory_with_id, rank_by_weight, rows_at, top_by_weight, topic_indices, topic_listing, lemma_memory_with_id_at};
use crate::model::{IcmError, IcmResult, Memory, MemoryView};
use crate::text::{chars_of, owned};

verus! {

broadcast use vstd::seq_lib::group_seq_properties;

/// A group of memories of one topic whose keyword sets overlap.
#[derive(Clone, Debug, PartialEq, Eq)]
pub struct PatternCluster {
    pub representative_summary: String,
    pub memory_ids: Vec<String>,
    pub keywords: Vec<String>,
    pub count: usize,
}

/// Memories keyed by id, as `get_many` answers them.
pub struct MemoryMap {
    pub entries: Vec<Memory>,
}

/// The entry for `id` among `entries`, if any.
pub open spec fn entry_for(entries: Seq<Memory>, id: Seq<char>) -> Option<MemoryView> {
    if exists|i: int| 0 <= i < entries.len() && (#[trigger] entries[i]).id@ == id {
        Some(entries[choose|i: int| 0 <= i < entries.len() && (#[trigger] entries[i]).id@ == id]@)
    } else {
        None
    }
}

/// No two entries share an id.
pub open spec fn unique_ids(entries: Seq<Memory>) -> bool {
    forall|i: int, j: int| 0 <= i < entries.len() && 0 <= j < entries.len() && i != j ==> (#[trigger] entries[i]).id@ != (#[trigger] entries[j]).id@
}

impl MemoryMap {
    /// The entry for `id`, if any.
    pub open spec fn lookup(&self, id: Seq<char>) -> Option<MemoryView> {
        entry_for(self.entries@, id)
    }

    /// Number of entries.
    pub fn len(&self) -> (n: usize)
        ensures
            n == self.entries@.len(),
    {
        self.entries.len()
    }

    /// Whether there is no entry.
    pub fn is_empty(&self) -> (b: bool)
        ensures
            b == (self.entries@.len() == 0),
    {
        self.entries.len() == 0
    }

    fn position(&self, id: &String) -> (r: Option<usize>)
        ensures
            r matches Some(i) ==> i < self.entries@.len() && self.entries@[i as int].id@ == id@,
            r is None ==> forall|i: int| 0 <= i < self.entries@.len() ==> (#[trigger] self.entries@[i]).id@ != id@,
    {
        let mut i: usize = 0;
        while i < self.entries.len()
            invariant
                i <= self.entries.len(),
                forall|j: int| 0 <= j < i ==> (#[trigger] self.entries@[j]).id@ != id@,
            decreases self.entries.len() - i,
        {
            if self.entries[i].id == *id {
                return Some(i);
            }
            i += 1;
        }
        None
    }

    /// Whether there is an entry for `id`.
    pub fn contains_key(&self, id: &String) -> (b: bool)
        ensures
            b == (self.lookup(id@) is Some),
    {
        self.position(id).is_some()
    }

    /// The entry for `id`, if any.
    pub fn get(&self, id: &String) -> (r: Option<&Memory>)
        requires
            unique_ids(self.entries@),
        ensures
            match r {
                Some(m) => self.lookup(id@) == Some(m@),
                None => self.lookup(id@) is None,
            },
    {
        match self.position(id) {
            Some(i) => {
                proof {
                    let c = choose|c: int| 0 <= c < self.entries@.len() && (#[trigger] self.entries@[c]).id@ == id@;
                    assert(0 <= c < self.entries@.len() && self.entries@[c].id@ == id@);
                }
                Some(&self.entries[i])
            },
            None => None,
        }
    }
}

/// The texts of a list of string slices.
pub open spec fn texts(ids: Seq<&str>) -> Seq<Seq<char>> {
    Seq::new(ids.len(), |i: int| ids[i]@)
}

/// `m` holds, for every requested id that names a stored row, that row, and
/// nothing else.
pub open spec fn fetched(t: Seq<Memory>, ids: Seq<&str>, m: MemoryMap) -> bool {
    &&& unique_ids(m.entries@)
    &&& forall|x: Seq<char>| #[trigger] entry_for(m.entries@, x) == if texts(ids).contains(x) { memory_with_id(t, x) } else { None }
}

/// Looking up in a list extended by one entry with a new id.
pub proof fn lemma_entry_for_push(s: Seq<Memory>, v: MemoryView, m: Memory)
    requires
        unique_ids(s),
        m@ == v,
        forall|i: int| 0 <= i < s.len() ==> (#[trigger] s[i]).id@ != m.id@,
    ensures
        unique_ids(s.push(m)),
        forall|x: Seq<char>| #[trigger] entry_for(s.push(m), x) == if x == m.id@ { Some(v) } else { entry_for(s, x) },
{
    let t = s.push(m);
    assert forall|x: Seq<char>| #[trigger] entry_for(t, x) == if x == m.id@ { Some(v) } else { entry_for(s, x) } by {
        if x == m.id@ {
            assert(t[s.len() as int].id@ == x);
            let c = choose|c: int| 0 <= c < t.len() && (#[trigger] t[c]).id@ == x;
            if c < s.len() {
                assert(t[c] == s[c]);
            }
        } else if exists|c: int| 0 <= c < t.len() && (#[trigger] t[c]).id@ == x {
            let c = choose|c: int| 0 <= c < t.len() && (#[trigger] t[c]).id@ == x;
            assert(t[c] == s[c]);
            assert(exists|d: int| 0 <= d < s.len() && (#[trigger] s[d]).id@ == x);
            let d = choose|d: int| 0 <= d < s.len() && (#[trigger] s[d]).id@ == x;
            assert(t[d] == s[d]);
        } else {
            assert forall|d: int| 0 <= d < s.len() implies (#[trigger] s[d]).id@ != x by {
                assert(t[d] == s[d]);
            }
        }
    }
}

impl MemoryTable {
    /// Fetch the rows named by `ids` in one pass, one entry per distinct id;
    /// ids naming no row are dropped.
    pub fn get_many(&self, ids: &[&str]) -> (r: MemoryMap)
        requires
            self.wf(),
        ensures
            fetched(self.rows@, ids@, r),
    {
        let mut out = MemoryMap { entries: Vec::new() };
        let mut i: usize = 0;
        while i < ids.len()
            invariant
                i <= ids@.len(),
                self.wf(),
                unique_ids(out.entries@),
                forall|x: Seq<char>| #[trigger] entry_for(out.entries@, x) == if texts(ids@.take(i as int)).contains(x) { memory_with_id(self.rows@, x) } else { None },
            decreases ids.len() - i,
        {
            let key = owned(ids[i]);
            let ghost prev = texts(ids@.take(i as int));
            proof {
                assert(texts(ids@.take(i + 1)) =~= prev.push(key@));
            }
            if out.position(&key).is_none() {
                match self.index_of_id(&key) {
                    Some(k) => {
                        let ghost before = out.entries@;
                        let m = self.rows[k].copy();
                        let ghost mm = m;
                        out.entries.push(m);
                        proof {
                            lemma_memory_with_id_at(self.rows@, self.hashes@, k as int);
                            assert(!prev.contains(key@)) by {
                                if prev.contains(key@) {
                                    assert(entry_for(before, key@) == memory_with_id(self.rows@, key@));
                                }
                            }
                            lemma_entry_for_push(before, self.rows@[k as int]@, mm);
                            assert forall|x: Seq<char>| #[trigger] entry_for(out.entries@, x) == if texts(ids@.take(i + 1)).contains(x) { memory_with_id(self.rows@, x) } else { None } by {
                                assert(out.entries@ == before.push(out.entries@[before.len() as int]));
                                if x == key@ {
                                    assert(texts(ids@.take(i + 1))[i as int] == key@);
                                } else {
                                    assert(texts(ids@.take(i + 1)).contains(x) == prev.contains(x));
                                    assert(entry_for(before, x) == if prev.contains(x) { memory_with_id(self.rows@, x) } else { None });
                                }
                            }
                        }
                    },
                    None => {
                        proof {
                            assert(memory_with_id(self.rows@, key@) is None);
                            assert forall|x: Seq<char>| #[trigger] entry_for(out.entries@, x) == if texts(ids@.take(i + 1)).contains(x) { memory_with_id(self.rows@, x) } else { None } by {
                                if x != key@ {
                                    assert(texts(ids@.take(i + 1)).contains(x) == prev.contains(x));
                                }
                            }
                        }
                    },
                }
            } else {
                proof {
                    assert(out.lookup(key@) is Some);
                    assert(prev.contains(key@));
                    assert forall|x: Seq<char>| #[trigger] entry_for(out.entries@, x) == if texts(ids@.take(i + 1)).contains(x) { memory_with_id(self.rows@, x) } else { None } by {
                        assert(texts(ids@.take(i + 1)).contains(x) == prev.contains(x));
                    }
                }
            }
            i += 1;
        }
        proof {
            assert(ids@.take(ids@.len() as int) =~= ids@);
        }
        out
    }
}

/// `sel` lists, ascending, exactly the indices of the rows whose topic
/// matches the `LIKE` pattern `p`.
pub open spec fn like_indices(t: Seq<Memory>, p: Seq<char>, ci: bool, esc: bool, sel: Seq<usize>) -> bool {
    &&& forall|k: int| 0 <= k < sel.len() ==> #[trigger] sel[k] < t.len() && like_match(p, t[sel[k] as int].topic@, ci, esc)
    &&& forall|j: int| 0 <= j < t.len() && like_match(p, t[j].topic@, ci, esc) ==> sel.contains(j as usize)
    &&& forall|a: int, b: int| 0 <= a < b < sel.len() ==> #[trigger] sel[a] < #[trigger] sel[b]
}

/// `v` holds copies of the rows at `out`, in that order.
pub open spec fn rows_listed(t: Seq<Memory>, out: Seq<usize>, v: Seq<Memory>) -> bool {
    &&& v.len() == out.len()
    &&& forall|k: int| 0 <= k < out.len() ==> (#[trigger] v[k])@ == t[out[k] as int]@
}

/// `v` is the up-to-500 heaviest rows, heaviest first, whose topic matches
/// the `LIKE` pattern `p`.
pub open spec fn heaviest_matching(t: Seq<Memory>, p: Seq<char>, ci: bool, esc: bool, v: Seq<Memory>) -> bool {
    exists|sel: Seq<usize>, out: Seq<usize>| {
        &&& like_indices(t, p, ci, esc, sel)
        &&& top_by_weight(t, sel, TOPIC_READ_LIMIT as nat, out)
        &&& rows_listed(t, out, v)
    }
}

/// `v` is the up-to-500 heaviest rows of topic `topic`, heaviest first.
pub open spec fn heaviest_of_topic(t: Seq<Memory>, topic: Seq<char>, v: Seq<Memory>) -> bool {
    exists|sel: Seq<usize>, out: Seq<usize>| {
        &&& topic_indices(t, topic, sel)
        &&& top_by_weight(t, sel, TOPIC_READ_LIMIT as nat, out)
        &&& rows_listed(t, out, v)
    }
}

impl MemoryTable {
    /// Indices, ascending, of the rows whose topic matches a `LIKE` pattern.
    pub fn select_like(&self, p: &Vec<char>, ci: bool, esc: bool) -> (sel: Vec<usize>)
        ensures
            like_indices(self.rows@, p@, ci, esc, sel@),
    {
        let mut sel: Vec<usize> = Vec::new();
        let mut i: usize = 0;
        while i < self.rows.len()
            invariant
                i <= self.rows.len(),
                forall|k: int| 0 <= k < sel@.len() ==> #[trigger] sel@[k] < i && like_match(p@, self.rows@[sel@[k] as int].topic@, ci, esc),
                forall|j: int| 0 <= j < i && like_match(p@, self.rows@[j].topic@, ci, esc) ==> sel@.contains(j as usize),
                forall|a: int, b: int| 0 <= a < b < sel@.len() ==> #[trigger] sel@[a] < #[trigger] sel@[b],
            decreases self.rows.len() - i,
        {
            if like_matches(p, &chars_of(self.rows[i].topic.as_str()), ci, esc) {
                let ghost before = sel@;
                sel.push(i);
                proof {
                    assert forall|j: int| 0 <= j < i + 1 && like_match(p@, self.rows@[j].topic@, ci, esc) implies sel@.contains(j as usize) by {
                        if j < i {
                            let q = choose|q: int| 0 <= q < before.len() && before[q] == j as usize;
                            assert(sel@[q] == j as usize);
                        } else {
                            assert(sel@[before.len() as int] == i);
                        }
                    }
                }
            }
            i += 1;
        }
        sel
    }

    /// The up-to-500 heaviest rows whose topic matches a `LIKE` pattern.
    pub fn heaviest_like(&self, p: &Vec<char>, ci: bool, esc: bool) -> (v: Vec<Memory>)
        ensures
            heaviest_matching(self.rows@, p@, ci, esc, v@),
    {
        let sel = self.select_like(p, ci, esc);
        proof {
            lemma_increasing_no_dup(sel@);
        }
        let out = rank_by_weight(&self.rows, &sel, TOPIC_READ_LIMIT);
        rows_at(&self.rows, &out)
    }
}

/// `p` followed by the `LIKE` wildcard `%`.
pub fn with_wildcard(p: &str) -> (r: Vec<char>)
    ensures
        r@ == p@.push('%'),
{
    let mut r = chars_of(p);
    r.push('%');
    r
}

/// `p` with its `LIKE` wildcards escaped, followed by `%`.
pub fn literal_prefix_pattern(p: &str) -> (r: Vec<char>)
    ensures
        r@ == like_escaped(p@).push('%'),
{
    let e = escape_like_wildcards(p);
    with_wildcard(e.as_str())
}

} // verus!
