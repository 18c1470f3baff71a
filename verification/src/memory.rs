//! The memories table: validated, deduplicated writes and the reads the
//! recall path makes.
use vstd::prelude::*;
use crate::clock::new_ulid;
use crate::model::{IcmError, IcmResult, Importance, Memory, MemoryView, copy_strings, max_importance, rank_of};
use crate::normalize::{check_memory_input, content_hash, memory_input_error, summary_hash, trim, trimmed};
use crate::order::{TextKeyed, sort_by_count_desc, sort_by_text, sorted_by_count_desc, sorted_by_text};
use crate::like::{like_match, like_matches};
use crate::facts::lemma_filter_step;
use crate::patterns::heaviest_of_topic;
use crate::text::{chars_of, owned};

verus! {

broadcast use vstd::seq_lib::group_seq_properties;

/// The memories table: rows in insertion order, with each row's content
/// hash beside it.
pub struct MemoryTable {
    pub rows: Vec<Memory>,
    pub hashes: Vec<String>,
}

/// Memory ids are unique and each row's content hash is recorded beside it.
pub open spec fn memories_wf(t: Seq<Memory>, h: Seq<String>) -> bool {
    &&& h.len() == t.len()
    &&& forall|i: int| 0 <= i < t.len() ==> (#[trigger] h[i])@ == content_hash(t[i].topic@, t[i].summary@)
    &&& forall|i: int, j: int| 0 <= i < t.len() && 0 <= j < t.len() && i != j ==> (#[trigger] t[i]).id@ != (#[trigger] t[j]).id@
    &&& forall|i: int, j: int| 0 <= i < t.len() && 0 <= j < t.len() && i != j ==> (#[trigger] h[i])@ != (#[trigger] h[j])@
}

/// The row holding `id`, if any.
pub open spec fn memory_with_id(t: Seq<Memory>, id: Seq<char>) -> Option<MemoryView> {
    if exists|i: int| 0 <= i < t.len() && (#[trigger] t[i]).id@ == id {
        Some(t[choose|i: int| 0 <= i < t.len() && (#[trigger] t[i]).id@ == id]@)
    } else {
        None
    }
}

/// The row at `i` is the row holding its id.
pub proof fn lemma_memory_with_id_at(t: Seq<Memory>, h: Seq<String>, i: int)
    requires
        memories_wf(t, h),
        0 <= i < t.len(),
    ensures
        memory_with_id(t, t[i].id@) == Some(t[i]@),
{
    let c = choose|c: int| 0 <= c < t.len() && (#[trigger] t[c]).id@ == t[i].id@;
    assert(0 <= c < t.len() && t[c].id@ == t[i].id@);
}

/// `after` is `before` after `validate_and_normalize`: topic trimmed, a fresh
/// 26-character id if the id was blank, everything else kept.
pub open spec fn normalized_from(before: MemoryView, after: MemoryView) -> bool {
    &&& after.topic@ == trimmed(before.topic@)
    &&& if trimmed(before.id@).len() == 0 { after.id@.len() == 26 } else { after.id == before.id }
    &&& after.created_at == before.created_at
    &&& after.updated_at == before.updated_at
    &&& after.last_accessed == before.last_accessed
    &&& after.access_count == before.access_count
    &&& after.weight == before.weight
    &&& after.summary == before.summary
    &&& after.raw_excerpt == before.raw_excerpt
    &&& after.keywords == before.keywords
    &&& after.importance == before.importance
    &&& after.source == before.source
    &&& after.related_ids == before.related_ids
}

/// Validate and normalise a memory before storing: the topic and summary
/// may not be blank, a blank id is replaced by a fresh one, and the topic
/// is trimmed.
pub fn validate_and_normalize(memory: Memory) -> (r: IcmResult<Memory>)
    ensures
        trimmed(memory.topic@).len() == 0 ==> (r matches Err(IcmError::InvalidInput(m)) && m@ == "topic cannot be empty"@),
        trimmed(memory.topic@).len() > 0 && trimmed(memory.summary@).len() == 0 ==> (r matches Err(IcmError::InvalidInput(m)) && m@ == "summary cannot be empty"@),
        trimmed(memory.topic@).len() > 0 && trimmed(memory.summary@).len() > 0 ==> (r matches Ok(m) && normalized_from(memory@, m@)),
{
    let mut memory = memory;
    let t = trim(memory.topic.as_str());
    if t.as_str().is_empty() {
        return Err(IcmError::InvalidInput(owned("topic cannot be empty")));
    }
    if trim(memory.summary.as_str()).as_str().is_empty() {
        return Err(IcmError::InvalidInput(owned("summary cannot be empty")));
    }
    if trim(memory.id.as_str()).as_str().is_empty() {
        memory.id = new_ulid();
    }
    memory.topic = t;
    Ok(memory)
}

/// How `store` changes the table when the input passed validation as `m`:
/// a row with the same content hash absorbs it (its importance becomes the
/// higher of the two) and its id is answered; otherwise `m` is appended and
/// its id answered.
pub open spec fn store_effect(before: Seq<Memory>, after: Seq<Memory>, m: MemoryView, id: Seq<char>) -> bool {
    if exists|k: int| 0 <= k < before.len() && content_hash((#[trigger] before[k]).topic@, before[k].summary@) == content_hash(m.topic@, m.summary@) {
        let k = choose|k: int| 0 <= k < before.len() && content_hash((#[trigger] before[k]).topic@, before[k].summary@) == content_hash(m.topic@, m.summary@);
        &&& after.len() == before.len()
        &&& id == before[k].id@
        &&& after[k]@ == MemoryView {
            importance: if rank_of(before[k].importance) >= rank_of(m.importance) { before[k].importance } else { m.importance },
            ..before[k]@
        }
        &&& forall|j: int| 0 <= j < before.len() && j != k ==> (#[trigger] after[j])@ == before[j]@
    } else {
        &&& after.len() == before.len() + 1
        &&& after.last()@ == m
        &&& id == m.id@
        &&& forall|j: int| 0 <= j < before.len() ==> (#[trigger] after[j])@ == before[j]@
    }
}

impl MemoryTable {
    /// The table invariant.
    pub open spec fn wf(&self) -> bool {
        memories_wf(self.rows@, self.hashes@)
    }

    /// An empty table.
    pub fn new() -> (t: MemoryTable)
        ensures
            t.wf(),
            t.rows@.len() == 0,
    {
        MemoryTable { rows: Vec::new(), hashes: Vec::new() }
    }

    /// The row holding `id`, if there is one.
    pub fn get(&self, id: &str) -> (r: IcmResult<Option<Memory>>)
        requires
            self.wf(),
        ensures
            r matches Ok(o) && match o {
                Some(m) => memory_with_id(self.rows@, id@) == Some(m@),
                None => memory_with_id(self.rows@, id@) is None,
            },
    {
        let key = owned(id);
        match self.index_of_id(&key) {
            Some(i) => {
                proof {
                    lemma_memory_with_id_at(self.rows@, self.hashes@, i as int);
                }
                Ok(Some(self.rows[i].copy()))
            },
            None => Ok(None),
        }
    }

    /// Index of the row holding `id`.
    pub fn index_of_id(&self, id: &String) -> (r: Option<usize>)
        ensures
            r matches Some(i) ==> i < self.rows@.len() && self.rows@[i as int].id@ == id@,
            r is None ==> forall|i: int| 0 <= i < self.rows@.len() ==> (#[trigger] self.rows@[i]).id@ != id@,
    {
        let mut i: usize = 0;
        while i < self.rows.len()
            invariant
                i <= self.rows.len(),
                forall|j: int| 0 <= j < i ==> (#[trigger] self.rows@[j]).id@ != id@,
            decreases self.rows.len() - i,
        {
            if self.rows[i].id == *id {
                return Some(i);
            }
            i += 1;
        }
        None
    }

    /// Index of the row whose content hash is `h`.
    fn index_of_hash(&self, h: &String) -> (r: Option<usize>)
        requires
            self.hashes@.len() == self.rows@.len(),
        ensures
            r matches Some(i) ==> i < self.hashes@.len() && self.hashes@[i as int]@ == h@,
            r is None ==> forall|i: int| 0 <= i < self.hashes@.len() ==> (#[trigger] self.hashes@[i])@ != h@,
    {
        let mut i: usize = 0;
        while i < self.hashes.len()
            invariant
                i <= self.hashes.len(),
                forall|j: int| 0 <= j < i ==> (#[trigger] self.hashes@[j])@ != h@,
            decreases self.hashes.len() - i,
        {
            if self.hashes[i] == *h {
                return Some(i);
            }
            i += 1;
        }
        None
    }

    /// Insert a memory. Input failing the write checks is refused with the
    /// reason; a memory whose normalised `(topic, summary)` hash matches a
    /// stored row is merged into that row (keeping the higher importance)
    /// and that row's id answered; a new id that is already taken is a
    /// database error; otherwise the normalised memory is appended and its
    /// id answered.
    pub fn insert(&mut self, memory: Memory) -> (r: IcmResult<String>)
        requires
            old(self).wf(),
        ensures
            final(self).wf(),
            memory_input_error(memory.topic@, memory.summary@) is Some ==> {
                &&& final(self).rows@ == old(self).rows@
                &&& r matches Err(IcmError::InvalidInput(m)) && Some(m@) == memory_input_error(memory.topic@, memory.summary@)
            },
            memory_input_error(memory.topic@, memory.summary@) is None ==> exists|m: MemoryView| {
                &&& normalized_from(memory@, m)
                &&& match r {
                    Ok(id) => store_effect(old(self).rows@, final(self).rows@, m, id@),
                    Err(e) => {
                        &&& e is Database
                        &&& final(self).rows@ == old(self).rows@
                        &&& exists|j: int| 0 <= j < old(self).rows@.len() && (#[trigger] old(self).rows@[j]).id@ == m.id@
                        &&& forall|k: int| 0 <= k < old(self).rows@.len() ==> content_hash((#[trigger] old(self).rows@[k]).topic@, old(self).rows@[k].summary@) != content_hash(m.topic@, m.summary@)
                    },
                }
            },
    {
        match check_memory_input(memory.topic.as_str(), memory.summary.as_str()) {
            Some(msg) => {
                return Err(IcmError::InvalidInput(msg));
            },
            None => {},
        }
        let ghost input = memory@;
        let m = match validate_and_normalize(memory) {
            Ok(m) => m,
            Err(e) => {
                return Err(e);
            },
        };
        let h = summary_hash(m.topic.as_str(), m.summary.as_str());
        proof {
            assert(normalized_from(input, m@));
        }
        let found = self.index_of_hash(&h);
        match found {
            Some(k) => {
                let ghost old_t = self.rows@;
                let mut row = self.rows[k].copy();
                row.importance = max_importance(row.importance, m.importance);
                let id = row.id.clone();
                self.rows.set(k, row);
                proof {
                    assert(content_hash(old_t[k as int].topic@, old_t[k as int].summary@) == content_hash(m.topic@, m.summary@));
                    let c = choose|c: int| 0 <= c < old_t.len() && content_hash((#[trigger] old_t[c]).topic@, old_t[c].summary@) == content_hash(m@.topic@, m@.summary@);
                    if c != k {
                        assert(self.hashes@[c]@ == self.hashes@[k as int]@);
                    }
                    assert(store_effect(old_t, self.rows@, m@, id@));
                }
                return Ok(id);
            },
            None => {},
        }
        if self.index_of_id(&m.id).is_some() {
            proof {
                assert forall|k: int| 0 <= k < self.rows@.len() implies content_hash((#[trigger] self.rows@[k]).topic@, self.rows@[k].summary@) != content_hash(m@.topic@, m@.summary@) by {
                    assert(self.hashes@[k]@ != h@);
                }
            }
            return Err(IcmError::Database(owned("UNIQUE constraint failed: memories.id")));
        }
        let ghost old_t = self.rows@;
        let ghost old_h = self.hashes@;
        let id = m.id.clone();
        self.rows.push(m);
        self.hashes.push(h);
        proof {
            assert forall|k: int| 0 <= k < old_t.len() implies content_hash((#[trigger] old_t[k]).topic@, old_t[k].summary@) != content_hash(m@.topic@, m@.summary@) by {
                assert(old_h[k]@ != h@);
            }
            assert(store_effect(old_t, self.rows@, m@, id@));
            let t = self.rows@;
            let hh = self.hashes@;
            assert forall|i: int, j: int| 0 <= i < t.len() && 0 <= j < t.len() && i != j implies (#[trigger] t[i]).id@ != (#[trigger] t[j]).id@ by {
                if i < old_t.len() && j < old_t.len() {
                    assert(t[i] == old_t[i] && t[j] == old_t[j]);
                } else if i < old_t.len() {
                    assert(t[i] == old_t[i]);
                } else {
                    assert(t[j] == old_t[j]);
                }
            }
            assert forall|i: int, j: int| 0 <= i < t.len() && 0 <= j < t.len() && i != j implies (#[trigger] hh[i])@ != (#[trigger] hh[j])@ by {
                if i < old_t.len() && j < old_t.len() {
                    assert(hh[i] == old_h[i] && hh[j] == old_h[j]);
                } else if i < old_t.len() {
                    assert(hh[i] == old_h[i]);
                    assert(old_h[i]@ == content_hash(old_t[i].topic@, old_t[i].summary@));
                } else {
                    assert(hh[j] == old_h[j]);
                    assert(old_h[j]@ == content_hash(old_t[j].topic@, old_t[j].summary@));
                }
            }
            assert forall|i: int| 0 <= i < t.len() implies (#[trigger] hh[i])@ == content_hash(t[i].topic@, t[i].summary@) by {
                if i < old_t.len() {
                    assert(hh[i] == old_h[i] && t[i] == old_t[i]);
                }
            }
        }
        Ok(id)
    }
}

impl MemoryTable {
    /// Put back a stored memory as it was saved, its content hash
    /// recomputed. An id or a content hash already taken is the database's
    /// uniqueness error and changes nothing.
    pub fn restore_row(&mut self, m: Memory) -> (r: IcmResult<()>)
        requires
            old(self).wf(),
        ensures
            final(self).wf(),
            r is Ok <==> (forall|k: int| 0 <= k < old(self).rows@.len() ==> (#[trigger] old(self).rows@[k]).id@ != m.id@
                && content_hash(old(self).rows@[k].topic@, old(self).rows@[k].summary@) != content_hash(m.topic@, m.summary@)),
            r is Ok ==> final(self).rows@ == old(self).rows@.push(m),
            r is Err ==> final(self).rows@ == old(self).rows@ && (r matches Err(e) && e is Database),
    {
        if self.index_of_id(&m.id).is_some() {
            return Err(IcmError::Database(owned("UNIQUE constraint failed: memories.id")));
        }
        let h = summary_hash(m.topic.as_str(), m.summary.as_str());
        match self.index_of_hash(&h) {
            Some(k) => {
                proof {
                    assert(self.hashes@[k as int]@ == content_hash(self.rows@[k as int].topic@, self.rows@[k as int].summary@));
                }
                return Err(IcmError::Database(owned("UNIQUE constraint failed: memories.content_hash")));
            },
            None => {},
        }
        let ghost old_t = self.rows@;
        let ghost old_h = self.hashes@;
        self.rows.push(m);
        self.hashes.push(h);
        proof {
            let t = self.rows@;
            let hh = self.hashes@;
            assert forall|k: int| 0 <= k < old_t.len() implies content_hash((#[trigger] old_t[k]).topic@, old_t[k].summary@) != content_hash(m.topic@, m.summary@) by {
                assert(old_h[k]@ != h@);
            }
            assert forall|i: int, j: int| 0 <= i < t.len() && 0 <= j < t.len() && i != j implies (#[trigger] t[i]).id@ != (#[trigger] t[j]).id@ by {
                if i < old_t.len() {
                    assert(t[i] == old_t[i]);
                }
                if j < old_t.len() {
                    assert(t[j] == old_t[j]);
                }
            }
            assert forall|i: int, j: int| 0 <= i < t.len() && 0 <= j < t.len() && i != j implies (#[trigger] hh[i])@ != (#[trigger] hh[j])@ by {
                if i < old_t.len() {
                    assert(hh[i] == old_h[i]);
                }
                if j < old_t.len() {
                    assert(hh[j] == old_h[j]);
                }
            }
            assert forall|i: int| 0 <= i < t.len() implies (#[trigger] hh[i])@ == content_hash(t[i].topic@, t[i].summary@) by {
                if i < old_t.len() {
                    assert(hh[i] == old_h[i] && t[i] == old_t[i]);
                }
            }
        }
        Ok(())
    }
}

/// The smaller of two numbers.
pub open spec fn min_nat(a: nat, b: nat) -> nat {
    if a < b { a } else { b }
}

/// `out` lists the `limit` heaviest rows among those at the indices `sel`,
/// heaviest first: distinct indices from `sel`, by descending weight, and
/// no index left out weighs more than one kept.
pub open spec fn top_by_weight(t: Seq<Memory>, sel: Seq<usize>, limit: nat, out: Seq<usize>) -> bool {
    &&& out.len() == min_nat(limit, sel.len())
    &&& out.no_duplicates()
    &&& forall|k: int| 0 <= k < out.len() ==> sel.contains(#[trigger] out[k])
    &&& forall|k: int, l: int| 0 <= k < l < out.len() ==> t[#[trigger] out[k] as int].weight >= t[#[trigger] out[l] as int].weight
    &&& forall|j: usize, k: int| sel.contains(j) && !out.contains(j) && 0 <= k < out.len() ==> #[trigger] t[j as int].weight <= #[trigger] t[out[k] as int].weight
}

/// The `limit` heaviest rows among those at the indices `sel`.
pub fn rank_by_weight(t: &Vec<Memory>, sel: &Vec<usize>, limit: usize) -> (out: Vec<usize>)
    requires
        sel@.no_duplicates(),
        forall|k: int| 0 <= k < sel@.len() ==> #[trigger] sel@[k] < t@.len(),
    ensures
        top_by_weight(t@, sel@, limit as nat, out@),
        forall|k: int| 0 <= k < out@.len() ==> #[trigger] out@[k] < t@.len(),
{
    let mut pairs: Vec<(u64, usize)> = Vec::new();
    let mut i: usize = 0;
    while i < sel.len()
        invariant
            i <= sel.len(),
            pairs@.len() == i,
            forall|k: int| 0 <= k < i ==> #[trigger] pairs@[k] == (t@[sel@[k] as int].weight as u64, sel@[k]),
            forall|k: int| 0 <= k < sel@.len() ==> #[trigger] sel@[k] < t@.len(),
        decreases sel.len() - i,
    {
        let ix = sel[i];
        pairs.push((t[ix].weight as u64, ix));
        i += 1;
    }
    let ghost unsorted = pairs@;
    proof {
        assert(unsorted.no_duplicates()) by {
            assert forall|a: int, b: int| 0 <= a < unsorted.len() && 0 <= b < unsorted.len() && a != b implies unsorted[a] != unsorted[b] by {
                assert(sel@[a] != sel@[b]);
            }
        }
        unsorted.lemma_multiset_has_no_duplicates();
    }
    let sorted = sort_by_count_desc(pairs);
    proof {
        unsorted.to_multiset_ensures();
        sorted@.to_multiset_ensures();
        sorted@.lemma_multiset_has_no_duplicates_conv();
    }
    let n = if limit < sorted.len() { limit } else { sorted.len() };
    let mut out: Vec<usize> = Vec::new();
    let mut k: usize = 0;
    while k < n
        invariant
            k <= n <= sorted@.len(),
            sorted@.len() == unsorted.len(),
            out@.len() == k,
            forall|a: int| 0 <= a < k ==> #[trigger] out@[a] == sorted@[a].1,
        decreases n - k,
    {
        out.push(sorted[k].1);
        k += 1;
    }
    proof {
        // every sorted pair is the (weight, index) pair of a selected index
        assert forall|a: int| 0 <= a < sorted@.len() implies sel@.contains((#[trigger] sorted@[a]).1) && sorted@[a].0 == t@[sorted@[a].1 as int].weight as u64 && sorted@[a].1 < t@.len() by {
            assert(sorted@.to_multiset().count(sorted@[a]) > 0);
            assert(unsorted.contains(sorted@[a]));
            let q = choose|q: int| 0 <= q < unsorted.len() && unsorted[q] == sorted@[a];
            assert(sel@[q] == sorted@[a].1);
        }
        assert(out@.no_duplicates()) by {
            assert forall|a: int, b: int| 0 <= a < out@.len() && 0 <= b < out@.len() && a != b implies out@[a] != out@[b] by {
                assert(sorted@[a] != sorted@[b]);
                assert(sel@.contains(sorted@[a].1));
                assert(sel@.contains(sorted@[b].1));
            }
        }
        assert forall|a: int| 0 <= a < out@.len() implies sel@.contains(#[trigger] out@[a]) by {
            assert(sel@.contains(sorted@[a].1));
        }
        assert forall|a: int| 0 <= a < out@.len() implies #[trigger] out@[a] < t@.len() by {
            assert(sel@.contains(sorted@[a].1));
        }
        assert forall|a: int, b: int| 0 <= a < b < out@.len() implies t@[#[trigger] out@[a] as int].weight >= t@[#[trigger] out@[b] as int].weight by {
            assert(sel@.contains(sorted@[a].1));
            assert(sel@.contains(sorted@[b].1));
            assert(sorted@[a].0 >= sorted@[b].0);
        }
        assert forall|j: usize, a: int| sel@.contains(j) && !out@.contains(j) && 0 <= a < out@.len() implies #[trigger] t@[j as int].weight <= #[trigger] t@[out@[a] as int].weight by {
            let q = choose|q: int| 0 <= q < sel@.len() && sel@[q] == j;
            assert(unsorted[q] == (t@[j as int].weight as u64, j));
            assert(unsorted.to_multiset().count(unsorted[q]) > 0);
            assert(sorted@.contains(unsorted[q]));
            let p = choose|p: int| 0 <= p < sorted@.len() && sorted@[p] == unsorted[q];
            if p < n {
                assert(out@[p] == j);
            }
            assert(sel@.contains(sorted@[a].1));
            assert(sorted@[a].0 >= sorted@[p].0);
        }
        assert(sel@.len() == unsorted.len());
    }
    out
}

/// The rows at the given indices, copied.
pub fn rows_at(t: &Vec<Memory>, idx: &Vec<usize>) -> (r: Vec<Memory>)
    requires
        forall|k: int| 0 <= k < idx@.len() ==> #[trigger] idx@[k] < t@.len(),
    ensures
        r@.len() == idx@.len(),
        forall|k: int| 0 <= k < idx@.len() ==> (#[trigger] r@[k])@ == t@[idx@[k] as int]@,
{
    let mut r: Vec<Memory> = Vec::new();
    let mut k: usize = 0;
    while k < idx.len()
        invariant
            k <= idx.len(),
            r@.len() == k,
            forall|a: int| 0 <= a < idx@.len() ==> #[trigger] idx@[a] < t@.len(),
            forall|a: int| 0 <= a < k ==> (#[trigger] r@[a])@ == t@[idx@[a] as int]@,
        decreases idx.len() - k,
    {
        r.push(t[idx[k]].copy());
        k += 1;
    }
    r
}

/// Most rows a topic read returns.
pub const TOPIC_READ_LIMIT: usize = 500;

/// Indices of the rows whose topic is `topic`, ascending.
pub open spec fn topic_indices(t: Seq<Memory>, topic: Seq<char>, sel: Seq<usize>) -> bool {
    &&& forall|k: int| 0 <= k < sel.len() ==> #[trigger] sel[k] < t.len() && t[sel[k] as int].topic@ == topic
    &&& forall|j: int| 0 <= j < t.len() && t[j].topic@ == topic ==> sel.contains(j as usize)
    &&& forall|a: int, b: int| 0 <= a < b < sel.len() ==> #[trigger] sel[a] < #[trigger] sel[b]
}

/// Strictly increasing sequences have no duplicates.
pub proof fn lemma_increasing_no_dup(s: Seq<usize>)
    requires
        forall|a: int, b: int| 0 <= a < b < s.len() ==> #[trigger] s[a] < #[trigger] s[b],
    ensures
        s.no_duplicates(),
{
    assert forall|a: int, b: int| 0 <= a < s.len() && 0 <= b < s.len() && a != b implies s[a] != s[b] by {
        if a < b {
            assert(s[a] < s[b]);
        } else {
            assert(s[b] < s[a]);
        }
    }
}

impl MemoryTable {
    /// Indices of the rows satisfying a per-row test on the topic.
    fn select_topic(&self, topic: &String) -> (sel: Vec<usize>)
        ensures
            topic_indices(self.rows@, topic@, sel@),
    {
        let mut sel: Vec<usize> = Vec::new();
        let mut i: usize = 0;
        while i < self.rows.len()
            invariant
                i <= self.rows.len(),
                forall|k: int| 0 <= k < sel@.len() ==> #[trigger] sel@[k] < i && self.rows@[sel@[k] as int].topic@ == topic@,
                forall|j: int| 0 <= j < i && self.rows@[j].topic@ == topic@ ==> sel@.contains(j as usize),
                forall|a: int, b: int| 0 <= a < b < sel@.len() ==> #[trigger] sel@[a] < #[trigger] sel@[b],
            decreases self.rows.len() - i,
        {
            if self.rows[i].topic == *topic {
                let ghost before = sel@;
                sel.push(i);
                proof {
                    assert forall|j: int| 0 <= j < i + 1 && self.rows@[j].topic@ == topic@ implies sel@.contains(j as usize) by {
                        if j < i {
                            let q = choose|q: int| 0 <= q < before.len() && before[q] == j as usize;
                            assert(sel@[q] == j as usize);
                        } else {
                            assert(sel@[before.len() as int] == i);
                        }
                    }
                }
            }
            i += 1;
        }
        sel
    }

    /// The memories of `topic`, heaviest first, at most 500.
    pub fn get_by_topic(&self, topic: &str) -> (r: IcmResult<Vec<Memory>>)
        ensures
            r matches Ok(v) && heaviest_of_topic(self.rows@, topic@, v@),
    {
        let t = owned(topic);
        let sel = self.select_topic(&t);
        proof {
            lemma_increasing_no_dup(sel@);
        }
        let out = rank_by_weight(&self.rows, &sel, TOPIC_READ_LIMIT);
        let v = rows_at(&self.rows, &out);
        Ok(v)
    }

    /// Number of memories.
    pub fn count(&self) -> (r: IcmResult<usize>)
        ensures
            r == Ok::<usize, IcmError>(self.rows@.len() as usize),
    {
        Ok(self.rows.len())
    }

    /// Number of memories of `topic`.
    pub fn count_by_topic(&self, topic: &str) -> (r: IcmResult<usize>)
        ensures
            r matches Ok(n) && exists|sel: Seq<usize>| topic_indices(self.rows@, topic@, sel) && n == sel.len(),
    {
        let t = owned(topic);
        let sel = self.select_topic(&t);
        Ok(sel.len())
    }
}

/// Whether a row's topic passes an optional `LIKE` pattern.
pub open spec fn topic_selected(m: Memory, pat: Option<Seq<char>>, ci: bool) -> bool {
    match pat {
        None => true,
        Some(p) => like_match(p, m.topic@, ci, false),
    }
}

/// Rows with topic `x` that pass the pattern.
pub open spec fn with_topic(x: Seq<char>, pat: Option<Seq<char>>, ci: bool) -> spec_fn(Memory) -> bool {
    |m: Memory| m.topic@ == x && topic_selected(m, pat, ci)
}

/// Number of rows with topic `x` that pass the pattern.
pub open spec fn topic_count(t: Seq<Memory>, x: Seq<char>, pat: Option<Seq<char>>, ci: bool) -> nat {
    t.filter(with_topic(x, pat, ci)).len()
}

/// The topics of rows that pass the pattern.
pub open spec fn selected_topics(t: Seq<Memory>, pat: Option<Seq<char>>, ci: bool) -> Set<Seq<char>> {
    Set::new(|x: Seq<char>| exists|i: int| 0 <= i < t.len() && topic_selected(#[trigger] t[i], pat, ci) && t[i].topic@ == x)
}

/// The names of `(topic, count)` entries.
pub open spec fn topic_names(g: Seq<(String, usize)>) -> Seq<Seq<char>> {
    Seq::new(g.len(), |i: int| g[i].0@)
}

/// `v` is the per-topic count of the rows passing the pattern: one entry
/// per such topic, with its exact count, ascending by topic.
pub open spec fn topic_listing(t: Seq<Memory>, pat: Option<Seq<char>>, ci: bool, v: Seq<(String, usize)>) -> bool {
    &&& topic_names(v).no_duplicates()
    &&& topic_names(v).to_set() == selected_topics(t, pat, ci)
    &&& forall|k: int| 0 <= k < v.len() ==> (#[trigger] v[k]).1 == topic_count(t, v[k].0@, pat, ci)
    &&& sorted_by_text(v)
}

impl TextKeyed for (String, usize) {
    open spec fn text_key(&self) -> Seq<char> {
        self.0@
    }

    fn key_chars(&self) -> (k: Vec<char>) {
        chars_of(self.0.as_str())
    }
}

/// Counting over a one-longer prefix.
proof fn lemma_topic_count_step(t: Seq<Memory>, i: int, x: Seq<char>, pat: Option<Seq<char>>, ci: bool)
    requires
        0 <= i < t.len(),
    ensures
        topic_count(t.take(i + 1), x, pat, ci) == topic_count(t.take(i), x, pat, ci) + if t[i].topic@ == x && topic_selected(t[i], pat, ci) {
            1int
        } else {
            0int
        },
{
    lemma_filter_step(t, i, with_topic(x, pat, ci));
}

/// Selected topics over a one-longer prefix.
proof fn lemma_selected_topics_step(t: Seq<Memory>, i: int, pat: Option<Seq<char>>, ci: bool)
    requires
        0 <= i < t.len(),
    ensures
        selected_topics(t.take(i + 1), pat, ci) == if topic_selected(t[i], pat, ci) {
            selected_topics(t.take(i), pat, ci).insert(t[i].topic@)
        } else {
            selected_topics(t.take(i), pat, ci)
        },
{
    let a = selected_topics(t.take(i + 1), pat, ci);
    let b = if topic_selected(t[i], pat, ci) {
        selected_topics(t.take(i), pat, ci).insert(t[i].topic@)
    } else {
        selected_topics(t.take(i), pat, ci)
    };
    assert forall|x: Seq<char>| a.contains(x) implies b.contains(x) by {
        let w = choose|w: int| 0 <= w < t.take(i + 1).len() && topic_selected(#[trigger] t.take(i + 1)[w], pat, ci) && t.take(i + 1)[w].topic@ == x;
        if w < i {
            assert(t.take(i)[w] == t.take(i + 1)[w]);
        }
    }
    assert forall|x: Seq<char>| b.contains(x) implies a.contains(x) by {
        if topic_selected(t[i], pat, ci) && x == t[i].topic@ {
            assert(t.take(i + 1)[i] == t[i]);
        } else {
            let w = choose|w: int| 0 <= w < t.take(i).len() && topic_selected(#[trigger] t.take(i)[w], pat, ci) && t.take(i)[w].topic@ == x;
            assert(t.take(i + 1)[w] == t.take(i)[w]);
        }
    }
    assert(a =~= b);
}

impl MemoryTable {
    /// Per-topic counts of the rows whose topic passes the optional `LIKE`
    /// pattern, ascending by topic.
    pub fn topic_counts(&self, pattern: Option<&Vec<char>>, ci: bool) -> (r: Vec<(String, usize)>)
        ensures
            topic_listing(self.rows@, pattern_view(pattern), ci, r@),
    {
        let ghost t = self.rows@;
        let ghost pat = pattern_view(pattern);
        let mut groups: Vec<(String, usize)> = Vec::new();
        let mut i: usize = 0;
        while i < self.rows.len()
            invariant
                i <= self.rows.len(),
                t == self.rows@,
                pat == pattern_view(pattern),
                forall|g: int| 0 <= g < groups@.len() ==> (#[trigger] groups@[g]).1 == topic_count(t.take(i as int), groups@[g].0@, pat, ci),
                topic_names(groups@).no_duplicates(),
                topic_names(groups@).to_set() == selected_topics(t.take(i as int), pat, ci),
                groups@.len() <= i,
            decreases self.rows.len() - i,
        {
            proof {
                lemma_selected_topics_step(t, i as int, pat, ci);
                assert(t.take(i + 1)[i as int] == t[i as int]);
            }
            let row = &self.rows[i];
            let passes = match pattern {
                None => true,
                Some(p) => like_matches(p, &chars_of(row.topic.as_str()), ci, false),
            };
            if passes {
                let mut g: usize = 0;
                let mut found = false;
                while g < groups.len()
                    invariant
                        g <= groups.len(),
                        !found ==> forall|h: int| 0 <= h < g ==> (#[trigger] groups@[h]).0@ != row.topic@,
                        found ==> g < groups.len() && groups@[g as int].0@ == row.topic@,
                    ensures
                        found ==> g < groups.len() && groups@[g as int].0@ == row.topic@,
                        !found ==> forall|h: int| 0 <= h < groups.len() ==> (#[trigger] groups@[h]).0@ != row.topic@,
                    decreases groups.len() - g + if found { 0int } else { 1int },
                {
                    if groups[g].0 == row.topic {
                        found = true;
                        break;
                    }
                    g += 1;
                }
                let ghost before = groups@;
                if found {
                    let c = groups[g].1;
                    let name = groups[g].0.clone();
                    proof {
                        lemma_topic_count_step(t, i as int, row.topic@, pat, ci);
                        t.take(i + 1).lemma_filter_len(with_topic(row.topic@, pat, ci));
                    }
                    groups.set(g, (name, c + 1));
                    proof {
                        assert(topic_names(groups@) =~= topic_names(before));
                        assert(topic_names(before).contains(row.topic@)) by {
                            assert(topic_names(before)[g as int] == row.topic@);
                        }
                        assert(selected_topics(t.take(i + 1), pat, ci) =~= selected_topics(t.take(i as int), pat, ci));
                        assert forall|h: int| 0 <= h < groups@.len() implies (#[trigger] groups@[h]).1 == topic_count(t.take(i + 1), groups@[h].0@, pat, ci) by {
                            lemma_topic_count_step(t, i as int, groups@[h].0@, pat, ci);
                            if h != g {
                                assert(groups@[h] == before[h]);
                                assert(topic_names(before)[h] != topic_names(before)[g as int]);
                            } else {
                                assert(groups@[h].0 == before[h].0);
                            }
                        }
                    }
                } else {
                    groups.push((row.topic.clone(), 1));
                    proof {
                        assert(topic_names(groups@) =~= topic_names(before).push(row.topic@));
                        assert(!topic_names(before).contains(row.topic@)) by {
                            if topic_names(before).contains(row.topic@) {
                                let h = choose|h: int| 0 <= h < topic_names(before).len() && topic_names(before)[h] == row.topic@;
                                assert(before[h].0@ == row.topic@);
                            }
                        }
                        assert forall|h: int| 0 <= h < groups@.len() implies (#[trigger] groups@[h]).1 == topic_count(t.take(i + 1), groups@[h].0@, pat, ci) by {
                            lemma_topic_count_step(t, i as int, groups@[h].0@, pat, ci);
                            if h < before.len() {
                                assert(groups@[h] == before[h]);
                                assert(before[h].0@ != row.topic@);
                            } else {
                                assert(topic_count(t.take(i as int), row.topic@, pat, ci) == 0) by {
                                    if topic_count(t.take(i as int), row.topic@, pat, ci) > 0 {
                                        let u = t.take(i as int);
                                        let f = with_topic(row.topic@, pat, ci);
                                        let x = u.filter(f)[0];
                                        u.lemma_filter_pred(f, 0);
                                        assert(u.filter(f).contains(x));
                                        u.lemma_filter_contains_rev(f, x);
                                        let w = choose|w: int| 0 <= w < u.len() && u[w] == x;
                                        assert(selected_topics(u, pat, ci).contains(row.topic@)) by {
                                            assert(topic_selected(u[w], pat, ci) && u[w].topic@ == row.topic@);
                                        }
                                        assert(topic_names(before).to_set().contains(row.topic@));
                                    }
                                }
                            }
                        }
                    }
                }
            } else {
                proof {
                    assert forall|h: int| 0 <= h < groups@.len() implies (#[trigger] groups@[h]).1 == topic_count(t.take(i + 1), groups@[h].0@, pat, ci) by {
                        lemma_topic_count_step(t, i as int, groups@[h].0@, pat, ci);
                    }
                }
            }
            i += 1;
        }
        proof {
            assert(t.take(t.len() as int) =~= t);
        }
        let ghost unsorted = groups@;
        proof {
            assert(unsorted.no_duplicates()) by {
                assert forall|a: int, b: int| 0 <= a < unsorted.len() && 0 <= b < unsorted.len() && a != b implies unsorted[a] != unsorted[b] by {
                    assert(topic_names(unsorted)[a] != topic_names(unsorted)[b]);
                }
            }
            unsorted.lemma_multiset_has_no_duplicates();
        }
        let sorted = sort_by_text(groups);
        proof {
            unsorted.to_multiset_ensures();
            sorted@.to_multiset_ensures();
            sorted@.lemma_multiset_has_no_duplicates_conv();
            let v = sorted@;
            assert forall|a: int| 0 <= a < v.len() implies unsorted.contains(#[trigger] v[a]) by {
                assert(v.to_multiset().count(v[a]) > 0);
            }
            assert forall|a: int| 0 <= a < unsorted.len() implies v.contains(#[trigger] unsorted[a]) by {
                assert(unsorted.to_multiset().count(unsorted[a]) > 0);
            }
            assert(topic_names(v).no_duplicates()) by {
                assert forall|a: int, b: int| 0 <= a < v.len() && 0 <= b < v.len() && a != b implies topic_names(v)[a] != topic_names(v)[b] by {
                    assert(unsorted.contains(v[a]));
                    assert(unsorted.contains(v[b]));
                    let qa = choose|q: int| 0 <= q < unsorted.len() && unsorted[q] == v[a];
                    let qb = choose|q: int| 0 <= q < unsorted.len() && unsorted[q] == v[b];
                    if qa != qb {
                        assert(topic_names(unsorted)[qa] != topic_names(unsorted)[qb]);
                    }
                }
            }
            assert(topic_names(v).to_set() =~= topic_names(unsorted).to_set()) by {
                assert forall|x: Seq<char>| topic_names(v).to_set().contains(x) implies topic_names(unsorted).to_set().contains(x) by {
                    let a = choose|a: int| 0 <= a < topic_names(v).len() && topic_names(v)[a] == x;
                    assert(unsorted.contains(v[a]));
                    let q = choose|q: int| 0 <= q < unsorted.len() && unsorted[q] == v[a];
                    assert(topic_names(unsorted)[q] == x);
                }
                assert forall|x: Seq<char>| topic_names(unsorted).to_set().contains(x) implies topic_names(v).to_set().contains(x) by {
                    let q = choose|q: int| 0 <= q < topic_names(unsorted).len() && topic_names(unsorted)[q] == x;
                    assert(v.contains(unsorted[q]));
                    let a = choose|a: int| 0 <= a < v.len() && v[a] == unsorted[q];
                    assert(topic_names(v)[a] == x);
                }
            }
            assert forall|k: int| 0 <= k < v.len() implies (#[trigger] v[k]).1 == topic_count(t, v[k].0@, pat, ci) by {
                assert(unsorted.contains(v[k]));
                let q = choose|q: int| 0 <= q < unsorted.len() && unsorted[q] == v[k];
            }
        }
        sorted
    }
}

/// An optional pattern as a sequence.
pub open spec fn pattern_view(p: Option<&Vec<char>>) -> Option<Seq<char>> {
    match p {
        Some(v) => Some(v@),
        None => None,
    }
}

/// Twice the decay multiplier of an importance level: `high` decays at
/// half speed, `low` at double speed, `critical` not at all.
pub open spec fn decay_twice_mult(i: Importance) -> int {
    match i {
        Importance::High => 1,
        Importance::Low => 4,
        _ => 2,
    }
}

/// The decayed weight: `w * max(0, 1 - (1 - f) * mult / (1 + min(access, 5) * 0.1))`
/// with `f = factor_permille / 1000`, in exact rational arithmetic rounded
/// down. A factor above 1 makes the weight grow; the fixed-point weight
/// then stops at `u32::MAX`.
pub open spec fn decayed_weight(w: u32, i: Importance, access: u32, factor_permille: u32) -> int {
    let a: int = if access < 5 { access as int } else { 5 };
    let den: int = 200 * (10 + a);
    let sub: int = (1000 - factor_permille) * decay_twice_mult(i);
    let keep: int = if den > sub { den - sub } else { 0 };
    let raw: int = (w * keep) / den;
    if raw <= u32::MAX { raw } else { u32::MAX as int }
}

/// `after` is `before` after one decay pass at `factor_permille`: every
/// non-critical row's weight decays, nothing else changes.
pub open spec fn decayed_rows(before: Seq<Memory>, after: Seq<Memory>, factor_permille: u32) -> bool {
    &&& after.len() == before.len()
    &&& forall|j: int| 0 <= j < before.len() ==> (#[trigger] after[j])@ == if before[j].importance == Importance::Critical {
        before[j]@
    } else {
        MemoryView { weight: decayed_weight(before[j].weight, before[j].importance, before[j].access_count, factor_permille) as u32, ..before[j]@ }
    }
}

/// Number of non-critical rows.
pub open spec fn non_critical_count(t: Seq<Memory>) -> nat {
    t.filter(|m: Memory| m.importance != Importance::Critical).len()
}

fn decayed_weight_exec(w: u32, i: Importance, access: u32, factor_permille: u32) -> (r: u32)
    ensures
        r == decayed_weight(w, i, access, factor_permille),
{
    let a: i128 = if access < 5 { access as i128 } else { 5 };
    let den: i128 = 200 * (10 + a);
    let twice: i128 = match i {
        Importance::High => 1,
        Importance::Low => 4,
        _ => 2,
    };
    let sub: i128 = (1000 - factor_permille as i128) * twice;
    let keep: i128 = if den > sub { den - sub } else { 0 };
    proof {
        assert(keep <= 3000 + 4 * 4294967295int);
        assert(0 <= (w as int) * (keep as int) <= 4294967295 * (3000 + 4 * 4294967295int)) by (nonlinear_arith)
            requires 0 <= keep <= 3000 + 4 * 4294967295int, 0 <= w <= 4294967295;
        assert(0 <= ((w as int) * (keep as int)) / (den as int)) by (nonlinear_arith)
            requires 0 <= keep, 0 <= w, den > 0;
    }
    let raw: i128 = ((w as i128) * keep) / den;
    if raw <= u32::MAX as i128 {
        raw as u32
    } else {
        u32::MAX
    }
}

impl MemoryTable {
    /// One decay pass: every non-critical memory's weight shrinks by a
    /// factor that depends on its importance and (up to five) accesses,
    /// never below zero. Answers how many rows were decayed.
    pub fn apply_decay(&mut self, factor_permille: u32) -> (r: usize)
        requires
            old(self).wf(),
        ensures
            final(self).wf(),
            decayed_rows(old(self).rows@, final(self).rows@, factor_permille),
            r == non_critical_count(old(self).rows@),
    {
        let ghost t = self.rows@;
        let ghost p = |m: Memory| m.importance != Importance::Critical;
        let mut n: usize = 0;
        let mut i: usize = 0;
        while i < self.rows.len()
            invariant
                i <= self.rows@.len() == t.len(),
                self.hashes@.len() == t.len(),
                memories_wf(t, self.hashes@),
                p == (|m: Memory| m.importance != Importance::Critical),
                n == t.take(i as int).filter(p).len(),
                n <= i,
                forall|j: int| 0 <= j < i ==> (#[trigger] self.rows@[j])@ == if t[j].importance == Importance::Critical {
                    t[j]@
                } else {
                    MemoryView { weight: decayed_weight(t[j].weight, t[j].importance, t[j].access_count, factor_permille) as u32, ..t[j]@ }
                },
                forall|j: int| i <= j < t.len() ==> self.rows@[j] == #[trigger] t[j],
            decreases t.len() - i,
        {
            proof {
                lemma_filter_step(t, i as int, p);
            }
            if self.rows[i].importance != Importance::Critical {
                let mut row = self.rows[i].copy();
                row.weight = decayed_weight_exec(row.weight, row.importance, row.access_count, factor_permille);
                self.rows.set(i, row);
                n = n + 1;
            }
            i += 1;
        }
        proof {
            assert(t.take(t.len() as int) =~= t);
            let u = self.rows@;
            assert forall|j: int| 0 <= j < u.len() implies (#[trigger] self.hashes@[j])@ == content_hash(u[j].topic@, u[j].summary@) by {
                assert(u[j]@.topic == t[j]@.topic && u[j]@.summary == t[j]@.summary);
            }
            assert forall|a: int, b: int| 0 <= a < u.len() && 0 <= b < u.len() && a != b implies (#[trigger] u[a]).id@ != (#[trigger] u[b]).id@ by {
                assert(u[a]@.id == t[a]@.id && u[b]@.id == t[b]@.id);
            }
        }
        n
    }
}

} // verus!
