//! Deleting memories and the access bookkeeping of the recall path.
use vstd::prelude::*;
use crate::clock::now_rfc3339;
use crate::facts::lemma_filter_step;
use crate::memory::{MemoryTable, memories_wf, memory_with_id, selected_topics, topic_listing, topic_names};
use crate::order::{lemma_text_le_refl, lemma_text_le_total, lemma_text_le_trans, text_le, text_le_exec};
use crate::text::chars_of;
use crate::model::{IcmError, IcmResult, Importance, Memory, MemoryView};
use crate::normalize::content_hash;
use crate::consolidate::mem_views;
use crate::patterns::texts;
use crate::text::owned;

verus! {

broadcast use vstd::seq_lib::group_seq_properties;

/// The links of a memory with every link to `id` removed.
pub open spec fn links_without(links: Seq<String>, id: Seq<char>) -> Seq<String> {
    links.filter(not_link_to(id))
}

/// The links that do not point at `id`.
pub open spec fn not_link_to(id: Seq<char>) -> spec_fn(String) -> bool {
    |r: String| r@ != id
}

/// A memory with its links to `id` removed.
pub open spec fn unlinked(m: MemoryView, id: Seq<char>) -> MemoryView {
    MemoryView { related_ids: links_without(m.related_ids, id), ..m }
}

/// `after` is `before` without row `k`, and with every link to the removed
/// row's id dropped from the rows that remain.
pub open spec fn deleted_row(before: Seq<Memory>, after: Seq<Memory>, k: int) -> bool {
    &&& 0 <= k < before.len()
    &&& after.len() == before.len() - 1
    &&& forall|j: int| 0 <= j < after.len() ==> (#[trigger] after[j])@ == unlinked(
        if j < k { before[j]@ } else { before[j + 1]@ },
        before[k].id@,
    )
}

/// A copy of `links` without the entries equal to `id`.
pub fn drop_link(links: &Vec<String>, id: &String) -> (r: Vec<String>)
    ensures
        r@ == links_without(links@, id@),
{
    let ghost p = not_link_to(id@);
    let mut r: Vec<String> = Vec::new();
    let mut i: usize = 0;
    while i < links.len()
        invariant
            i <= links@.len(),
            p == not_link_to(id@),
            r@ == links@.take(i as int).filter(p),
        decreases links.len() - i,
    {
        proof {
            lemma_filter_step(links@, i as int, p);
        }
        if links[i] != *id {
            r.push(links[i].clone());
        }
        i += 1;
    }
    proof {
        assert(links@.take(links@.len() as int) =~= links@);
    }
    r
}

/// Whether `links` holds `id`.
pub fn has_link(links: &Vec<String>, id: &String) -> (b: bool)
    ensures
        b == exists|j: int| 0 <= j < links@.len() && (#[trigger] links@[j])@ == id@,
{
    let mut i: usize = 0;
    while i < links.len()
        invariant
            i <= links@.len(),
            forall|j: int| 0 <= j < i ==> (#[trigger] links@[j])@ != id@,
        decreases links.len() - i,
    {
        if links[i] == *id {
            return true;
        }
        i += 1;
    }
    false
}

/// Without any entry equal to `id`, filtering it out changes nothing.
proof fn lemma_links_without_absent(links: Seq<String>, id: String)
    requires
        forall|j: int| 0 <= j < links.len() ==> (#[trigger] links[j])@ != id@,
    ensures
        links_without(links, id@) == links,
{
    let p = not_link_to(id@);
    assert forall|j: int| 0 <= j < links.len() implies p(#[trigger] links[j]) by {
    }
    lemma_filter_keeps_all(links, p, links.len() as int);
    assert(links.take(links.len() as int) =~= links);
}

/// Filtering a prefix whose every element passes keeps it whole.
proof fn lemma_filter_keeps_all<A>(s: Seq<A>, p: spec_fn(A) -> bool, i: int)
    requires
        0 <= i <= s.len(),
        forall|j: int| 0 <= j < s.len() ==> p(#[trigger] s[j]),
    ensures
        s.take(i).filter(p) == s.take(i),
    decreases i,
{
    if i == 0 {
        assert(s.take(0) =~= Seq::<A>::empty());
        reveal(Seq::filter);
    } else {
        lemma_filter_keeps_all(s, p, i - 1);
        lemma_filter_step(s, i - 1, p);
        assert(s.take(i) =~= s.take(i - 1).push(s[i - 1]));
    }
}

/// The store invariant survives removing a row and rewriting links.
proof fn lemma_wf_after_delete(before: Seq<Memory>, oh: Seq<String>, after: Seq<Memory>, nh: Seq<String>, k: int)
    requires
        memories_wf(before, oh),
        deleted_row(before, after, k),
        nh == oh.remove(k),
    ensures
        memories_wf(after, nh),
{
    assert forall|i: int| 0 <= i < after.len() implies (#[trigger] nh[i])@ == content_hash(after[i].topic@, after[i].summary@) by {
        if i < k {
            assert(nh[i] == oh[i]);
        } else {
            assert(nh[i] == oh[i + 1]);
        }
    }
    assert forall|i: int, j: int| 0 <= i < after.len() && 0 <= j < after.len() && i != j implies (#[trigger] after[i]).id@ != (#[trigger] after[j]).id@ by {
        let a = if i < k { i } else { i + 1 };
        let b = if j < k { j } else { j + 1 };
        assert(after[i]@.id == before[a]@.id);
        assert(after[j]@.id == before[b]@.id);
    }
    assert forall|i: int, j: int| 0 <= i < after.len() && 0 <= j < after.len() && i != j implies (#[trigger] nh[i])@ != (#[trigger] nh[j])@ by {
        let a = if i < k { i } else { i + 1 };
        let b = if j < k { j } else { j + 1 };
        assert(nh[i] == oh[a]);
        assert(nh[j] == oh[b]);
    }
}

/// `after` is `before` after the access bookkeeping of a read of the rows whose
/// ids are in `ids`: each such row counts one more access (saturating) and
/// its last access time becomes `now`; the others are unchanged. `n` is the
/// number of rows touched.
pub open spec fn accessed(before: Seq<Memory>, after: Seq<Memory>, ids: Seq<Seq<char>>, now: String) -> bool {
    &&& after.len() == before.len()
    &&& forall|j: int| 0 <= j < before.len() ==> (#[trigger] after[j])@ == if ids.contains(before[j].id@) {
        MemoryView {
            access_count: if before[j].access_count < u32::MAX { (before[j].access_count + 1) as u32 } else { u32::MAX },
            last_accessed: now,
            ..before[j]@
        }
    } else {
        before[j]@
    }
}

/// Number of rows whose id is in `ids`.
pub open spec fn touched_count(t: Seq<Memory>, ids: Seq<Seq<char>>) -> nat {
    t.filter(|m: Memory| ids.contains(m.id@)).len()
}

impl MemoryTable {
    /// Delete the row holding `id`, dropping every other row's link to
    /// it; a missing id is `NotFound(id)` and changes nothing.
    pub fn delete(&mut self, id: &str) -> (r: IcmResult<()>)
        requires
            old(self).wf(),
        ensures
            final(self).wf(),
            r is Ok <==> exists|k: int| 0 <= k < old(self).rows@.len() && (#[trigger] old(self).rows@[k]).id@ == id@,
            r is Ok ==> exists|k: int| (#[trigger] old(self).rows@[k]).id@ == id@ && deleted_row(old(self).rows@, final(self).rows@, k),
            r is Err ==> final(self).rows@ == old(self).rows@ && (r matches Err(IcmError::NotFound(m)) && m@ == id@),
    {
        let key = owned(id);
        let k = match self.index_of_id(&key) {
            Some(k) => k,
            None => {
                return Err(IcmError::NotFound(key));
            },
        };
        let ghost old_t = self.rows@;
        let ghost old_h = self.hashes@;
        self.rows.remove(k);
        self.hashes.remove(k);
        let ghost mid = self.rows@;
        let mut i: usize = 0;
        while i < self.rows.len()
            invariant
                i <= self.rows@.len() == mid.len(),
                k < old_t.len(),
                mid == old_t.remove(k as int),
                self.hashes@ == old_h.remove(k as int),
                old_t[k as int].id@ == key@,
                forall|j: int| 0 <= j < i ==> (#[trigger] self.rows@[j])@ == unlinked(mid[j]@, key@),
                forall|j: int| i <= j < mid.len() ==> self.rows@[j] == #[trigger] mid[j],
            decreases mid.len() - i,
        {
            if has_link(&self.rows[i].related_ids, &key) {
                let mut row = self.rows[i].copy();
                row.related_ids = drop_link(&row.related_ids, &key);
                self.rows.set(i, row);
            } else {
                proof {
                    lemma_links_without_absent(mid[i as int].related_ids@, key);
                }
            }
            i += 1;
        }
        proof {
            assert(deleted_row(old_t, self.rows@, k as int)) by {
                assert forall|j: int| 0 <= j < self.rows@.len() implies (#[trigger] self.rows@[j])@ == unlinked(
                    if j < k { old_t[j]@ } else { old_t[j + 1]@ },
                    old_t[k as int].id@,
                ) by {
                    assert(mid[j] == if j < k { old_t[j] } else { old_t[j + 1] });
                }
            }
            lemma_wf_after_delete(old_t, old_h, self.rows@, self.hashes@, k as int);
        }
        Ok(())
    }

    /// The access bookkeeping of a read: every row whose id is among `ids`
    /// counts one more access (saturating) and was last accessed at `now`.
    /// Answers the number of rows touched.
    pub fn touch(&mut self, ids: &[&str], now: &String) -> (n: usize)
        requires
            old(self).wf(),
        ensures
            final(self).wf(),
            accessed(old(self).rows@, final(self).rows@, texts(ids@), *now),
            n == touched_count(old(self).rows@, texts(ids@)),
    {
        let ghost t = self.rows@;
        let ghost want = texts(ids@);
        let ghost p = |m: Memory| want.contains(m.id@);
        let mut n: usize = 0;
        let mut i: usize = 0;
        while i < self.rows.len()
            invariant
                i <= self.rows@.len() == t.len(),
                memories_wf(t, self.hashes@),
                want == texts(ids@),
                p == (|m: Memory| want.contains(m.id@)),
                n == t.take(i as int).filter(p).len(),
                n <= i,
                forall|j: int| 0 <= j < i ==> (#[trigger] self.rows@[j])@ == if want.contains(t[j].id@) {
                    MemoryView {
                        access_count: if t[j].access_count < u32::MAX { (t[j].access_count + 1) as u32 } else { u32::MAX },
                        last_accessed: *now,
                        ..t[j]@
                    }
                } else {
                    t[j]@
                },
                forall|j: int| i <= j < t.len() ==> self.rows@[j] == #[trigger] t[j],
            decreases t.len() - i,
        {
            proof {
                lemma_filter_step(t, i as int, p);
            }
            let mut hit = false;
            let mut q: usize = 0;
            while q < ids.len()
                invariant
                    q <= ids@.len(),
                    i < self.rows@.len(),
                    !hit ==> forall|z: int| 0 <= z < q ==> ids@[z]@ != self.rows@[i as int].id@,
                    hit ==> exists|z: int| 0 <= z < ids@.len() && ids@[z]@ == self.rows@[i as int].id@,
                decreases ids.len() - q,
            {
                if !hit && str_eq(ids[q], &self.rows[i].id) {
                    hit = true;
                }
                q += 1;
            }
            proof {
                if hit {
                    let z = choose|z: int| 0 <= z < ids@.len() && ids@[z]@ == self.rows@[i as int].id@;
                    assert(want[z] == ids@[z]@);
                } else {
                    if want.contains(t[i as int].id@) {
                        let z = choose|z: int| 0 <= z < want.len() && want[z] == t[i as int].id@;
                        assert(ids@[z]@ == want[z]);
                    }
                }
            }
            if hit {
                let mut row = self.rows[i].copy();
                row.access_count = if row.access_count < u32::MAX { row.access_count + 1 } else { u32::MAX };
                row.last_accessed = now.clone();
                self.rows.set(i, row);
                n = n + 1;
            }
            i += 1;
        }
        proof {
            assert(t.take(t.len() as int) =~= t);
            let u = self.rows@;
            assert forall|j: int| 0 <= j < u.len() implies (#[trigger] self.hashes@[j])@ == content_hash(u[j].topic@, u[j].summary@) by {
                assert(u[j]@.topic == t[j]@.topic && u[j]@.summary == t[j]@.summary);
            }
            assert forall|a: int, b: int| 0 <= a < u.len() && 0 <= b < u.len() && a != b implies (#[trigger] u[a]).id@ != (#[trigger] u[b]).id@ by {
                assert(u[a]@.id == t[a]@.id && u[b]@.id == t[b]@.id);
            }
        }
        n
    }
}

/// Whether a string slice and a string hold the same text.
pub fn str_eq(a: &str, b: &String) -> (r: bool)
    ensures
        r == (a@ == b@),
{
    let oa = owned(a);
    oa == *b
}

/// Aggregate figures over the memories table.
#[derive(Clone, Debug, PartialEq, Eq)]
pub struct StoreStats {
    pub total_memories: usize,
    pub total_topics: usize,
    /// Mean weight, fixed-point like `Memory::weight`, rounded down.
    pub avg_weight: u32,
    pub oldest_memory: Option<String>,
    pub newest_memory: Option<String>,
}

/// Sum of the weights of the rows.
pub open spec fn weight_total(t: Seq<Memory>) -> nat
    decreases t.len(),
{
    if t.len() == 0 {
        0
    } else {
        weight_total(t.drop_last()) + t.last().weight as nat
    }
}

/// `x` is the earliest creation time of the rows (in text order).
pub open spec fn is_oldest(t: Seq<Memory>, x: Seq<char>) -> bool {
    &&& exists|i: int| 0 <= i < t.len() && (#[trigger] t[i]).created_at@ == x
    &&& forall|j: int| 0 <= j < t.len() ==> text_le(x, (#[trigger] t[j]).created_at@)
}

/// `x` is the latest creation time of the rows (in text order).
pub open spec fn is_newest(t: Seq<Memory>, x: Seq<char>) -> bool {
    &&& exists|i: int| 0 <= i < t.len() && (#[trigger] t[i]).created_at@ == x
    &&& forall|j: int| 0 <= j < t.len() ==> text_le((#[trigger] t[j]).created_at@, x)
}

/// What `stats` reports of the rows.
pub open spec fn stats_of(t: Seq<Memory>, s: StoreStats) -> bool {
    &&& s.total_memories == t.len()
    &&& s.total_topics == selected_topics(t, None, true).len()
    &&& s.avg_weight == if t.len() == 0 { 0 } else { weight_total(t) / t.len() }
    &&& (s.oldest_memory is None <==> t.len() == 0)
    &&& (s.newest_memory is None <==> t.len() == 0)
    &&& (s.oldest_memory matches Some(x) ==> is_oldest(t, x@))
    &&& (s.newest_memory matches Some(x) ==> is_newest(t, x@))
}

impl MemoryTable {
    /// Number of memories and of distinct topics, mean weight, and the
    /// earliest and latest creation times.
    pub fn stats(&self) -> (s: StoreStats)
        ensures
            stats_of(self.rows@, s),
    {
        let t = &self.rows;
        let mut sum: u128 = 0;
        let mut oldest: Option<usize> = None;
        let mut newest: Option<usize> = None;
        let mut i: usize = 0;
        while i < t.len()
            invariant
                i <= t@.len(),
                sum == weight_total(t@.take(i as int)),
                sum <= i * 4294967295,
                (oldest is None <==> i == 0),
                (newest is None <==> i == 0),
                oldest matches Some(o) ==> o < i && forall|j: int| 0 <= j < i ==> text_le(t@[o as int].created_at@, (#[trigger] t@[j]).created_at@),
                newest matches Some(o) ==> o < i && forall|j: int| 0 <= j < i ==> text_le((#[trigger] t@[j]).created_at@, t@[o as int].created_at@),
            decreases t.len() - i,
        {
            proof {
                assert(t@.take(i + 1).drop_last() =~= t@.take(i as int));
                assert(t@.take(i + 1).last() == t@[i as int]);
            }
            sum = sum + t[i].weight as u128;
            let ci = chars_of(t[i].created_at.as_str());
            match oldest {
                None => {
                    proof {
                        lemma_text_le_refl(t@[i as int].created_at@);
                    }
                    oldest = Some(i);
                },
                Some(o) => {
                    let co = chars_of(t[o].created_at.as_str());
                    if !text_le_exec(&co, &ci) {
                        proof {
                            lemma_text_le_total(co@, ci@);
                            lemma_text_le_refl(ci@);
                            assert forall|j: int| 0 <= j < i + 1 implies text_le(ci@, (#[trigger] t@[j]).created_at@) by {
                                if j < i {
                                    lemma_text_le_trans(ci@, co@, t@[j].created_at@);
                                }
                            }
                        }
                        oldest = Some(i);
                    }
                },
            }
            match newest {
                None => {
                    proof {
                        lemma_text_le_refl(t@[i as int].created_at@);
                    }
                    newest = Some(i);
                },
                Some(o) => {
                    let co = chars_of(t[o].created_at.as_str());
                    if !text_le_exec(&ci, &co) {
                        proof {
                            lemma_text_le_total(co@, ci@);
                            lemma_text_le_refl(ci@);
                            assert forall|j: int| 0 <= j < i + 1 implies text_le((#[trigger] t@[j]).created_at@, ci@) by {
                                if j < i {
                                    lemma_text_le_trans(t@[j].created_at@, co@, ci@);
                                }
                            }
                        }
                        newest = Some(i);
                    }
                },
            }
            i += 1;
        }
        proof {
            assert(t@.take(t@.len() as int) =~= t@);
        }
        let n = t.len();
        let avg: u32 = if n == 0 {
            0
        } else {
            proof {
                assert(sum / (n as u128) <= 4294967295) by (nonlinear_arith)
                    requires sum <= n * 4294967295, n > 0;
            }
            (sum / (n as u128)) as u32
        };
        let listing = self.topic_counts(None, true);
        proof {
            topic_names(listing@).unique_seq_to_set();
        }
        StoreStats {
            total_memories: n,
            total_topics: listing.len(),
            avg_weight: avg,
            oldest_memory: match oldest {
                Some(o) => Some(t[o].created_at.clone()),
                None => None,
            },
            newest_memory: match newest {
                Some(o) => Some(t[o].created_at.clone()),
                None => None,
            },
        }
    }
}

/// Whether pruning below `threshold` removes the row: its weight is
/// under the threshold and it is neither critical nor high.
pub open spec fn pruned_away(threshold: u32) -> spec_fn(Memory) -> bool {
    |m: Memory| m.weight < threshold && m.importance != Importance::Critical && m.importance != Importance::High
}

/// Whether pruning below `threshold` keeps the row.
pub open spec fn survives(threshold: u32) -> spec_fn(Memory) -> bool {
    |m: Memory| !pruned_away(threshold)(m)
}

impl MemoryTable {
    /// Remove every memory whose weight is under `threshold` (fixed point)
    /// unless it is critical or high, answering how many went.
    pub fn prune(&mut self, threshold: u32) -> (n: usize)
        requires
            old(self).wf(),
        ensures
            final(self).wf(),
            mem_views(final(self).rows@) == mem_views(old(self).rows@.filter(survives(threshold))),
            n == old(self).rows@.len() - final(self).rows@.len(),
    {
        let ghost t = self.rows@;
        let ghost h = self.hashes@;
        let ghost p = survives(threshold);
        let mut rows: Vec<Memory> = Vec::new();
        let mut hashes: Vec<String> = Vec::new();
        let ghost mut src: Seq<int> = Seq::empty();
        let mut i: usize = 0;
        while i < self.rows.len()
            invariant
                i <= t.len(),
                t == self.rows@,
                h == self.hashes@,
                memories_wf(t, h),
                p == survives(threshold),
                mem_views(rows@) == mem_views(t.take(i as int).filter(p)),
                rows@.len() == t.take(i as int).filter(p).len(),
                hashes@.len() == rows@.len(),
                src.len() == rows@.len(),
                forall|a: int| 0 <= a < src.len() ==> 0 <= #[trigger] src[a] < i && rows@[a]@ == t[src[a]]@ && hashes@[a] == h[src[a]],
                forall|a: int, b: int| 0 <= a < b < src.len() ==> #[trigger] src[a] < #[trigger] src[b],
            decreases self.rows.len() - i,
        {
            proof {
                crate::facts::lemma_filter_step(t, i as int, p);
            }
            let m = &self.rows[i];
            let gone = m.weight < threshold && !matches!(m.importance, Importance::Critical) && !matches!(m.importance, Importance::High);
            let ghost r0 = rows@;
            if !gone {
                rows.push(m.copy());
                hashes.push(self.hashes[i].clone());
                proof {
                    src = src.push(i as int);
                    assert(mem_views(rows@) =~= mem_views(r0).push(t[i as int]@));
                    assert(mem_views(t.take(i + 1).filter(p)) =~= mem_views(t.take(i as int).filter(p)).push(t[i as int]@));
                }
            }
            i += 1;
        }
        proof {
            assert(t.take(t.len() as int) =~= t);
            let nr = rows@;
            let nh = hashes@;
            assert forall|a: int, b: int| 0 <= a < nr.len() && 0 <= b < nr.len() && a != b implies (#[trigger] nr[a]).id@ != (#[trigger] nr[b]).id@ && nh[a]@ != nh[b]@ by {
                if a < b {
                    assert(src[a] < src[b]);
                } else {
                    assert(src[b] < src[a]);
                }
            }
            assert forall|a: int| 0 <= a < nr.len() implies (#[trigger] nh[a])@ == crate::normalize::content_hash(nr[a].topic@, nr[a].summary@) by {
                assert(nr[a]@ == t[src[a]]@);
            }
        }
        let n = self.rows.len() - rows.len();
        self.rows = rows;
        self.hashes = hashes;
        n
    }
}

/// Another row than the one holding `id` has the content hash of
/// `(topic, summary)`.
pub open spec fn hash_taken(t: Seq<Memory>, id: Seq<char>, topic: Seq<char>, summary: Seq<char>) -> bool {
    exists|j: int| 0 <= j < t.len() && (#[trigger] t[j]).id@ != id && content_hash(t[j].topic@, t[j].summary@) == content_hash(topic, summary)
}

impl MemoryTable {
    /// Replace the row holding `memory.id` by `memory`. A missing id is
    /// `NotFound(id)`; content duplicating another row is refused as a
    /// database error. Either refusal changes nothing.
    pub fn update(&mut self, memory: Memory) -> (r: IcmResult<()>)
        requires
            old(self).wf(),
        ensures
            final(self).wf(),
            memory_with_id(old(self).rows@, memory.id@) is None ==> final(self).rows@ == old(self).rows@
                && (r matches Err(IcmError::NotFound(m)) && m@ == memory.id@),
            memory_with_id(old(self).rows@, memory.id@) is Some && hash_taken(old(self).rows@, memory.id@, memory.topic@, memory.summary@)
                ==> final(self).rows@ == old(self).rows@ && (r matches Err(e) && e is Database),
            memory_with_id(old(self).rows@, memory.id@) is Some && !hash_taken(old(self).rows@, memory.id@, memory.topic@, memory.summary@)
                ==> r is Ok && exists|k: int| 0 <= k < old(self).rows@.len() && (#[trigger] old(self).rows@[k]).id@ == memory.id@
                    && final(self).rows@ == old(self).rows@.update(k, memory),
    {
        let ghost t = self.rows@;
        let ghost h = self.hashes@;
        let k = match self.index_of_id(&memory.id) {
            Some(k) => k,
            None => {
                return Err(IcmError::NotFound(memory.id.clone()));
            },
        };
        let hash = crate::normalize::summary_hash(memory.topic.as_str(), memory.summary.as_str());
        let mut j: usize = 0;
        while j < self.hashes.len()
            invariant
                j <= h.len(),
                h == self.hashes@,
                t == self.rows@,
                memories_wf(t, h),
                k < t.len(),
                t[k as int].id@ == memory.id@,
                hash@ == content_hash(memory.topic@, memory.summary@),
                forall|z: int| 0 <= z < j && z != k ==> (#[trigger] h[z])@ != hash@,
            decreases self.hashes.len() - j,
        {
            if j != k && self.hashes[j] == hash {
                proof {
                    assert(t[j as int].id@ != memory.id@);
                    assert(hash_taken(t, memory.id@, memory.topic@, memory.summary@));
                }
                return Err(IcmError::Database(owned("UNIQUE constraint failed: memories.summary_hash")));
            }
            j += 1;
        }
        proof {
            crate::memory::lemma_memory_with_id_at(t, h, k as int);
            if hash_taken(t, memory.id@, memory.topic@, memory.summary@) {
                let w = choose|w: int| 0 <= w < t.len() && (#[trigger] t[w]).id@ != memory.id@ && content_hash(t[w].topic@, t[w].summary@) == content_hash(memory.topic@, memory.summary@);
                assert(h[w]@ == hash@);
            }
        }
        let ghost mem = memory;
        self.rows.set(k, memory);
        self.hashes.set(k, hash);
        proof {
            let nt = self.rows@;
            let nh = self.hashes@;
            assert forall|a: int, b: int| 0 <= a < nt.len() && 0 <= b < nt.len() && a != b implies (#[trigger] nt[a]).id@ != (#[trigger] nt[b]).id@ && nh[a]@ != nh[b]@ by {
                if a == k {
                    assert(nt[b] == t[b] && nh[b] == h[b]);
                    assert(t[b].id@ != t[k as int].id@);
                } else if b == k {
                    assert(nt[a] == t[a] && nh[a] == h[a]);
                    assert(t[a].id@ != t[k as int].id@);
                } else {
                    assert(nt[a] == t[a] && nt[b] == t[b]);
                }
            }
        }
        Ok(())
    }
}

} // verus!
