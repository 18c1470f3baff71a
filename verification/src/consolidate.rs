//! Consolidation: the memories of a topic folded into one.
use vstd::prelude::*;
use crate::facts::lemma_filter_step;
use crate::memory::{MemoryTable, memories_wf, normalized_from, store_effect, topic_indices};
use crate::patterns::heaviest_of_topic;
use crate::model::copy_strings;
use crate::text::push_char;
use crate::model::{IcmError, IcmResult, Importance, Memory, MemoryView, max_importance};
use crate::normalize::{check_memory_input, content_hash, memory_input_error};
use crate::text::{owned, push_str};

verus! {

broadcast use vstd::seq_lib::group_seq_properties;

/// Whether consolidating `topic` removes the row: it is of that topic and
/// not critical (critical memories are never removed).
pub open spec fn swept(topic: Seq<char>) -> spec_fn(Memory) -> bool {
    |m: Memory| m.topic@ == topic && m.importance != Importance::Critical
}

/// The ids of the rows a consolidation of `topic` removes, in order.
pub open spec fn swept_ids(t: Seq<Memory>, topic: Seq<char>) -> Seq<Seq<char>> {
    Seq::new(t.filter(swept(topic)).len(), |j: int| t.filter(swept(topic))[j].id@)
}

/// The rows a consolidation of `topic` keeps, in order.
pub open spec fn kept_rows(t: Seq<Memory>, topic: Seq<char>) -> Seq<Memory> {
    t.filter(unswept(topic))
}

/// Whether consolidating `topic` keeps the row.
pub open spec fn unswept(topic: Seq<char>) -> spec_fn(Memory) -> bool {
    |m: Memory| !swept(topic)(m)
}

/// The values of a sequence of memories.
pub open spec fn mem_views(s: Seq<Memory>) -> Seq<MemoryView> {
    Seq::new(s.len(), |j: int| s[j]@)
}

/// `links` without the entries naming one of `gone`.
pub open spec fn links_outside(links: Seq<String>, gone: Seq<Seq<char>>) -> Seq<String> {
    links.filter(|r: String| !gone.contains(r@))
}

/// `after` is `before` with the rows of `topic` (but critical ones) removed and
/// every link to a removed row dropped from the rows that remain.
pub open spec fn purged(before: Seq<Memory>, after: Seq<Memory>, topic: Seq<char>) -> bool {
    let kept = kept_rows(before, topic);
    &&& after.len() == kept.len()
    &&& forall|j: int| 0 <= j < after.len() ==> (#[trigger] after[j])@ == MemoryView {
        related_ids: links_outside(kept[j].related_ids@, swept_ids(before, topic)),
        ..kept[j]@
    }
}

/// A copy of `links` without the entries naming one of `gone`.
fn drop_links(links: &Vec<String>, gone: &Vec<String>) -> (r: Vec<String>)
    ensures
        r@ == links_outside(links@, Seq::new(gone@.len(), |j: int| gone@[j]@)),
{
    let ghost g = Seq::new(gone@.len(), |j: int| gone@[j]@);
    let ghost p = |r: String| !g.contains(r@);
    let mut r: Vec<String> = Vec::new();
    let mut i: usize = 0;
    while i < links.len()
        invariant
            i <= links@.len(),
            g == Seq::new(gone@.len(), |j: int| gone@[j]@),
            p == (|r: String| !g.contains(r@)),
            r@ == links@.take(i as int).filter(p),
        decreases links.len() - i,
    {
        proof {
            lemma_filter_step(links@, i as int, p);
        }
        let mut hit = false;
        let mut q: usize = 0;
        while q < gone.len()
            invariant
                q <= gone@.len(),
                i < links@.len(),
                g == Seq::new(gone@.len(), |j: int| gone@[j]@),
                !hit ==> forall|z: int| 0 <= z < q ==> (#[trigger] gone@[z])@ != links@[i as int]@,
                hit ==> g.contains(links@[i as int]@),
            decreases gone.len() - q,
        {
            if !hit && gone[q] == links[i] {
                proof {
                    assert(g[q as int] == links@[i as int]@);
                }
                hit = true;
            }
            q += 1;
        }
        proof {
            if !hit && g.contains(links@[i as int]@) {
                let z = choose|z: int| 0 <= z < g.len() && g[z] == links@[i as int]@;
                assert(gone@[z]@ == links@[i as int]@);
            }
        }
        if !hit {
            r.push(links[i].clone());
        }
        i += 1;
    }
    proof {
        assert(links@.take(links@.len() as int) =~= links@);
    }
    r
}

impl MemoryTable {
    /// Remove the rows of `topic` that are not critical and drop every link
    /// to them. Answers the ids removed.
    pub fn purge_topic(&mut self, topic: &String) -> (gone: Vec<String>)
        requires
            old(self).wf(),
        ensures
            final(self).wf(),
            purged(old(self).rows@, final(self).rows@, topic@),
            Seq::new(gone@.len(), |j: int| gone@[j]@) == swept_ids(old(self).rows@, topic@),
    {
        let ghost t = self.rows@;
        let ghost h = self.hashes@;
        let ghost away = swept(topic@);
        let ghost stay = unswept(topic@);
        let mut rows: Vec<Memory> = Vec::new();
        let mut hashes: Vec<String> = Vec::new();
        let mut gone: Vec<String> = Vec::new();
        let ghost mut src: Seq<int> = Seq::empty();
        let mut i: usize = 0;
        while i < self.rows.len()
            invariant
                i <= t.len() == self.rows@.len(),
                t == self.rows@,
                h == self.hashes@,
                memories_wf(t, h),
                away == swept(topic@),
                stay == unswept(topic@),
                mem_views(rows@) == mem_views(t.take(i as int).filter(stay)),
                Seq::new(gone@.len(), |j: int| gone@[j]@) == Seq::new(t.take(i as int).filter(away).len(), |j: int| t.take(i as int).filter(away)[j].id@),
                src.len() == rows@.len(),
                hashes@.len() == rows@.len(),
                forall|j: int| 0 <= j < src.len() ==> 0 <= #[trigger] src[j] < i && rows@[j]@ == t[src[j]]@ && hashes@[j] == h[src[j]],
                forall|a: int, b: int| 0 <= a < b < src.len() ==> #[trigger] src[a] < #[trigger] src[b],
            decreases t.len() - i,
        {
            proof {
                lemma_filter_step(t, i as int, stay);
                lemma_filter_step(t, i as int, away);
            }
            let m = &self.rows[i];
            if m.topic == *topic && m.importance != Importance::Critical {
                let ghost before = Seq::new(gone@.len(), |j: int| gone@[j]@);
                let ghost gb = gone@;
                gone.push(m.id.clone());
                proof {
                    let f0 = t.take(i as int).filter(away);
                    let f1 = t.take(i + 1).filter(away);
                    assert(f1 == f0.push(t[i as int]));
                    assert(before == Seq::new(f0.len(), |j: int| f0[j].id@));
                    assert(before.len() == gb.len());
                    assert(gb.len() == f0.len());
                    assert(gone@.len() == gb.len() + 1);
                    assert(gone@[gb.len() as int]@ == t[i as int].id@);
                    assert forall|z: int| 0 <= z < gb.len() implies (#[trigger] gone@[z])@ == f1[z].id@ by {
                        assert(gone@[z] == gb[z]);
                        assert(before[z] == gb[z]@);
                        assert(before[z] == f0[z].id@);
                        assert(f1[z] == f0[z]);
                    }
                    assert(Seq::new(gone@.len(), |j: int| gone@[j]@) =~= Seq::new(t.take(i + 1).filter(away).len(), |j: int| t.take(i + 1).filter(away)[j].id@)) by {
                        assert(t.take(i + 1).filter(away) == t.take(i as int).filter(away).push(t[i as int]));
                    }
                }
            } else {
                let ghost before = rows@;
                rows.push(m.copy());
                hashes.push(self.hashes[i].clone());
                proof {
                    src = src.push(i as int);
                    assert(mem_views(rows@) =~= mem_views(before).push(t[i as int]@));
                    assert(mem_views(t.take(i + 1).filter(stay)) =~= mem_views(t.take(i as int).filter(stay)).push(t[i as int]@));
                }
            }
            i += 1;
        }
        proof {
            assert(t.take(t.len() as int) =~= t);
        }
        let ghost kept = mem_views(rows@);
        let ghost src_rows = rows@;
        let ghost g = Seq::new(gone@.len(), |j: int| gone@[j]@);
        let mut j: usize = 0;
        while j < rows.len()
            invariant
                j <= rows@.len() == kept.len(),
                g == Seq::new(gone@.len(), |j: int| gone@[j]@),
                forall|z: int| 0 <= z < j ==> (#[trigger] rows@[z])@ == (MemoryView { related_ids: links_outside(kept[z].related_ids, g), ..kept[z] }),
                forall|z: int| j <= z < kept.len() ==> rows@[z] == #[trigger] src_rows[z],
                kept == mem_views(src_rows),
            decreases kept.len() - j,
        {
            let mut row = rows[j].copy();
            proof {
                assert(row@ == kept[j as int]);
            }
            row.related_ids = drop_links(&row.related_ids, &gone);
            rows.set(j, row);
            j += 1;
        }
        proof {
            let n = rows@;
            assert forall|a: int| 0 <= a < n.len() implies (#[trigger] hashes@[a])@ == content_hash(n[a].topic@, n[a].summary@) by {
                assert(src_rows[a]@ == t[src[a]]@);
                assert(n[a]@.topic == kept[a].topic);
            }
            assert forall|a: int, b: int| 0 <= a < n.len() && 0 <= b < n.len() && a != b implies (#[trigger] n[a]).id@ != (#[trigger] n[b]).id@ by {
                assert(src_rows[a]@ == t[src[a]]@ && src_rows[b]@ == t[src[b]]@);
                assert(n[a]@.id == kept[a].id && n[b]@.id == kept[b].id);
                if a < b {
                    assert(src[a] < src[b]);
                } else {
                    assert(src[b] < src[a]);
                }
            }
            assert forall|a: int, b: int| 0 <= a < n.len() && 0 <= b < n.len() && a != b implies (#[trigger] hashes@[a])@ != (#[trigger] hashes@[b])@ by {
                if a < b {
                    assert(src[a] < src[b]);
                } else {
                    assert(src[b] < src[a]);
                }
            }
        }
        self.rows = rows;
        self.hashes = hashes;
        proof {
            assert(purged(t, self.rows@, topic@)) by {
                assert(mem_views(kept_rows(t, topic@)) == kept);
                assert forall|z: int| 0 <= z < self.rows@.len() implies (#[trigger] self.rows@[z])@ == (MemoryView {
                    related_ids: links_outside(kept_rows(t, topic@)[z].related_ids@, swept_ids(t, topic@)),
                    ..kept_rows(t, topic@)[z]@
                }) by {
                    assert(kept[z] == kept_rows(t, topic@)[z]@);
                }
            }
        }
        gone
    }

    /// Replace the memories of `topic` by `consolidated`: input failing the
    /// write checks is refused with the reason and changes nothing;
    /// otherwise the non-critical rows of the topic are removed (with every
    /// link to them), then `consolidated` is stored as `insert` stores it.
    /// The two steps stand or fall together: when the store fails, the
    /// removed rows are back, every row reading as it did before.
    pub fn consolidate_topic(&mut self, topic: &str, consolidated: Memory) -> (r: IcmResult<()>)
        requires
            old(self).wf(),
        ensures
            final(self).wf(),
            memory_input_error(consolidated.topic@, consolidated.summary@) is Some ==> {
                &&& final(self).rows@ == old(self).rows@
                &&& r matches Err(IcmError::InvalidInput(m)) && Some(m@) == memory_input_error(consolidated.topic@, consolidated.summary@)
            },
            memory_input_error(consolidated.topic@, consolidated.summary@) is None ==> exists|mid: Seq<Memory>, m: MemoryView| {
                &&& purged(old(self).rows@, mid, topic@)
                &&& normalized_from(consolidated@, m)
                &&& match r {
                    Ok(_) => exists|id: Seq<char>| store_effect(mid, final(self).rows@, m, id),
                    Err(e) => e is Database && mem_views(final(self).rows@) == mem_views(old(self).rows@),
                }
            },
    {
        match check_memory_input(consolidated.topic.as_str(), consolidated.summary.as_str()) {
            Some(msg) => {
                return Err(IcmError::InvalidInput(msg));
            },
            None => {},
        }
        let saved_rows = copy_rows(&self.rows);
        let saved_hashes = copy_strings(&self.hashes);
        let t = owned(topic);
        let _gone = self.purge_topic(&t);
        match self.insert(consolidated) {
            Ok(_) => Ok(()),
            Err(e) => {
                self.rows = saved_rows;
                self.hashes = saved_hashes;
                proof {
                    assert(mem_views(self.rows@) =~= mem_views(old(self).rows@));
                    assert forall|i: int| 0 <= i < self.rows@.len() implies (#[trigger] self.rows@[i]).id == old(self).rows@[i].id
                        && self.rows@[i].topic == old(self).rows@[i].topic && self.rows@[i].summary == old(self).rows@[i].summary by {
                        assert(self.rows@[i]@ == old(self).rows@[i]@);
                    }
                }
                Err(e)
            },
        }
    }
}

/// A row-for-row copy of the memories.
fn copy_rows(v: &Vec<Memory>) -> (r: Vec<Memory>)
    ensures
        r@.len() == v@.len(),
        forall|i: int| 0 <= i < v@.len() ==> (#[trigger] r@[i])@ == v@[i]@,
{
    let mut r: Vec<Memory> = Vec::new();
    let mut i: usize = 0;
    while i < v.len()
        invariant
            i <= v.len(),
            r@.len() == i,
            forall|j: int| 0 <= j < i ==> (#[trigger] r@[j])@ == v@[j]@,
        decreases v.len() - i,
    {
        r.push(v[i].copy());
        i += 1;
    }
    r
}

/// Lines joined by `\n`.
pub open spec fn join_lines(ls: Seq<Seq<char>>) -> Seq<char>
    decreases ls.len(),
{
    if ls.len() == 0 {
        seq![]
    } else if ls.len() == 1 {
        ls[0]
    } else {
        join_lines(ls.drop_last()) + seq!['\n'] + ls.last()
    }
}

/// The summaries of the memories, in order.
pub open spec fn summaries_of(v: Seq<Memory>) -> Seq<Seq<char>> {
    Seq::new(v.len(), |i: int| v[i].summary@)
}

/// The keywords of the memories, in order, the first occurrence of each
/// kept.
pub open spec fn distinct_keywords(v: Seq<Memory>) -> Seq<Seq<char>>
    decreases v.len(),
{
    if v.len() == 0 {
        seq![]
    } else {
        add_new(distinct_keywords(v.drop_last()), v.last().keywords@)
    }
}

/// `acc` extended by the entries of `ks` it does not hold yet, in order.
pub open spec fn add_new(acc: Seq<Seq<char>>, ks: Seq<String>) -> Seq<Seq<char>>
    decreases ks.len(),
{
    if ks.len() == 0 {
        acc
    } else {
        let a = add_new(acc, ks.drop_last());
        if a.contains(ks.last()@) { a } else { a.push(ks.last()@) }
    }
}

/// The highest importance among the memories (`Low` for none).
pub open spec fn top_importance(v: Seq<Memory>) -> Importance
    decreases v.len(),
{
    if v.len() == 0 {
        Importance::Low
    } else {
        let a = top_importance(v.drop_last());
        if crate::model::rank_of(a) >= crate::model::rank_of(v.last().importance) { a } else { v.last().importance }
    }
}

/// `c` is the memory that folds `v` (the memories of `topic`, heaviest
/// first): the topic, their summaries one per line, their keywords without
/// repeats, their highest importance.
pub open spec fn folded(v: Seq<Memory>, topic: Seq<char>, c: Memory) -> bool {
    &&& c.topic@ == topic
    &&& c.summary@ == join_lines(summaries_of(v))
    &&& Seq::new(c.keywords@.len(), |i: int| c.keywords@[i]@) == distinct_keywords(v)
    &&& c.importance == top_importance(v)
}

/// `ks` extended by the keywords of `more` it does not hold yet.
pub(crate) fn add_new_keywords(ks: &mut Vec<String>, more: &Vec<String>)
    ensures
        Seq::new(final(ks)@.len(), |i: int| final(ks)@[i]@) == add_new(Seq::new(old(ks)@.len(), |i: int| old(ks)@[i]@), more@),
{
    let ghost start = Seq::new(ks@.len(), |i: int| ks@[i]@);
    let mut j: usize = 0;
    while j < more.len()
        invariant
            j <= more@.len(),
            Seq::new(ks@.len(), |i: int| ks@[i]@) == add_new(start, more@.take(j as int)),
        decreases more.len() - j,
    {
        proof {
            assert(more@.take(j + 1).drop_last() =~= more@.take(j as int));
            assert(more@.take(j + 1).last() == more@[j as int]);
        }
        let ghost cur = Seq::new(ks@.len(), |i: int| ks@[i]@);
        let mut seen = false;
        let mut q: usize = 0;
        while q < ks.len()
            invariant
                q <= ks@.len(),
                j < more@.len(),
                cur == Seq::new(ks@.len(), |i: int| ks@[i]@),
                !seen ==> forall|z: int| 0 <= z < q ==> (#[trigger] ks@[z])@ != more@[j as int]@,
                seen ==> cur.contains(more@[j as int]@),
            decreases ks.len() - q,
        {
            if !seen && ks[q] == more[j] {
                proof {
                    assert(cur[q as int] == more@[j as int]@);
                }
                seen = true;
            }
            q += 1;
        }
        proof {
            if !seen && cur.contains(more@[j as int]@) {
                let z = choose|z: int| 0 <= z < cur.len() && cur[z] == more@[j as int]@;
                assert(ks@[z]@ == more@[j as int]@);
            }
        }
        if !seen {
            ks.push(more[j].clone());
            proof {
                assert(Seq::new(ks@.len(), |i: int| ks@[i]@) =~= cur.push(more@[j as int]@));
            }
        }
        j += 1;
    }
    proof {
        assert(more@.take(more@.len() as int) =~= more@);
    }
}

/// The memory that folds `v` into one of `topic`, with a fresh id and the
/// current time.
pub fn fold_memories(v: &Vec<Memory>, topic: &str) -> (c: Memory)
    ensures
        folded(v@, topic@, c),
{
    let mut summary = String::new();
    let mut keywords: Vec<String> = Vec::new();
    let mut imp = Importance::Low;
    let mut i: usize = 0;
    while i < v.len()
        invariant
            i <= v@.len(),
            summary@ == join_lines(summaries_of(v@.take(i as int))),
            Seq::new(keywords@.len(), |z: int| keywords@[z]@) == distinct_keywords(v@.take(i as int)),
            imp == top_importance(v@.take(i as int)),
        decreases v.len() - i,
    {
        proof {
            let a = v@.take(i + 1);
            assert(a.drop_last() =~= v@.take(i as int));
            assert(a.last() == v@[i as int]);
            assert(summaries_of(a).drop_last() =~= summaries_of(v@.take(i as int)));
            assert(summaries_of(a).last() == v@[i as int].summary@);
        }
        if i > 0 {
            push_char(&mut summary, '\n');
        }
        push_str(&mut summary, v[i].summary.as_str());
        proof {
            if i == 0 {
                assert(summaries_of(v@.take(1)) =~= seq![v@[0].summary@]);
                assert(summary@ =~= join_lines(summaries_of(v@.take(1))));
            } else {
                assert(summary@ =~= join_lines(summaries_of(v@.take(i + 1))));
            }
        }
        add_new_keywords(&mut keywords, &v[i].keywords);
        imp = max_importance(imp, v[i].importance);
        i += 1;
    }
    proof {
        assert(v@.take(v@.len() as int) =~= v@);
    }
    let mut c = Memory::new(owned(topic), summary, imp);
    c.keywords = keywords;
    c
}

impl MemoryTable {
    /// Automatic consolidation: when `topic` holds more than `threshold`
    /// memories, its (up to 500) heaviest memories are folded into one
    /// (`fold_memories`) that replaces the topic as `consolidate_topic`
    /// does, and `true` is answered; otherwise nothing changes and `false`
    /// is answered.
    pub fn auto_consolidate(&mut self, topic: &str, threshold: usize) -> (r: IcmResult<bool>)
        requires
            old(self).wf(),
        ensures
            final(self).wf(),
            forall|sel: Seq<usize>| topic_indices(old(self).rows@, topic@, sel) && sel.len() <= threshold
                ==> r == Ok::<bool, IcmError>(false) && final(self).rows@ == old(self).rows@,
            forall|sel: Seq<usize>| topic_indices(old(self).rows@, topic@, sel) && sel.len() > threshold ==> exists|v: Seq<Memory>, c: Memory| {
                &&& heaviest_of_topic(old(self).rows@, topic@, v)
                &&& folded(v, topic@, c)
                &&& memory_input_error(c.topic@, c.summary@) is Some ==> {
                    &&& final(self).rows@ == old(self).rows@
                    &&& r matches Err(IcmError::InvalidInput(m)) && Some(m@) == memory_input_error(c.topic@, c.summary@)
                }
                &&& memory_input_error(c.topic@, c.summary@) is None ==> exists|mid: Seq<Memory>, m: MemoryView| {
                    &&& purged(old(self).rows@, mid, topic@)
                    &&& normalized_from(c@, m)
                    &&& match r {
                        Ok(b) => b && exists|id: Seq<char>| store_effect(mid, final(self).rows@, m, id),
                        Err(e) => e is Database && mem_views(final(self).rows@) == mem_views(old(self).rows@),
                    }
                }
            },
    {
        let n = match self.count_by_topic(topic) {
            Ok(n) => n,
            Err(e) => {
                return Err(e);
            },
        };
        proof {
            assert forall|sel: Seq<usize>, sel2: Seq<usize>| topic_indices(self.rows@, topic@, sel) && topic_indices(self.rows@, topic@, sel2) implies sel.len() == sel2.len() by {
                lemma_topic_indices_unique(self.rows@, topic@, sel, sel2);
            }
        }
        if n <= threshold {
            return Ok(false);
        }
        let v = match self.get_by_topic(topic) {
            Ok(v) => v,
            Err(e) => {
                return Err(e);
            },
        };
        let c = fold_memories(&v, topic);
        let ghost cc = c;
        match self.consolidate_topic(topic, c) {
            Ok(()) => Ok(true),
            Err(e) => Err(e),
        }
    }
}

/// Two ascending, complete index lists of one topic are the same.
pub proof fn lemma_topic_indices_unique(t: Seq<Memory>, topic: Seq<char>, a: Seq<usize>, b: Seq<usize>)
    requires
        topic_indices(t, topic, a),
        topic_indices(t, topic, b),
    ensures
        a == b,
    decreases a.len() + b.len(),
{
    if a.len() == 0 {
        if b.len() > 0 {
            assert(t[b[0] as int].topic@ == topic);
            assert(a.contains(b[0]));
        }
        assert(a =~= b);
    } else if b.len() == 0 {
        assert(t[a[0] as int].topic@ == topic);
        assert(b.contains(a[0]));
    } else {
        let x = a.last();
        let y = b.last();
        assert(b.contains(x));
        assert(a.contains(y));
        let i = choose|i: int| 0 <= i < b.len() && b[i] == x;
        let j = choose|j: int| 0 <= j < a.len() && a[j] == y;
        if i < b.len() - 1 {
            assert(b[i] < b[b.len() - 1]);
            assert(a[j] <= a[a.len() - 1]) by {
                if j < a.len() - 1 {
                    assert(a[j] < a[a.len() - 1]);
                }
            }
        }
        if j < a.len() - 1 {
            assert(a[j] < a[a.len() - 1]);
            assert(b[i] <= b[b.len() - 1]) by {
                if i < b.len() - 1 {
                    assert(b[i] < b[b.len() - 1]);
                }
            }
        }
        assert(x == y);
        let a2 = a.drop_last();
        let b2 = b.drop_last();
        let t2 = t.take(x as int);
        assert(topic_indices(t2, topic, a2)) by {
            assert forall|k: int| 0 <= k < a2.len() implies #[trigger] a2[k] < t2.len() && t2[a2[k] as int].topic@ == topic by {
                assert(a[k] < a[a.len() - 1]);
            }
            assert forall|q: int| 0 <= q < t2.len() && t2[q].topic@ == topic implies a2.contains(q as usize) by {
                assert(a.contains(q as usize));
                let w = choose|w: int| 0 <= w < a.len() && a[w] == q as usize;
                assert(w != a.len() - 1);
                assert(a2[w] == q as usize);
            }
        }
        assert(topic_indices(t2, topic, b2)) by {
            assert forall|k: int| 0 <= k < b2.len() implies #[trigger] b2[k] < t2.len() && t2[b2[k] as int].topic@ == topic by {
                assert(b[k] < b[b.len() - 1]);
            }
            assert forall|q: int| 0 <= q < t2.len() && t2[q].topic@ == topic implies b2.contains(q as usize) by {
                assert(b.contains(q as usize));
                let w = choose|w: int| 0 <= w < b.len() && b[w] == q as usize;
                assert(w != b.len() - 1);
                assert(b2[w] == q as usize);
            }
        }
        lemma_topic_indices_unique(t2, topic, a2, b2);
        assert(a =~= a2.push(x));
        assert(b =~= b2.push(y));
    }
}

/// After a consolidation of `topic` the table holds at most one
/// non-critical memory of that topic: the consolidated one, unless it was
/// merged into a row that was already there.
pub proof fn law_consolidation_leaves_one(before: Seq<Memory>, mid: Seq<Memory>, after: Seq<Memory>, topic: Seq<char>, m: MemoryView, id: Seq<char>)
    requires
        purged(before, mid, topic),
        store_effect(mid, after, m, id),
    ensures
        forall|i: int, j: int| 0 <= i < j < after.len() && swept(topic)(#[trigger] after[i]) ==> !swept(topic)(#[trigger] after[j]),
        forall|i: int| 0 <= i < after.len() && swept(topic)(#[trigger] after[i]) ==> i == mid.len() && after[i]@ == m,
{
    let kept = kept_rows(before, topic);
    assert forall|j: int| 0 <= j < mid.len() implies !swept(topic)(#[trigger] mid[j]) by {
        before.lemma_filter_pred(unswept(topic), j);
        assert(mid[j]@.topic == kept[j]@.topic && mid[j]@.importance == kept[j]@.importance);
    }
    assert forall|i: int| 0 <= i < after.len() && swept(topic)(#[trigger] after[i]) implies i == mid.len() && after[i]@ == m by {
        if i < mid.len() {
            assert(!swept(topic)(mid[i]));
            if exists|k: int| 0 <= k < mid.len() && content_hash((#[trigger] mid[k]).topic@, mid[k].summary@) == content_hash(m.topic@, m.summary@) {
                let k = choose|k: int| 0 <= k < mid.len() && content_hash((#[trigger] mid[k]).topic@, mid[k].summary@) == content_hash(m.topic@, m.summary@);
                if i == k {
                    assert(after[i]@.topic == mid[i]@.topic);
                    if mid[i].importance == Importance::Critical {
                        assert(after[i]@.importance == Importance::Critical);
                    }
                } else {
                    assert(after[i]@ == mid[i]@);
                }
            } else {
                assert(after[i]@ == mid[i]@);
            }
        } else {
            if exists|k: int| 0 <= k < mid.len() && content_hash((#[trigger] mid[k]).topic@, mid[k].summary@) == content_hash(m.topic@, m.summary@) {
            } else {
                assert(after.last() == after[i]);
            }
        }
    }
}

/// Consolidation never removes a critical memory: each is still there,
/// critical, with its topic and summary.
pub proof fn law_consolidation_keeps_critical(before: Seq<Memory>, mid: Seq<Memory>, after: Seq<Memory>, topic: Seq<char>, m: MemoryView, id: Seq<char>, j: int)
    requires
        purged(before, mid, topic),
        store_effect(mid, after, m, id),
        0 <= j < before.len(),
        before[j].importance == Importance::Critical,
    ensures
        exists|k: int| 0 <= k < after.len() && (#[trigger] after[k]).id@ == before[j].id@ && after[k].importance == Importance::Critical
            && after[k].topic == before[j].topic && after[k].summary == before[j].summary,
{
    let kept = kept_rows(before, topic);
    before.lemma_filter_contains(unswept(topic), j);
    let k = choose|k: int| 0 <= k < kept.len() && kept[k] == before[j];
    assert(mid[k]@.id == kept[k]@.id && mid[k]@.importance == kept[k]@.importance);
    assert(mid[k]@.topic == kept[k]@.topic && mid[k]@.summary == kept[k]@.summary);
    if exists|q: int| 0 <= q < mid.len() && content_hash((#[trigger] mid[q]).topic@, mid[q].summary@) == content_hash(m.topic@, m.summary@) {
        let q = choose|q: int| 0 <= q < mid.len() && content_hash((#[trigger] mid[q]).topic@, mid[q].summary@) == content_hash(m.topic@, m.summary@);
        if q == k {
            assert(after[k]@.importance == Importance::Critical);
        } else {
            assert(after[k]@ == mid[k]@);
        }
    } else {
        assert(after[k]@ == mid[k]@);
    }
    assert(after[k].id@ == before[j].id@);
}

} // verus!
