//! Links between concepts: the acyclicity check, link queries, and the
//! neighbourhood of a concept.
use vstd::prelude::*;
use vstd::set_lib::{lemma_int_range, lemma_len_subset, set_int_range};
use crate::graph::{Concept, ConceptLink, ConceptView, MemoirTable, Relation, concept_with_id, has_concept, links_ok, lemma_filter_pairwise};
use crate::model::{IcmError, IcmResult};
use crate::facts::lemma_filter_step;
use crate::text::owned;

verus! {

broadcast use vstd::seq_lib::group_seq_properties;


/// Some link goes from concept `x` to concept `y`.
pub open spec fn has_edge(l: Seq<ConceptLink>, x: Seq<char>, y: Seq<char>) -> bool {
    exists|j: int| 0 <= j < l.len() && (#[trigger] l[j]).source_id@ == x && l[j].target_id@ == y
}

/// `p` follows links from concept to concept.
pub open spec fn is_link_walk(l: Seq<ConceptLink>, p: Seq<Seq<char>>) -> bool {
    &&& p.len() >= 1
    &&& forall|k: int| 0 <= k < p.len() - 1 ==> has_edge(l, #[trigger] p[k], p[k + 1])
}

/// Concept `b` can be reached from concept `a` along links (in zero or
/// more steps).
pub open spec fn link_reaches(l: Seq<ConceptLink>, a: Seq<char>, b: Seq<char>) -> bool {
    exists|p: Seq<Seq<char>>| #[trigger] is_link_walk(l, p) && p[0] == a && p.last() == b
}

/// A new link `s → t` would close a cycle: it loops on itself, or `s` is
/// already reachable from `t`.
pub open spec fn closes_cycle(l: Seq<ConceptLink>, s: Seq<char>, t: Seq<char>) -> bool {
    s == t || link_reaches(l, t, s)
}

/// The texts of a vector of strings.
pub open spec fn texts_of(v: Seq<String>) -> Seq<Seq<char>> {
    Seq::new(v.len(), |i: int| v[i]@)
}

/// A walk extended by one link.
proof fn lemma_link_walk_push(l: Seq<ConceptLink>, p: Seq<Seq<char>>, y: Seq<char>)
    requires
        is_link_walk(l, p),
        has_edge(l, p.last(), y),
    ensures
        is_link_walk(l, p.push(y)),
        p.push(y)[0] == p[0],
        p.push(y).last() == y,
{
    let q = p.push(y);
    assert forall|k: int| 0 <= k < q.len() - 1 implies has_edge(l, #[trigger] q[k], q[k + 1]) by {
        if k < p.len() - 1 {
            assert(q[k] == p[k] && q[k + 1] == p[k + 1]);
        } else {
            assert(q[k] == p.last());
        }
    }
}

/// A walk that starts in a set closed under links ends in it.
proof fn lemma_walk_stays(l: Seq<ConceptLink>, seen: Seq<Seq<char>>, p: Seq<Seq<char>>)
    requires
        is_link_walk(l, p),
        seen.contains(p[0]),
        forall|x: Seq<char>, y: Seq<char>| seen.contains(x) && #[trigger] has_edge(l, x, y) ==> seen.contains(y),
    ensures
        seen.contains(p.last()),
    decreases p.len(),
{
    if p.len() > 1 {
        let q = p.drop_last();
        assert forall|k: int| 0 <= k < q.len() - 1 implies has_edge(l, #[trigger] q[k], q[k + 1]) by {
            assert(q[k] == p[k] && q[k + 1] == p[k + 1]);
        }
        lemma_walk_stays(l, seen, q);
        assert(has_edge(l, p[p.len() - 2], p[p.len() - 1]));
    }
}

/// Distinct indices below `n` are at most `n`.
proof fn lemma_distinct_below(s: Seq<int>, n: int)
    requires
        0 <= n,
        s.no_duplicates(),
        forall|z: int| 0 <= z < s.len() ==> 0 <= #[trigger] s[z] < n,
    ensures
        s.len() <= n,
{
    s.unique_seq_to_set();
    lemma_int_range(0, n);
    assert(s.to_set().subset_of(set_int_range(0, n)));
    lemma_len_subset(s.to_set(), set_int_range(0, n));
}

/// Whether `x` is among `v`.
fn among(v: &Vec<String>, x: &String) -> (b: bool)
    ensures
        b == texts_of(v@).contains(x@),
{
    let mut i: usize = 0;
    while i < v.len()
        invariant
            i <= v@.len(),
            forall|j: int| 0 <= j < i ==> (#[trigger] v@[j])@ != x@,
        decreases v.len() - i,
    {
        if v[i] == *x {
            proof {
                assert(texts_of(v@)[i as int] == x@);
            }
            return true;
        }
        i += 1;
    }
    proof {
        if texts_of(v@).contains(x@) {
            let j = choose|j: int| 0 <= j < texts_of(v@).len() && texts_of(v@)[j] == x@;
            assert(v@[j]@ == x@);
        }
    }
    false
}

impl MemoirTable {
    /// Would a new link `source → target` close a cycle? Breadth-first
    /// from `target` along outgoing links, looking for `source`. The
    /// search is bounded by twice the link count, which no search reaches:
    /// at most one concept more than there are links is ever visited.
    #[verifier::rlimit(60)]
    pub fn would_create_cycle(&self, source: &str, target: &str) -> (r: bool)
        ensures
            r == closes_cycle(self.links@, source@, target@),
    {
        let src = owned(source);
        let tgt = owned(target);
        let ghost l = self.links@;
        if src == tgt {
            return true;
        }
        let n = self.links.len();
        let mut seen: Vec<String> = Vec::new();
        seen.push(tgt);
        let ghost mut paths: Seq<Seq<Seq<char>>> = seq![seq![target@]];
        let ghost mut used: Seq<int> = seq![];
        let mut head: usize = 0;
        let mut steps: usize = 0;
        proof {
            assert(is_link_walk(l, paths[0]));
            assert(texts_of(seen@) =~= seq![target@]);
        }
        while head < seen.len()
            invariant
                l == self.links@,
                n == l.len(),
                src@ == source@,
                source@ != target@,
                texts_of(seen@).no_duplicates(),
                !texts_of(seen@).contains(source@),
                seen@.len() >= 1,
                seen@[0]@ == target@,
                paths.len() == seen@.len(),
                forall|k: int| 0 <= k < paths.len() ==> #[trigger] is_link_walk(l, paths[k]) && paths[k][0] == target@ && paths[k].last() == seen@[k]@,
                head <= seen@.len(),
                steps == head,
                forall|k: int, j: int| 0 <= k < head && 0 <= j < n && (#[trigger] l[j]).source_id@ == (#[trigger] seen@[k])@ ==> texts_of(seen@).contains(l[j].target_id@),
                used.len() + 1 == seen@.len(),
                used.no_duplicates(),
                forall|z: int| 0 <= z < used.len() ==> 0 <= #[trigger] used[z] < n && l[used[z]].target_id@ == seen@[z + 1]@,
            decreases n + 1 - head,
        {
            proof {
                lemma_distinct_below(used, n as int);
            }
            steps = steps + 1;
            if steps > n && steps - n > n {
                proof {
                    assert(n == 0);
                    if link_reaches(l, target@, source@) {
                        let p = choose|p: Seq<Seq<char>>| #[trigger] is_link_walk(l, p) && p[0] == target@ && p.last() == source@;
                        assert(p.len() > 1);
                        assert(has_edge(l, p[0], p[1]));
                    }
                }
                return false;
            }
            let cur = seen[head].clone();
            let ghost k0 = head as int;
            head = head + 1;
            let mut j: usize = 0;
            while j < n
                invariant
                    l == self.links@,
                    n == l.len(),
                    src@ == source@,
                    source@ != target@,
                    0 <= k0 < head <= seen@.len(),
                    head == k0 + 1,
                    cur@ == seen@[k0]@,
                    texts_of(seen@).no_duplicates(),
                    !texts_of(seen@).contains(source@),
                    seen@.len() >= 1,
                    seen@[0]@ == target@,
                    paths.len() == seen@.len(),
                    forall|k: int| 0 <= k < paths.len() ==> #[trigger] is_link_walk(l, paths[k]) && paths[k][0] == target@ && paths[k].last() == seen@[k]@,
                    j <= n,
                    forall|k: int, i: int| 0 <= k < k0 && 0 <= i < n && (#[trigger] l[i]).source_id@ == (#[trigger] seen@[k])@ ==> texts_of(seen@).contains(l[i].target_id@),
                    forall|i: int| 0 <= i < j && (#[trigger] l[i]).source_id@ == seen@[k0]@ ==> texts_of(seen@).contains(l[i].target_id@),
                    used.len() + 1 == seen@.len(),
                    used.no_duplicates(),
                    forall|z: int| 0 <= z < used.len() ==> 0 <= #[trigger] used[z] < n && l[used[z]].target_id@ == seen@[z + 1]@,
                decreases n - j,
            {
                if self.links[j].source_id == cur {
                    if self.links[j].target_id == src {
                        proof {
                            assert(is_link_walk(l, paths[k0]));
                            assert(paths[k0].last() == seen@[k0]@);
                            assert(has_edge(l, paths[k0].last(), source@)) by {
                                assert(l[j as int].source_id@ == seen@[k0]@);
                                assert(l[j as int].target_id@ == source@);
                            }
                            lemma_link_walk_push(l, paths[k0], source@);
                            assert(is_link_walk(l, paths[k0].push(source@)));
                        }
                        return true;
                    }
                    if !among(&seen, &self.links[j].target_id) {
                        let ghost before = seen@;
                        let ghost bt = texts_of(before);
                        seen.push(self.links[j].target_id.clone());
                        proof {
                            let y = l[j as int].target_id@;
                            assert(is_link_walk(l, paths[k0]));
                            assert(paths[k0].last() == before[k0]@);
                            assert(has_edge(l, paths[k0].last(), y)) by {
                                assert(l[j as int].source_id@ == before[k0]@);
                            }
                            lemma_link_walk_push(l, paths[k0], y);
                            paths = paths.push(paths[k0].push(y));
                            assert(texts_of(seen@) =~= bt.push(y));
                            assert(!used.contains(j as int)) by {
                                if used.contains(j as int) {
                                    let z = choose|z: int| 0 <= z < used.len() && used[z] == j as int;
                                    assert(bt[z + 1] == y);
                                }
                            }
                            used = used.push(j as int);
                            assert forall|k: int| 0 <= k < paths.len() implies #[trigger] is_link_walk(l, paths[k]) && paths[k][0] == target@ && paths[k].last() == seen@[k]@ by {
                                if k < before.len() {
                                    assert(seen@[k] == before[k]);
                                }
                            }
                            assert forall|k: int, i: int| 0 <= k < k0 && 0 <= i < n && (#[trigger] l[i]).source_id@ == (#[trigger] seen@[k])@ implies texts_of(seen@).contains(l[i].target_id@) by {
                                assert(seen@[k] == before[k]);
                                assert(bt.contains(l[i].target_id@));
                                let w = choose|w: int| 0 <= w < bt.len() && bt[w] == l[i].target_id@;
                                assert(texts_of(seen@)[w] == bt[w]);
                            }
                            assert forall|i: int| 0 <= i < j + 1 && (#[trigger] l[i]).source_id@ == seen@[k0]@ implies texts_of(seen@).contains(l[i].target_id@) by {
                                if i < j {
                                    assert(seen@[k0] == before[k0]);
                                    assert(bt.contains(l[i].target_id@));
                                    let w = choose|w: int| 0 <= w < bt.len() && bt[w] == l[i].target_id@;
                                    assert(texts_of(seen@)[w] == bt[w]);
                                } else {
                                    assert(texts_of(seen@)[before.len() as int] == y);
                                }
                            }
                            assert forall|z: int| 0 <= z < used.len() implies 0 <= #[trigger] used[z] < n && l[used[z]].target_id@ == seen@[z + 1]@ by {
                                if z + 1 < before.len() {
                                    assert(seen@[z + 1] == before[z + 1]);
                                }
                            }
                        }
                    }
                }
                j += 1;
            }
        }
        proof {
            let sv = texts_of(seen@);
            assert forall|x: Seq<char>, y: Seq<char>| sv.contains(x) && #[trigger] has_edge(l, x, y) implies sv.contains(y) by {
                let k = choose|k: int| 0 <= k < sv.len() && sv[k] == x;
                let i = choose|i: int| 0 <= i < l.len() && (#[trigger] l[i]).source_id@ == x && l[i].target_id@ == y;
                assert(l[i].source_id@ == seen@[k]@);
            }
            if link_reaches(l, target@, source@) {
                let p = choose|p: Seq<Seq<char>>| #[trigger] is_link_walk(l, p) && p[0] == target@ && p.last() == source@;
                assert(sv[0] == target@);
                lemma_walk_stays(l, sv, p);
            }
        }
        false
    }
}

impl MemoirTable {
    /// Add a link and answer its id. A link from a concept to itself, or
    /// one that would close a cycle, is invalid input; a link whose id is
    /// taken, or whose ends are not both stored concepts, is a database
    /// error. A refused link changes nothing.
    pub fn add_link(&mut self, link: ConceptLink) -> (r: IcmResult<String>)
        requires
            old(self).wf(),
        ensures
            final(self).wf(),
            add_link_effect(*old(self), *final(self), link, r),
    {
        if link.source_id == link.target_id {
            return Err(IcmError::InvalidInput(owned("a concept cannot link to itself")));
        }
        if self.would_create_cycle(link.source_id.as_str(), link.target_id.as_str()) {
            return Err(IcmError::InvalidInput(owned("link would create a cycle")));
        }
        let mut i: usize = 0;
        while i < self.links.len()
            invariant
                i <= self.links@.len(),
                self.wf(),
                self.memoirs@ == old(self).memoirs@,
                self.concepts@ == old(self).concepts@,
                self.links@ == old(self).links@,
                link.source_id@ != link.target_id@,
                !closes_cycle(old(self).links@, link.source_id@, link.target_id@),
                forall|j: int| 0 <= j < i ==> (#[trigger] self.links@[j]).id@ != link.id@,
            decreases self.links.len() - i,
        {
            if self.links[i].id == link.id {
                return Err(IcmError::Database(owned("UNIQUE constraint failed: concept_links.id")));
            }
            i += 1;
        }
        if self.concept_index(&link.source_id).is_none() || self.concept_index(&link.target_id).is_none() {
            return Err(IcmError::Database(owned("FOREIGN KEY constraint failed")));
        }
        let id = link.id.clone();
        let ghost old_l = self.links@;
        let ghost c = self.concepts@;
        proof {
            let a = choose|k: int| 0 <= k < c.len() && (#[trigger] c[k]).id@ == link.source_id@;
            let b = choose|k: int| 0 <= k < c.len() && (#[trigger] c[k]).id@ == link.target_id@;
        }
        self.links.push(link);
        proof {
            let l = self.links@;
            assert forall|i: int, j: int| 0 <= i < l.len() && 0 <= j < l.len() && i != j implies (#[trigger] l[i]).id@ != (#[trigger] l[j]).id@ by {
                if i < old_l.len() && j < old_l.len() {
                    assert(l[i] == old_l[i] && l[j] == old_l[j]);
                } else if i < old_l.len() {
                    assert(l[i] == old_l[i]);
                } else {
                    assert(l[j] == old_l[j]);
                }
            }
            assert forall|i: int| 0 <= i < l.len() implies has_concept(c, (#[trigger] l[i]).source_id@) && has_concept(c, l[i].target_id@) by {
                if i < old_l.len() {
                    assert(l[i] == old_l[i]);
                }
            }
        }
        Ok(id)
    }

    /// The links leaving concept `id`, oldest first.
    pub fn get_links_from(&self, id: &str) -> (r: IcmResult<Vec<ConceptLink>>)
        ensures
            r matches Ok(v) && v@ == self.links@.filter(|x: ConceptLink| x.source_id@ == id@),
    {
        let ghost p = |x: ConceptLink| x.source_id@ == id@;
        let key = owned(id);
        let mut v: Vec<ConceptLink> = Vec::new();
        let mut i: usize = 0;
        while i < self.links.len()
            invariant
                i <= self.links@.len(),
                key@ == id@,
                p == (|x: ConceptLink| x.source_id@ == id@),
                v@ == self.links@.take(i as int).filter(p),
            decreases self.links.len() - i,
        {
            proof {
                lemma_filter_step(self.links@, i as int, p);
            }
            if self.links[i].source_id == key {
                v.push(self.links[i].copy());
            }
            i += 1;
        }
        proof {
            assert(self.links@.take(self.links@.len() as int) =~= self.links@);
        }
        Ok(v)
    }

    /// The links arriving at concept `id`, oldest first.
    pub fn get_links_to(&self, id: &str) -> (r: IcmResult<Vec<ConceptLink>>)
        ensures
            r matches Ok(v) && v@ == self.links@.filter(|x: ConceptLink| x.target_id@ == id@),
    {
        let ghost p = |x: ConceptLink| x.target_id@ == id@;
        let key = owned(id);
        let mut v: Vec<ConceptLink> = Vec::new();
        let mut i: usize = 0;
        while i < self.links.len()
            invariant
                i <= self.links@.len(),
                key@ == id@,
                p == (|x: ConceptLink| x.target_id@ == id@),
                v@ == self.links@.take(i as int).filter(p),
            decreases self.links.len() - i,
        {
            proof {
                lemma_filter_step(self.links@, i as int, p);
            }
            if self.links[i].target_id == key {
                v.push(self.links[i].copy());
            }
            i += 1;
        }
        proof {
            assert(self.links@.take(self.links@.len() as int) =~= self.links@);
        }
        Ok(v)
    }

    /// Delete link `id`; a missing id is `NotFound(id)`.
    pub fn delete_link(&mut self, id: &str) -> (r: IcmResult<()>)
        requires
            old(self).wf(),
        ensures
            final(self).wf(),
            delete_link_effect(*old(self), *final(self), id@, r),
    {
        let key = owned(id);
        let mut i: usize = 0;
        while i < self.links.len()
            invariant
                i <= self.links@.len(),
                key@ == id@,
                self.wf(),
                self.memoirs@ == old(self).memoirs@,
                self.concepts@ == old(self).concepts@,
                self.links@ == old(self).links@,
                forall|j: int| 0 <= j < i ==> (#[trigger] self.links@[j]).id@ != id@,
            decreases self.links.len() - i,
        {
            if self.links[i].id == key {
                let ghost old_l = self.links@;
                self.links.remove(i);
                proof {
                    let l = self.links@;
                    assert forall|a: int, b: int| 0 <= a < l.len() && 0 <= b < l.len() && a != b implies (#[trigger] l[a]).id@ != (#[trigger] l[b]).id@ by {
                        let a2 = if a < i { a } else { a + 1 };
                        let b2 = if b < i { b } else { b + 1 };
                        assert(l[a] == old_l[a2] && l[b] == old_l[b2]);
                    }
                    assert forall|a: int| 0 <= a < l.len() implies has_concept(self.concepts@, (#[trigger] l[a]).source_id@) && has_concept(self.concepts@, l[a].target_id@) by {
                        let a2 = if a < i { a } else { a + 1 };
                        assert(l[a] == old_l[a2]);
                    }
                }
                return Ok(());
            }
            i += 1;
        }
        Err(IcmError::NotFound(key))
    }
}

/// Whether link `x` joins concept `id` to a neighbour under the optional
/// relation filter.
pub open spec fn neighbour_link(x: ConceptLink, id: Seq<char>, rel: Option<Relation>) -> bool {
    &&& (x.source_id@ == id || x.target_id@ == id)
    &&& match rel {
        Some(r) => x.relation == r,
        None => true,
    }
}

/// The links touching concept `id` (of relation `rel` when one is given).
pub open spec fn neighbour_of(id: Seq<char>, rel: Option<Relation>) -> spec_fn(ConceptLink) -> bool {
    |x: ConceptLink| neighbour_link(x, id, rel)
}

/// The concept at the other end of link `x` from concept `id`.
pub open spec fn other_end(x: ConceptLink, id: Seq<char>) -> Seq<char> {
    if x.source_id@ == id { x.target_id@ } else { x.source_id@ }
}

impl MemoirTable {
    /// The concepts joined to concept `id` by a link in either direction
    /// (of relation `relation` when one is given), one per link, in link
    /// order.
    pub fn get_neighbors(&self, id: &str, relation: Option<Relation>) -> (r: IcmResult<Vec<Concept>>)
        requires
            self.wf(),
        ensures
            r matches Ok(v) && {
                let ls = self.links@.filter(neighbour_of(id@, relation));
                &&& v@.len() == ls.len()
                &&& forall|k: int| 0 <= k < ls.len() ==> concept_with_id(self.concepts@, other_end(ls[k], id@)) == Some((#[trigger] v@[k])@)
            },
    {
        let ghost p = neighbour_of(id@, relation);
        let ghost l = self.links@;
        let key = owned(id);
        let mut v: Vec<Concept> = Vec::new();
        let mut i: usize = 0;
        while i < self.links.len()
            invariant
                i <= self.links@.len(),
                l == self.links@,
                self.wf(),
                key@ == id@,
                p == neighbour_of(id@, relation),
                v@.len() == l.take(i as int).filter(p).len(),
                forall|k: int| 0 <= k < v@.len() ==> concept_with_id(self.concepts@, other_end(l.take(i as int).filter(p)[k], id@)) == Some((#[trigger] v@[k])@),
            decreases self.links.len() - i,
        {
            proof {
                lemma_filter_step(l, i as int, p);
            }
            let x = &self.links[i];
            let rel_ok = match relation {
                Some(rr) => x.relation == rr,
                None => true,
            };
            if (x.source_id == key || x.target_id == key) && rel_ok {
                let other = if x.source_id == key { &x.target_id } else { &x.source_id };
                proof {
                    assert(has_concept(self.concepts@, x.source_id@) && has_concept(self.concepts@, x.target_id@));
                }
                match self.concept_index(other) {
                    Some(ci) => {
                        proof {
                            let c = self.concepts@;
                            let w = choose|w: int| 0 <= w < c.len() && (#[trigger] c[w]).id@ == other@;
                            assert(0 <= w < c.len() && c[w].id@ == other@);
                            assert(c[ci as int].id@ == other@);
                            if w != ci {
                                assert(c[w].id@ == c[ci as int].id@);
                            }
                        }
                        let ghost before = v@;
                        v.push(self.concepts[ci].copy());
                        proof {
                            let f1 = l.take(i + 1).filter(p);
                            let f0 = l.take(i as int).filter(p);
                            assert forall|k: int| 0 <= k < v@.len() implies concept_with_id(self.concepts@, other_end(f1[k], id@)) == Some((#[trigger] v@[k])@) by {
                                if k < before.len() {
                                    assert(f1[k] == f0[k]);
                                    assert(v@[k] == before[k]);
                                } else {
                                    assert(f1[k] == l[i as int]);
                                }
                            }
                        }
                    },
                    None => {
                        proof {
                            let c = self.concepts@;
                            let w = choose|w: int| 0 <= w < c.len() && (#[trigger] c[w]).id@ == other@;
                            assert(c[w].id@ != other@);
                        }
                    },
                }
            }
            i += 1;
        }
        proof {
            assert(l.take(l.len() as int) =~= l);
        }
        Ok(v)
    }
}

/// What `add_link` does to the tables.
pub open spec fn add_link_effect(before: MemoirTable, after: MemoirTable, link: ConceptLink, r: IcmResult<String>) -> bool {
    &&& after.memoirs@ == before.memoirs@
    &&& after.concepts@ == before.concepts@
    &&& r is Err ==> after.links@ == before.links@
    &&& link.source_id@ == link.target_id@ ==> (r matches Err(IcmError::InvalidInput(m)) && m@ == "a concept cannot link to itself"@)
    &&& link.source_id@ != link.target_id@ && closes_cycle(before.links@, link.source_id@, link.target_id@)
        ==> (r matches Err(IcmError::InvalidInput(m)) && m@ == "link would create a cycle"@)
    &&& !closes_cycle(before.links@, link.source_id@, link.target_id@) ==> !(r matches Err(IcmError::InvalidInput(_)))
    &&& r matches Ok(id) ==> {
        &&& id@ == link.id@
        &&& after.links@ == before.links@.push(link)
        &&& !closes_cycle(before.links@, link.source_id@, link.target_id@)
        &&& has_concept(before.concepts@, link.source_id@)
        &&& has_concept(before.concepts@, link.target_id@)
        &&& link_id_free(before.links@, link.id@)
    }
    &&& !closes_cycle(before.links@, link.source_id@, link.target_id@) && has_concept(before.concepts@, link.source_id@)
        && has_concept(before.concepts@, link.target_id@) && link_id_free(before.links@, link.id@) ==> r is Ok
    &&& r matches Err(e) ==> (e is InvalidInput || e is Database)
    &&& (r matches Err(e) && e is Database) ==> !link_id_free(before.links@, link.id@)
        || !has_concept(before.concepts@, link.source_id@) || !has_concept(before.concepts@, link.target_id@)
}

/// No stored link has id `id`.
pub open spec fn link_id_free(l: Seq<ConceptLink>, id: Seq<char>) -> bool {
    forall|j: int| 0 <= j < l.len() ==> (#[trigger] l[j]).id@ != id
}

/// What `delete_link` does to the tables.
pub open spec fn delete_link_effect(before: MemoirTable, after: MemoirTable, id: Seq<char>, r: IcmResult<()>) -> bool {
    &&& after.memoirs@ == before.memoirs@
    &&& after.concepts@ == before.concepts@
    &&& r is Ok <==> exists|k: int| 0 <= k < before.links@.len() && (#[trigger] before.links@[k]).id@ == id
    &&& r is Err ==> after.links@ == before.links@ && (r matches Err(IcmError::NotFound(m)) && m@ == id)
    &&& r is Ok ==> exists|k: int| 0 <= k < before.links@.len() && (#[trigger] before.links@[k]).id@ == id
        && after.links@ == before.links@.remove(k)
}

/// The link graph has no cycle: no link's source can be reached again
/// from its target.
pub open spec fn acyclic(l: Seq<ConceptLink>) -> bool {
    forall|j: int| 0 <= j < l.len() ==> !link_reaches(l, (#[trigger] l[j]).target_id@, l[j].source_id@)
}

/// Reaching `b` from `a` and then `c` from `b` reaches `c` from `a`.
proof fn lemma_reaches_trans(l: Seq<ConceptLink>, a: Seq<char>, b: Seq<char>, c: Seq<char>)
    requires
        link_reaches(l, a, b),
        link_reaches(l, b, c),
    ensures
        link_reaches(l, a, c),
{
    let p1 = choose|p: Seq<Seq<char>>| #[trigger] is_link_walk(l, p) && p[0] == a && p.last() == b;
    let p2 = choose|p: Seq<Seq<char>>| #[trigger] is_link_walk(l, p) && p[0] == b && p.last() == c;
    let q = p1 + p2.subrange(1, p2.len() as int);
    assert forall|k: int| 0 <= k < q.len() - 1 implies has_edge(l, #[trigger] q[k], q[k + 1]) by {
        if k < p1.len() - 1 {
            assert(q[k] == p1[k] && q[k + 1] == p1[k + 1]);
        } else {
            let m = k - (p1.len() - 1);
            assert(q[k] == p2[m] && q[k + 1] == p2[m + 1]);
        }
    }
    assert(is_link_walk(l, q));
    if p2.len() == 1 {
        assert(q.last() == p1.last());
    } else {
        assert(q.last() == p2.last());
    }
}

/// Any concept reaches itself.
proof fn lemma_reaches_refl(l: Seq<ConceptLink>, a: Seq<char>)
    ensures
        link_reaches(l, a, a),
{
    let p = seq![a];
    assert(is_link_walk(l, p));
}

/// A walk over `l` with one more link `s → t`: either it already was a
/// walk over `l`, or it reaches `s` over `l` first and leaves `t` last.
proof fn lemma_walk_with_new_link(l: Seq<ConceptLink>, link: ConceptLink, p: Seq<Seq<char>>)
    requires
        is_link_walk(l.push(link), p),
    ensures
        link_reaches(l, p[0], p.last()) || (link_reaches(l, p[0], link.source_id@) && link_reaches(l, link.target_id@, p.last())),
    decreases p.len(),
{
    let n = l.push(link);
    if p.len() == 1 {
        lemma_reaches_refl(l, p[0]);
    } else {
        let q = p.drop_last();
        assert forall|k: int| 0 <= k < q.len() - 1 implies has_edge(n, #[trigger] q[k], q[k + 1]) by {
            assert(q[k] == p[k] && q[k + 1] == p[k + 1]);
        }
        lemma_walk_with_new_link(l, link, q);
        let x = q.last();
        let y = p.last();
        assert(has_edge(n, p[p.len() - 2], p[p.len() - 1]));
        let j = choose|j: int| 0 <= j < n.len() && (#[trigger] n[j]).source_id@ == x && n[j].target_id@ == y;
        if j < l.len() {
            assert(l[j] == n[j]);
            assert(has_edge(l, x, y));
            lemma_reaches_refl(l, y);
            let w = seq![x, y];
            assert(is_link_walk(l, w));
            if link_reaches(l, p[0], x) {
                lemma_reaches_trans(l, p[0], x, y);
            } else {
                lemma_reaches_trans(l, link.target_id@, x, y);
            }
        } else {
            assert(x == link.source_id@ && y == link.target_id@);
            lemma_reaches_refl(l, y);
        }
    }
}

/// Linking keeps the graph free of cycles: when the graph had none and
/// `add_link` succeeds, the graph still has none.
pub proof fn law_add_link_keeps_acyclic(before: MemoirTable, after: MemoirTable, link: ConceptLink, r: IcmResult<String>)
    requires
        acyclic(before.links@),
        add_link_effect(before, after, link, r),
        r is Ok,
    ensures
        acyclic(after.links@),
{
    let l = before.links@;
    let n = after.links@;
    assert(n == l.push(link));
    assert forall|j: int| 0 <= j < n.len() implies !link_reaches(n, (#[trigger] n[j]).target_id@, n[j].source_id@) by {
        let x = n[j].source_id@;
        let y = n[j].target_id@;
        if link_reaches(n, y, x) {
            let p = choose|p: Seq<Seq<char>>| #[trigger] is_link_walk(n, p) && p[0] == y && p.last() == x;
            lemma_walk_with_new_link(l, link, p);
            if j < l.len() {
                assert(l[j] == n[j]);
                if !link_reaches(l, y, x) {
                    let w = seq![x, y];
                    assert(has_edge(l, x, y));
                    assert(is_link_walk(l, w));
                    lemma_reaches_trans(l, link.target_id@, x, y);
                    lemma_reaches_trans(l, link.target_id@, y, link.source_id@);
                }
            } else {
                assert(x == link.source_id@ && y == link.target_id@);
            }
        }
    }
}

/// The concept found under an id carries that id.
proof fn lemma_concept_with_id_has_id(t: Seq<Concept>, id: Seq<char>)
    ensures
        concept_with_id(t, id) matches Some(c) ==> c.id@ == id,
{
    if concept_with_id(t, id) is Some {
        assert(exists|i: int| 0 <= i < t.len() && (#[trigger] t[i]).id@ == id);
    }
}

/// Some link touching concept `id` (of relation `rel` when one is given)
/// has `other` at its other end: its target when `id` is its source, its
/// source when `id` is its target.
pub open spec fn across_link(links: Seq<ConceptLink>, id: Seq<char>, rel: Option<Relation>, other: Seq<char>) -> bool {
    exists|j: int| {
        &&& 0 <= j < links.len()
        &&& (rel matches Some(r) ==> (#[trigger] links[j]).relation == r)
        &&& ((links[j].source_id@ == id && other == links[j].target_id@)
            || (links[j].target_id@ == id && other == links[j].source_id@))
    }
}

/// Each neighbour answered for concept `id` stands across a link that
/// touches `id` (of the relation asked for): at its target when `id` is
/// the source, at its source when `id` is the target. So it is `id` itself
/// only across a link from `id` to itself.
pub proof fn law_neighbours_are_across_links(concepts: Seq<Concept>, links: Seq<ConceptLink>, id: Seq<char>, rel: Option<Relation>, v: Seq<Concept>)
    requires
        v.len() == links.filter(neighbour_of(id, rel)).len(),
        forall|k: int| 0 <= k < v.len() ==> concept_with_id(concepts, other_end(links.filter(neighbour_of(id, rel))[k], id)) == Some((#[trigger] v[k])@),
    ensures
        forall|k: int| 0 <= k < v.len() ==> across_link(links, id, rel, (#[trigger] v[k]).id@),
{
    let ls = links.filter(neighbour_of(id, rel));
    assert forall|k: int| 0 <= k < v.len() implies across_link(links, id, rel, (#[trigger] v[k]).id@) by {
        links.lemma_filter_pred(neighbour_of(id, rel), k);
        assert(ls.contains(ls[k]));
        links.lemma_filter_contains_rev(neighbour_of(id, rel), ls[k]);
        let j = choose|j: int| 0 <= j < links.len() && links[j] == ls[k];
        let o = other_end(ls[k], id);
        assert(concept_with_id(concepts, o) == Some(v[k]@));
        lemma_concept_with_id_has_id(concepts, o);
        assert(v[k].id@ == o);
        assert(neighbour_link(links[j], id, rel));
        assert(rel matches Some(r) ==> links[j].relation == r);
    }
}

} // verus!
