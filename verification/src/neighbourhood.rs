//! The neighbourhood of a concept: every concept within a number of
//! links of it (links followed either way), with the links among them.
use vstd::prelude::*;
use crate::facts::lemma_filter_step;
use crate::graph::{Concept, ConceptLink, MemoirTable, concept_with_id, has_concept};
use crate::links::has_edge;
use crate::model::IcmResult;
use crate::tally::text_views;
use crate::text::owned;

verus! {

broadcast use vstd::seq_lib::group_seq_properties;

/// Concepts `x` and `y` are joined by a link, in either direction.
pub open spec fn joined(l: Seq<ConceptLink>, x: Seq<char>, y: Seq<char>) -> bool {
    has_edge(l, x, y) || has_edge(l, y, x)
}

/// The ids joined by a link to one of `w`.
pub open spec fn next_to(l: Seq<ConceptLink>, w: Set<Seq<char>>) -> Set<Seq<char>> {
    Set::new(|y: Seq<char>| exists|x: Seq<char>| w.contains(x) && #[trigger] joined(l, x, y))
}

/// The concept ids within `d` links of `start`, links followed either way.
pub open spec fn within(l: Seq<ConceptLink>, start: Seq<char>, d: nat) -> Set<Seq<char>>
    decreases d,
{
    if d == 0 {
        set![start]
    } else {
        let w = within(l, start, (d - 1) as nat);
        w.union(next_to(l, w))
    }
}

/// The links with both ends in `w`.
pub open spec fn inside(w: Set<Seq<char>>) -> spec_fn(ConceptLink) -> bool {
    |x: ConceptLink| w.contains(x.source_id@) && w.contains(x.target_id@)
}

/// The ids a round of links `< j` adds to `s`: the other end of each link
/// with one end in `s`.
pub open spec fn reached_by(l: Seq<ConceptLink>, s: Set<Seq<char>>, j: int) -> Set<Seq<char>> {
    Set::new(|y: Seq<char>| exists|k: int| 0 <= k < j && #[trigger] crosses(l[k], s, y))
}

/// Link `x` has one end in `s` and the other at `y`.
pub open spec fn crosses(x: ConceptLink, s: Set<Seq<char>>, y: Seq<char>) -> bool {
    (s.contains(x.source_id@) && x.target_id@ == y) || (s.contains(x.target_id@) && x.source_id@ == y)
}

/// Once a round adds nothing, no later round does.
proof fn lemma_within_stable(l: Seq<ConceptLink>, s: Seq<char>, d: nat, e: nat)
    requires
        within(l, s, d + 1) == within(l, s, d),
        d <= e,
    ensures
        within(l, s, e) == within(l, s, d),
    decreases e - d,
{
    if e > d {
        lemma_within_stable(l, s, d, (e - 1) as nat);
        assert(within(l, s, e) == within(l, s, (e - 1) as nat).union(next_to(l, within(l, s, (e - 1) as nat))));
        assert(within(l, s, d + 1) == within(l, s, d).union(next_to(l, within(l, s, d))));
    }
}

/// A whole round over the links adds exactly the ids next to `s`.
proof fn lemma_round(l: Seq<ConceptLink>, s: Set<Seq<char>>)
    ensures
        reached_by(l, s, l.len() as int) == next_to(l, s),
{
    assert forall|y: Seq<char>| reached_by(l, s, l.len() as int).contains(y) <==> next_to(l, s).contains(y) by {
        if reached_by(l, s, l.len() as int).contains(y) {
            let k = choose|k: int| 0 <= k < l.len() && #[trigger] crosses(l[k], s, y);
            if s.contains(l[k].source_id@) && l[k].target_id@ == y {
                assert(has_edge(l, l[k].source_id@, y));
                assert(joined(l, l[k].source_id@, y));
            } else {
                assert(has_edge(l, y, l[k].target_id@));
                assert(joined(l, l[k].target_id@, y));
            }
        }
        if next_to(l, s).contains(y) {
            let x = choose|x: Seq<char>| s.contains(x) && #[trigger] joined(l, x, y);
            if has_edge(l, x, y) {
                let k = choose|k: int| 0 <= k < l.len() && (#[trigger] l[k]).source_id@ == x && l[k].target_id@ == y;
                assert(crosses(l[k], s, y));
            } else {
                let k = choose|k: int| 0 <= k < l.len() && (#[trigger] l[k]).source_id@ == y && l[k].target_id@ == x;
                assert(crosses(l[k], s, y));
            }
        }
    }
    assert(reached_by(l, s, l.len() as int) =~= next_to(l, s));
}

/// The elements of a sequence with one more element.
proof fn lemma_push_set(v: Seq<Seq<char>>, x: Seq<char>)
    ensures
        v.push(x).to_set() == v.to_set().insert(x),
{
    let w = v.push(x);
    assert forall|y: Seq<char>| w.to_set().contains(y) <==> v.to_set().insert(x).contains(y) by {
        if v.contains(y) {
            let i = choose|i: int| 0 <= i < v.len() && v[i] == y;
            assert(w[i] == y);
        }
        if y == x {
            assert(w[v.len() as int] == x);
        }
        if w.contains(y) {
            let i = choose|i: int| 0 <= i < w.len() && w[i] == y;
            if i < v.len() {
                assert(v[i] == y);
            }
        }
    }
    assert(w.to_set() =~= v.to_set().insert(x));
}

/// Whether one of the first `n` of `v` is `x`.
fn among(v: &Vec<String>, n: usize, x: &String) -> (b: bool)
    requires
        n <= v@.len(),
    ensures
        b == text_views(v@.take(n as int)).contains(x@),
{
    let mut i: usize = 0;
    while i < n
        invariant
            i <= n <= v@.len(),
            forall|z: int| 0 <= z < i ==> (#[trigger] v@[z])@ != x@,
        decreases n - i,
    {
        if v[i] == *x {
            proof {
                assert(text_views(v@.take(n as int))[i as int] == x@);
            }
            return true;
        }
        i += 1;
    }
    proof {
        if text_views(v@.take(n as int)).contains(x@) {
            let z = choose|z: int| 0 <= z < n && text_views(v@.take(n as int))[z] == x@;
            assert(v@[z]@ == x@);
        }
    }
    false
}

impl MemoirTable {
    /// The neighbourhood of concept `concept_id`: the concepts within
    /// `depth` links of it (links followed either way), the concept itself
    /// first, each once, and the links with both ends among them, in table
    /// order. A missing concept has an empty neighbourhood.
    pub fn get_neighborhood(&self, concept_id: &str, depth: usize) -> (r: IcmResult<(Vec<Concept>, Vec<ConceptLink>)>)
        requires
            self.wf(),
        ensures
            r matches Ok(res) && {
                &&& !has_concept(self.concepts@, concept_id@) ==> res.0@.len() == 0 && res.1@.len() == 0
                &&& has_concept(self.concepts@, concept_id@) ==> {
                    let w = within(self.links@, concept_id@, depth as nat);
                    &&& Seq::new(res.0@.len(), |k: int| res.0@[k].id@).no_duplicates()
                    &&& Seq::new(res.0@.len(), |k: int| res.0@[k].id@).to_set() == w
                    &&& res.0@[0].id@ == concept_id@
                    &&& forall|k: int| 0 <= k < res.0@.len() ==> concept_with_id(self.concepts@, (#[trigger] res.0@[k]).id@) == Some(res.0@[k]@)
                    &&& res.1@ == self.links@.filter(inside(w))
                }
            },
    {
        let start = owned(concept_id);
        if self.concept_index(&start).is_none() {
            return Ok((Vec::new(), Vec::new()));
        }
        let ghost l = self.links@;
        let ghost t = self.concepts@;
        let mut visited: Vec<String> = Vec::new();
        visited.push(start.clone());
        proof {
            assert(text_views(visited@).to_set() =~= set![concept_id@]) by {
                assert forall|x: Seq<char>| text_views(visited@).to_set().contains(x) <==> x == concept_id@ by {
                    if x == concept_id@ {
                        assert(text_views(visited@)[0] == x);
                    }
                }
            }
        }
        let mut d: usize = 0;
        let mut stable = false;
        while d < depth && !stable
            invariant
                d <= depth,
                l == self.links@,
                t == self.concepts@,
                self.wf(),
                has_concept(t, concept_id@),
                visited@.len() > 0,
                visited@[0]@ == concept_id@,
                text_views(visited@).no_duplicates(),
                text_views(visited@).to_set() == within(l, concept_id@, d as nat),
                stable ==> within(l, concept_id@, (d + 1) as nat) == within(l, concept_id@, d as nat),
                forall|z: int| 0 <= z < visited@.len() ==> has_concept(t, (#[trigger] visited@[z])@),
            decreases (depth - d) as int + (if stable { 0int } else { 1int }),
        {
            let n0 = visited.len();
            let ghost s = within(l, concept_id@, d as nat);
            let ghost v0 = visited@;
            let mut j: usize = 0;
            while j < self.links.len()
                invariant
                    j <= l.len(),
                    l == self.links@,
                    t == self.concepts@,
                    self.wf(),
                    n0 == v0.len(),
                    visited@.len() >= n0,
                    visited@.take(n0 as int) == v0,
                    text_views(v0).to_set() == s,
                    text_views(visited@).no_duplicates(),
                    text_views(visited@).to_set() == s.union(reached_by(l, s, j as int)),
                    forall|z: int| 0 <= z < visited@.len() ==> has_concept(t, (#[trigger] visited@[z])@),
                decreases self.links.len() - j,
            {
                let x = &self.links[j];
                proof {
                    assert(text_views(visited@.take(n0 as int)) == text_views(v0));
                }
                let src_in = among(&visited, n0, &x.source_id);
                let tgt_in = among(&visited, n0, &x.target_id);
                let ghost r0 = text_views(visited@).to_set();
                let ghost src = x.source_id@;
                let ghost tgt = x.target_id@;
                if src_in {
                    let seen = among(&visited, visited.len(), &x.target_id);
                    proof {
                        assert(visited@.take(visited@.len() as int) =~= visited@);
                    }
                    if !seen {
                        let ghost before = visited@;
                        visited.push(x.target_id.clone());
                        proof {
                            assert(text_views(visited@) =~= text_views(before).push(tgt));
                            lemma_push_set(text_views(before), tgt);
                            assert(visited@.take(n0 as int) =~= before.take(n0 as int));
                            assert(has_concept(t, tgt));
                            assert forall|z: int| 0 <= z < visited@.len() implies has_concept(t, (#[trigger] visited@[z])@) by {
                                if z < before.len() {
                                    assert(visited@[z] == before[z]);
                                }
                            }
                        }
                    } else {
                        proof {
                            assert(r0.insert(tgt) =~= r0);
                        }
                    }
                }
                let ghost r1 = text_views(visited@).to_set();
                proof {
                    assert(r1 == if src_in { r0.insert(tgt) } else { r0 });
                }
                if tgt_in {
                    let seen = among(&visited, visited.len(), &x.source_id);
                    proof {
                        assert(visited@.take(visited@.len() as int) =~= visited@);
                    }
                    if !seen {
                        let ghost before = visited@;
                        visited.push(x.source_id.clone());
                        proof {
                            assert(text_views(visited@) =~= text_views(before).push(src));
                            lemma_push_set(text_views(before), src);
                            assert(visited@.take(n0 as int) =~= before.take(n0 as int));
                            assert(has_concept(t, src));
                            assert forall|z: int| 0 <= z < visited@.len() implies has_concept(t, (#[trigger] visited@[z])@) by {
                                if z < before.len() {
                                    assert(visited@[z] == before[z]);
                                }
                            }
                        }
                    } else {
                        proof {
                            assert(r1.insert(src) =~= r1);
                        }
                    }
                }
                proof {
                    assert(src_in == s.contains(src));
                    assert(tgt_in == s.contains(tgt));
                    let now = text_views(visited@).to_set();
                    assert(now == if tgt_in { r1.insert(src) } else { r1 });
                    assert forall|y: Seq<char>| reached_by(l, s, j + 1).contains(y) <==> (reached_by(l, s, j as int).contains(y) || crosses(l[j as int], s, y)) by {
                        if reached_by(l, s, j + 1).contains(y) {
                            let k = choose|k: int| 0 <= k < j + 1 && #[trigger] crosses(l[k], s, y);
                            if k < j {
                                assert(reached_by(l, s, j as int).contains(y));
                            }
                        }
                        if reached_by(l, s, j as int).contains(y) {
                            let k = choose|k: int| 0 <= k < j && #[trigger] crosses(l[k], s, y);
                            assert(0 <= k < j + 1 && crosses(l[k], s, y));
                        }
                        if crosses(l[j as int], s, y) {
                            assert(0 <= j < j + 1 && crosses(l[j as int], s, y));
                        }
                    }
                    assert(l[j as int] == *x);
                    assert forall|y: Seq<char>| now.contains(y) <==> s.union(reached_by(l, s, j + 1)).contains(y) by {
                        assert(crosses(l[j as int], s, y) <==> ((src_in && y == tgt) || (tgt_in && y == src)));
                        assert(r0.contains(y) <==> (s.contains(y) || reached_by(l, s, j as int).contains(y)));
                    }
                    assert(now =~= s.union(reached_by(l, s, j + 1)));
                }
                j += 1;
            }
            proof {
                lemma_round(l, s);
                assert(within(l, concept_id@, (d + 1) as nat) == s.union(next_to(l, s)));
            }
            if visited.len() == n0 {
                proof {
                    assert(visited@ =~= v0);
                }
                stable = true;
            } else {
                d += 1;
            }
        }
        proof {
            if stable {
                lemma_within_stable(l, concept_id@, d as nat, depth as nat);
            }
        }
        let ghost w = within(l, concept_id@, depth as nat);
        let mut cs: Vec<Concept> = Vec::new();
        let mut i: usize = 0;
        while i < visited.len()
            invariant
                i <= visited@.len(),
                t == self.concepts@,
                self.wf(),
                forall|z: int| 0 <= z < visited@.len() ==> has_concept(t, (#[trigger] visited@[z])@),
                cs@.len() == i,
                forall|z: int| 0 <= z < i ==> (#[trigger] cs@[z]).id@ == visited@[z]@ && concept_with_id(t, cs@[z].id@) == Some(cs@[z]@),
            decreases visited.len() - i,
        {
            let ghost x = visited@[i as int]@;
            match self.concept_index(&visited[i]) {
                Some(c) => {
                    proof {
                        let q = choose|q: int| 0 <= q < t.len() && (#[trigger] t[q]).id@ == x;
                        if q != c {
                            assert(t[q].id@ != t[c as int].id@);
                        }
                    }
                    cs.push(self.concepts[c].copy());
                },
                None => {
                    proof {
                        assert(has_concept(t, x));
                        let q = choose|q: int| 0 <= q < t.len() && (#[trigger] t[q]).id@ == x;
                        assert(t[q].id@ != x);
                    }
                },
            }
            i += 1;
        }
        proof {
            assert(Seq::new(cs@.len(), |k: int| cs@[k].id@) =~= text_views(visited@));
        }
        let ghost p = inside(w);
        let n = visited.len();
        let mut ls: Vec<ConceptLink> = Vec::new();
        let mut k: usize = 0;
        while k < self.links.len()
            invariant
                k <= l.len(),
                l == self.links@,
                n == visited@.len(),
                text_views(visited@).to_set() == w,
                p == inside(w),
                ls@ == l.take(k as int).filter(p),
            decreases self.links.len() - k,
        {
            proof {
                lemma_filter_step(l, k as int, p);
                assert(visited@.take(n as int) =~= visited@);
            }
            let x = &self.links[k];
            if among(&visited, n, &x.source_id) && among(&visited, n, &x.target_id) {
                ls.push(x.copy());
            }
            k += 1;
        }
        proof {
            assert(l.take(l.len() as int) =~= l);
        }
        Ok((cs, ls))
    }
}

} // verus!
