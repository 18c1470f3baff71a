//! Graph expansion of search results: which linked memories to fetch for
//! a list of results. Scoring the fetched neighbours is left to the
//! caller.
use vstd::prelude::*;
use crate::model::Memory;
use crate::transcript::first_n;

verus! {

broadcast use vstd::seq_lib::group_seq_properties;

/// A link of result `parent`: the id it names and the parent's position.
pub type Link = (Seq<char>, int);

/// The links of the result at position `i`, in order.
pub open spec fn links_of(m: Memory, i: int) -> Seq<Link> {
    Seq::new(m.related_ids@.len(), |j: int| (m.related_ids@[j]@, i))
}

/// Every link of the results, result by result.
pub open spec fn all_links(ms: Seq<Memory>) -> Seq<Link>
    decreases ms.len(),
{
    if ms.len() == 0 {
        Seq::empty()
    } else {
        all_links(ms.drop_last()) + links_of(ms.last(), ms.len() - 1)
    }
}

/// Whether one of the results has id `x`.
pub open spec fn is_result(ms: Seq<Memory>, x: Seq<char>) -> bool {
    exists|k: int| 0 <= k < ms.len() && (#[trigger] ms[k]).id@ == x
}

/// Whether one of `c` names `x`.
pub open spec fn names(c: Seq<Link>, x: Seq<char>) -> bool {
    exists|k: int| 0 <= k < c.len() && (#[trigger] c[k]).0 == x
}

/// The links worth following, in order: each id once (its first link),
/// and none to a result itself.
pub open spec fn fresh_links(ms: Seq<Memory>, p: Seq<Link>) -> Seq<Link>
    decreases p.len(),
{
    if p.len() == 0 {
        Seq::empty()
    } else {
        let f = fresh_links(ms, p.drop_last());
        let x = p.last();
        if is_result(ms, x.0) || names(f, x.0) {
            f
        } else {
            f.push(x)
        }
    }
}

/// The fresh links of a prefix are a prefix of the fresh links.
proof fn lemma_fresh_prefix(ms: Seq<Memory>, p: Seq<Link>, k: int)
    requires
        0 <= k <= p.len(),
    ensures
        fresh_links(ms, p.take(k)).len() <= fresh_links(ms, p).len(),
        fresh_links(ms, p.take(k)) == fresh_links(ms, p).take(fresh_links(ms, p.take(k)).len() as int),
    decreases p.len() - k,
{
    if k == p.len() {
        assert(p.take(k) =~= p);
    } else {
        lemma_fresh_prefix(ms, p.drop_last(), k);
        assert(p.drop_last().take(k) =~= p.take(k));
        let f = fresh_links(ms, p.drop_last());
        let g = fresh_links(ms, p);
        let n = fresh_links(ms, p.take(k)).len() as int;
        assert(f.take(n) =~= g.take(n));
    }
}

/// The links of the first `i` results are the first links of all of them.
proof fn lemma_links_prefix(ms: Seq<Memory>, i: int)
    requires
        0 <= i <= ms.len(),
    ensures
        all_links(ms.take(i)).len() <= all_links(ms).len(),
        all_links(ms).take(all_links(ms.take(i)).len() as int) == all_links(ms.take(i)),
    decreases ms.len(),
{
    if i == ms.len() {
        assert(ms.take(i) =~= ms);
    } else {
        lemma_links_prefix(ms.drop_last(), i);
        assert(ms.drop_last().take(i) =~= ms.take(i));
        let a = all_links(ms.drop_last());
        let n = all_links(ms.take(i)).len() as int;
        assert(all_links(ms).take(n) =~= a.take(n));
    }
}

/// The `(id, parent position)` pairs of the linked memories to fetch for
/// `initial`: the ids the results link to, in result order and link order,
/// each once, skipping ids of results, at most `max_neighbors`.
pub fn neighbour_candidates(initial: &Vec<Memory>, max_neighbors: usize) -> (r: Vec<(String, usize)>)
    ensures
        r@.len() == first_n(fresh_links(initial@, all_links(initial@)), max_neighbors as nat).len(),
        forall|k: int| 0 <= k < r@.len() ==> {
            let e = first_n(fresh_links(initial@, all_links(initial@)), max_neighbors as nat)[k];
            &&& (#[trigger] r@[k]).0@ == e.0
            &&& r@[k].1 == e.1
        },
{
    let ghost ms = initial@;
    let ghost all = all_links(ms);
    let mut cand: Vec<(String, usize)> = Vec::new();
    let ghost mut done: Seq<Link> = Seq::empty();
    let mut i: usize = 0;
    let mut full = cand.len() >= max_neighbors;
    proof {
        assert(ms.take(0) =~= Seq::<Memory>::empty());
    }
    while i < initial.len() && !full
        invariant
            i <= initial@.len(),
            ms == initial@,
            all == all_links(ms),
            done.len() <= all.len(),
            done == all.take(done.len() as int),
            !full ==> done == all_links(ms.take(i as int)),
            full == (cand@.len() >= max_neighbors),
            cand@.len() == fresh_links(ms, done).len(),
            cand@.len() <= max_neighbors,
            forall|k: int| 0 <= k < cand@.len() ==> (#[trigger] cand@[k]).0@ == fresh_links(ms, done)[k].0 && cand@[k].1 == fresh_links(ms, done)[k].1,
        decreases (initial.len() - i) as int + (if full { 0int } else { 1int }),
    {
        let m = &initial[i];
        let ghost base = done;
        proof {
            lemma_links_prefix(ms, i + 1);
            assert(ms.take(i + 1).drop_last() =~= ms.take(i as int));
            assert(ms.take(i + 1).last() == *m);
            assert(all_links(ms.take(i + 1)) == base + links_of(*m, i as int));
        }
        let mut j: usize = 0;
        while j < m.related_ids.len() && !full
            invariant
                i < initial@.len(),
                j <= m.related_ids@.len(),
                ms == initial@,
                all == all_links(ms),
                *m == initial@[i as int],
                all_links(ms.take(i + 1)) == base + links_of(*m, i as int),
                all_links(ms.take(i + 1)).len() <= all.len(),
                all.take(all_links(ms.take(i + 1)).len() as int) == all_links(ms.take(i + 1)),
                done == base + links_of(*m, i as int).take(j as int),
                full == (cand@.len() >= max_neighbors),
                cand@.len() == fresh_links(ms, done).len(),
                cand@.len() <= max_neighbors,
                forall|k: int| 0 <= k < cand@.len() ==> (#[trigger] cand@[k]).0@ == fresh_links(ms, done)[k].0 && cand@[k].1 == fresh_links(ms, done)[k].1,
            decreases m.related_ids.len() - j,
        {
            let id = &m.related_ids[j];
            let ghost x: Link = (id@, i as int);
            let ghost f = fresh_links(ms, done);
            let mut in_results = false;
            let mut q: usize = 0;
            while q < initial.len()
                invariant
                    q <= initial@.len(),
                    ms == initial@,
                    in_results == exists|k: int| 0 <= k < q && (#[trigger] ms[k]).id@ == id@,
                decreases initial.len() - q,
            {
                if initial[q].id == *id {
                    in_results = true;
                }
                q += 1;
            }
            let mut seen = false;
            let mut q: usize = 0;
            while q < cand.len()
                invariant
                    q <= cand@.len(),
                    cand@.len() == f.len(),
                    forall|k: int| 0 <= k < cand@.len() ==> (#[trigger] cand@[k]).0@ == f[k].0,
                    seen == exists|k: int| 0 <= k < q && (#[trigger] f[k]).0 == id@,
                decreases cand.len() - q,
            {
                if cand[q].0 == *id {
                    seen = true;
                }
                q += 1;
            }
            proof {
                let nd = base + links_of(*m, i as int).take(j + 1);
                assert(links_of(*m, i as int)[j as int] == x);
                assert(nd =~= done.push(x));
                assert(nd.drop_last() =~= done);
                assert(nd.last() == x);
                assert(in_results == is_result(ms, x.0));
                assert(seen == names(f, x.0));
                done = nd;
            }
            if !in_results && !seen {
                cand.push((id.clone(), i));
            }
            full = cand.len() >= max_neighbors;
            j += 1;
        }
        proof {
            let lm = links_of(*m, i as int);
            assert(done == all.take(done.len() as int)) by {
                let whole = all_links(ms.take(i + 1));
                assert(done =~= whole.take(done.len() as int));
                assert(all.take(done.len() as int) =~= whole.take(done.len() as int));
            }
            if !full {
                assert(lm.take(j as int) =~= lm);
            }
        }
        if !full {
            i += 1;
        }
    }
    proof {
        lemma_fresh_prefix(ms, all, done.len() as int);
        if !full {
            assert(ms.take(i as int) =~= ms);
            assert(done == all);
        }
    }
    cand
}

} // verus!
