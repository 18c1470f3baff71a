//! Pattern mining: the memories of a topic grouped by keyword overlap.
//! Two memories are similar when the Jaccard similarity of their
//! lower-cased keyword sets exceeds one half; clusters are the connected
//! groups of the similarity graph.
use vstd::prelude::*;
use crate::model::Memory;
use crate::patterns::PatternCluster;
use crate::search::string_views;
use crate::text::{lowercase, to_lowercase};
use crate::order::{sort_by_count_desc, sorted_by_count_desc};
use crate::model::{IcmError, IcmResult, copy_strings};
use crate::memory::MemoryTable;
use crate::patterns::heaviest_of_topic;

verus! {

broadcast use vstd::seq_lib::group_seq_properties;

/// The lower-cased keywords, each kept once, in order of first occurrence.
pub open spec fn lower_distinct(ks: Seq<String>) -> Seq<Seq<char>>
    decreases ks.len(),
{
    if ks.len() == 0 {
        seq![]
    } else {
        let d = lower_distinct(ks.drop_last());
        let x = lowercase(ks.last()@);
        if d.contains(x) { d } else { d.push(x) }
    }
}

/// Number of entries of `a` also in `b`.
pub open spec fn shared_count(a: Seq<Seq<char>>, b: Seq<Seq<char>>) -> nat {
    a.filter(|x: Seq<char>| b.contains(x)).len()
}

/// Whether two keyword sets (without repeats) overlap by more than half
/// of their union; two empty sets are not similar.
pub open spec fn similar_sets(a: Seq<Seq<char>>, b: Seq<Seq<char>>) -> bool {
    let i = shared_count(a, b);
    let u = a.len() + b.len() - i;
    &&& !(a.len() == 0 && b.len() == 0)
    &&& u > 0
    &&& 2 * i > u
}

/// Whether two memories have similar keyword sets.
pub open spec fn similar(m1: Memory, m2: Memory) -> bool {
    similar_sets(lower_distinct(m1.keywords@), lower_distinct(m2.keywords@))
}

/// Whether memories `i` and `j` of `v` are joined by an edge of the
/// similarity graph (compared with the lower index first).
pub open spec fn linked(v: Seq<Memory>, i: int, j: int) -> bool {
    &&& 0 <= i < v.len()
    &&& 0 <= j < v.len()
    &&& ((i < j && similar(v[i], v[j])) || (j < i && similar(v[j], v[i])))
}

/// `p` is a walk along edges of the similarity graph.
pub open spec fn is_walk(v: Seq<Memory>, p: Seq<int>) -> bool {
    &&& p.len() >= 1
    &&& forall|k: int| 0 <= k < p.len() ==> 0 <= #[trigger] p[k] < v.len()
    &&& forall|k: int| 0 <= k < p.len() - 1 ==> linked(v, #[trigger] p[k], p[k + 1])
}

/// Memory `b` can be reached from memory `a`.
pub open spec fn reaches(v: Seq<Memory>, a: int, b: int) -> bool {
    exists|p: Seq<int>| #[trigger] is_walk(v, p) && p[0] == a && p.last() == b
}

/// `lab` gives each memory the least index of its connected group: every
/// memory is reached from its label, and edges never cross labels.
pub open spec fn component_labels(v: Seq<Memory>, lab: Seq<int>) -> bool {
    &&& lab.len() == v.len()
    &&& forall|i: int| 0 <= i < v.len() ==> 0 <= #[trigger] lab[i] <= i && lab[lab[i]] == lab[i] && reaches(v, lab[i], i)
    &&& forall|i: int, j: int| #[trigger] linked(v, i, j) ==> lab[i] == lab[j]
}

/// `g` lists, ascending, the memories labelled `r`.
pub open spec fn class_of(lab: Seq<int>, r: int, g: Seq<int>) -> bool {
    &&& forall|k: int| 0 <= k < g.len() ==> 0 <= #[trigger] g[k] < lab.len() && lab[g[k]] == r
    &&& forall|i: int| 0 <= i < lab.len() && lab[i] == r ==> g.contains(i)
    &&& forall|a: int, b: int| 0 <= a < b < g.len() ==> #[trigger] g[a] < #[trigger] g[b]
}

/// The keywords of the members, in member order.
pub open spec fn member_keywords(v: Seq<Memory>, g: Seq<int>) -> Seq<String>
    decreases g.len(),
{
    if g.len() == 0 {
        seq![]
    } else {
        member_keywords(v, g.drop_last()) + v[g.last()].keywords@
    }
}

/// The keywords, each kept in its first spelling and dropped when its
/// lower-cased form was seen before.
pub open spec fn first_by_lower(ks: Seq<String>) -> Seq<Seq<char>>
    decreases ks.len(),
{
    if ks.len() == 0 {
        seq![]
    } else {
        let d = first_by_lower(ks.drop_last());
        if lower_distinct(ks.drop_last()).contains(lowercase(ks.last()@)) { d } else { d.push(ks.last()@) }
    }
}

/// `b` is the representative of the members `g`: of the greatest weight,
/// and the last such member.
pub open spec fn representative(v: Seq<Memory>, g: Seq<int>, b: int) -> bool {
    &&& g.contains(b)
    &&& forall|k: int| 0 <= k < g.len() ==> v[#[trigger] g[k]].weight <= v[b].weight
    &&& forall|k: int| 0 <= k < g.len() && g[k] > b ==> v[#[trigger] g[k]].weight < v[b].weight
}

/// `c` describes the cluster of members `g`.
pub open spec fn cluster_from(v: Seq<Memory>, g: Seq<int>, c: PatternCluster) -> bool {
    &&& c.count == g.len()
    &&& string_views(c.memory_ids@) == Seq::new(g.len(), |k: int| v[g[k]].id@)
    &&& string_views(c.keywords@) == first_by_lower(member_keywords(v, g))
    &&& exists|b: int| representative(v, g, b) && c.representative_summary@ == v[b].summary@
}

/// The clusters of `v` of at least `min` members, largest first.
pub open spec fn pattern_clusters(v: Seq<Memory>, min: nat, out: Seq<PatternCluster>) -> bool {
    exists|lab: Seq<int>, roots: Seq<int>, groups: Seq<Seq<int>>| {
        &&& component_labels(v, lab)
        &&& roots.len() == out.len()
        &&& groups.len() == out.len()
        &&& roots.no_duplicates()
        &&& forall|c: int| 0 <= c < out.len() ==> {
            &&& class_of(lab, #[trigger] roots[c], groups[c])
            &&& groups[c].len() >= min
            &&& cluster_from(v, groups[c], out[c])
        }
        &&& forall|r: int, g: Seq<int>| 0 <= r < v.len() && lab[r] == r && #[trigger] class_of(lab, r, g) && g.len() >= min ==> roots.contains(r)
        &&& forall|a: int, b: int| 0 <= a < b < out.len() ==> (#[trigger] out[a]).count >= (#[trigger] out[b]).count
    }
}

/// The lower-cased keywords of `ks`, each once, in order of first occurrence.
pub fn lower_distinct_exec(ks: &Vec<String>) -> (r: Vec<String>)
    ensures
        string_views(r@) == lower_distinct(ks@),
{
    let mut r: Vec<String> = Vec::new();
    let mut i: usize = 0;
    while i < ks.len()
        invariant
            i <= ks@.len(),
            string_views(r@) == lower_distinct(ks@.take(i as int)),
        decreases ks.len() - i,
    {
        proof {
            assert(ks@.take(i + 1).drop_last() =~= ks@.take(i as int));
            assert(ks@.take(i + 1).last() == ks@[i as int]);
        }
        let x = to_lowercase(ks[i].as_str());
        if !contains_text(&r, &x) {
            let ghost before = string_views(r@);
            r.push(x);
            proof {
                assert(string_views(r@) =~= before.push(x@));
            }
        }
        i += 1;
    }
    proof {
        assert(ks@.take(ks@.len() as int) =~= ks@);
    }
    r
}

/// Whether `x` is among `v`.
fn contains_text(v: &Vec<String>, x: &String) -> (b: bool)
    ensures
        b == string_views(v@).contains(x@),
{
    let mut i: usize = 0;
    while i < v.len()
        invariant
            i <= v@.len(),
            forall|j: int| 0 <= j < i ==> (#[trigger] v@[j])@ != x@,
        decreases v.len() - i,
    {
        if v[i] == *x {
            proof {
                assert(string_views(v@)[i as int] == x@);
            }
            return true;
        }
        i += 1;
    }
    proof {
        if string_views(v@).contains(x@) {
            let j = choose|j: int| 0 <= j < string_views(v@).len() && string_views(v@)[j] == x@;
            assert(v@[j]@ == x@);
        }
    }
    false
}

/// Number of entries of `a` also in `b`.
fn shared_count_exec(a: &Vec<String>, b: &Vec<String>) -> (n: usize)
    ensures
        n == shared_count(string_views(a@), string_views(b@)),
{
    let ghost sa = string_views(a@);
    let ghost sb = string_views(b@);
    let ghost p = |x: Seq<char>| sb.contains(x);
    let mut n: usize = 0;
    let mut i: usize = 0;
    while i < a.len()
        invariant
            i <= a@.len(),
            sa == string_views(a@),
            sb == string_views(b@),
            p == (|x: Seq<char>| sb.contains(x)),
            n == sa.take(i as int).filter(p).len(),
            n <= i,
        decreases a.len() - i,
    {
        proof {
            crate::facts::lemma_filter_step(sa, i as int, p);
        }
        if contains_text(b, &a[i]) {
            n = n + 1;
        }
        i += 1;
    }
    proof {
        assert(sa.take(sa.len() as int) =~= sa);
    }
    n
}

/// Whether two keyword sets are similar.
fn similar_exec(a: &Vec<String>, b: &Vec<String>) -> (s: bool)
    ensures
        s == similar_sets(string_views(a@), string_views(b@)),
{
    if a.len() == 0 && b.len() == 0 {
        return false;
    }
    let i = shared_count_exec(a, b);
    proof {
        string_views(a@).lemma_filter_len(|x: Seq<char>| string_views(b@).contains(x));
    }
    let u: u128 = (a.len() - i) as u128 + b.len() as u128;
    u > 0 && 2 * (i as u128) > u
}

/// Number of unlabelled entries.
pub open spec fn count_none(s: Seq<Option<usize>>) -> nat
    decreases s.len(),
{
    if s.len() == 0 {
        0
    } else {
        count_none(s.drop_last()) + if s.last() is None { 1nat } else { 0nat }
    }
}

/// Labelling an unlabelled entry leaves one fewer.
proof fn lemma_count_none_set(s: Seq<Option<usize>>, w: int, x: usize)
    requires
        0 <= w < s.len(),
        s[w] is None,
    ensures
        count_none(s.update(w, Some(x))) + 1 == count_none(s),
    decreases s.len(),
{
    let t = s.update(w, Some(x));
    if w == s.len() - 1 {
        assert(t.drop_last() =~= s.drop_last());
    } else {
        lemma_count_none_set(s.drop_last(), w, x);
        assert(t.drop_last() =~= s.drop_last().update(w, Some(x)));
    }
}

/// A walk extended by one edge.
proof fn lemma_walk_push(v: Seq<Memory>, p: Seq<int>, w: int)
    requires
        is_walk(v, p),
        linked(v, p.last(), w),
    ensures
        is_walk(v, p.push(w)),
        p.push(w)[0] == p[0],
        p.push(w).last() == w,
{
    let q = p.push(w);
    assert forall|k: int| 0 <= k < q.len() - 1 implies linked(v, #[trigger] q[k], q[k + 1]) by {
        if k < p.len() - 1 {
            assert(q[k] == p[k] && q[k + 1] == p[k + 1]);
        } else {
            assert(q[k] == p.last());
        }
    }
}

/// Whether memories `i` and `j` are joined by an edge.
fn linked_exec(sets: &Vec<Vec<String>>, v: Ghost<Seq<Memory>>, i: usize, j: usize) -> (b: bool)
    requires
        sets@.len() == v@.len(),
        i < v@.len(),
        j < v@.len(),
        forall|k: int| 0 <= k < v@.len() ==> string_views(#[trigger] sets@[k]@) == lower_distinct(v@[k].keywords@),
    ensures
        b == linked(v@, i as int, j as int),
{
    if i < j {
        similar_exec(&sets[i], &sets[j])
    } else if j < i {
        similar_exec(&sets[j], &sets[i])
    } else {
        false
    }
}

#[verifier::rlimit(60)]
/// The connected groups of the similarity graph, each memory labelled with
/// the least index of its group (breadth-first from each unlabelled
/// memory in index order).
fn label_components(sets: &Vec<Vec<String>>, v: Ghost<Seq<Memory>>) -> (lab: Vec<usize>)
    requires
        forall|k: int| 0 <= k < v@.len() ==> string_views(#[trigger] sets@[k]@) == lower_distinct(v@[k].keywords@),
        sets@.len() == v@.len(),
    ensures
        component_labels(v@, Seq::new(lab@.len(), |i: int| lab@[i] as int)),
{
    let n = sets.len();
    let mut lab: Vec<Option<usize>> = Vec::new();
    let mut z: usize = 0;
    while z < n
        invariant
            z <= n,
            lab@.len() == z,
            forall|i: int| 0 <= i < z ==> lab@[i] is None,
        decreases n - z,
    {
        lab.push(None);
        z += 1;
    }
    let ghost mut paths: Seq<Seq<int>> = Seq::new(n as nat, |i: int| seq![i]);
    let mut s: usize = 0;
    while s < n
        invariant
            n == v@.len() == sets@.len(),
            forall|k: int| 0 <= k < v@.len() ==> string_views(#[trigger] sets@[k]@) == lower_distinct(v@[k].keywords@),
            s <= n,
            lab@.len() == n,
            paths.len() == n,
            forall|i: int| 0 <= i < s ==> (#[trigger] lab@[i]) is Some,
            forall|i: int| 0 <= i < n && (#[trigger] lab@[i]) is Some ==> {
                let r = lab@[i].unwrap() as int;
                &&& r <= i
                &&& r < s
                &&& lab@[r] == Some(r as usize)
                &&& is_walk(v@, paths[i])
                &&& paths[i][0] == r
                &&& paths[i].last() == i
            },
            forall|i: int, j: int| 0 <= i < n && (#[trigger] lab@[i]) is Some && #[trigger] linked(v@, i, j) ==> lab@[j] == lab@[i],
        decreases n - s,
    {
        if lab[s].is_none() {
            proof {
                lemma_count_none_set(lab@, s as int, s);
            }
            lab.set(s, Some(s));
            proof {
                paths = paths.update(s as int, seq![s as int]);
                assert(is_walk(v@, paths[s as int]));
            }
            let mut work: Vec<usize> = Vec::new();
            work.push(s);
            while work.len() > 0
                invariant
                    n == v@.len() == sets@.len(),
                    forall|k: int| 0 <= k < v@.len() ==> string_views(#[trigger] sets@[k]@) == lower_distinct(v@[k].keywords@),
                    s < n,
                    lab@.len() == n,
                    paths.len() == n,
                    lab@[s as int] == Some(s),
                    forall|i: int| 0 <= i < s ==> (#[trigger] lab@[i]) is Some,
                    forall|i: int| 0 <= i < n && (#[trigger] lab@[i]) is Some ==> {
                        let r = lab@[i].unwrap() as int;
                        &&& r <= i
                        &&& r <= s
                        &&& lab@[r] == Some(r as usize)
                        &&& is_walk(v@, paths[i])
                        &&& paths[i][0] == r
                        &&& paths[i].last() == i
                    },
                    work@.no_duplicates(),
                    forall|k: int| 0 <= k < work@.len() ==> (#[trigger] work@[k]) < n && lab@[work@[k] as int] == Some(s),
                    forall|i: int, j: int| 0 <= i < n && (#[trigger] lab@[i]) is Some && lab@[i] != Some(s) && #[trigger] linked(v@, i, j) ==> lab@[j] == lab@[i],
                    forall|i: int, j: int| 0 <= i < n && (#[trigger] lab@[i]) == Some(s) && !work@.contains(i as usize) && #[trigger] linked(v@, i, j) ==> lab@[j] == Some(s),
                decreases count_none(lab@), work.len(),
            {
                let ghost c0 = count_none(lab@);
                let ghost w0 = work@.len();
                let ghost wb = work@;
                let u = work.pop().unwrap();
                proof {
                    assert(wb == work@.push(u));
                    assert(!work@.contains(u)) by {
                        if work@.contains(u) {
                            let k = choose|k: int| 0 <= k < work@.len() && work@[k] == u;
                            assert(wb[k] == wb[wb.len() - 1]);
                        }
                    }
                    assert forall|i: int| 0 <= i < n && i != u && !work@.contains(i as usize) implies !#[trigger] wb.contains(i as usize) by {
                        if wb.contains(i as usize) {
                            let k = choose|k: int| 0 <= k < wb.len() && wb[k] == i as usize;
                            assert(k < work@.len());
                            assert(work@[k] == i as usize);
                        }
                    }
                }
                let mut w: usize = 0;
                while w < n
                    invariant
                        n == v@.len() == sets@.len(),
                        forall|k: int| 0 <= k < v@.len() ==> string_views(#[trigger] sets@[k]@) == lower_distinct(v@[k].keywords@),
                        s < n,
                        u < n,
                        w <= n,
                        lab@.len() == n,
                        paths.len() == n,
                        lab@[s as int] == Some(s),
                        lab@[u as int] == Some(s),
                        !work@.contains(u),
                        forall|i: int| 0 <= i < s ==> (#[trigger] lab@[i]) is Some,
                        forall|i: int| 0 <= i < n && (#[trigger] lab@[i]) is Some ==> {
                            let r = lab@[i].unwrap() as int;
                            &&& r <= i
                            &&& r <= s
                            &&& lab@[r] == Some(r as usize)
                            &&& is_walk(v@, paths[i])
                            &&& paths[i][0] == r
                            &&& paths[i].last() == i
                        },
                        work@.no_duplicates(),
                        forall|k: int| 0 <= k < work@.len() ==> (#[trigger] work@[k]) < n && lab@[work@[k] as int] == Some(s),
                        forall|i: int, j: int| 0 <= i < n && (#[trigger] lab@[i]) is Some && lab@[i] != Some(s) && #[trigger] linked(v@, i, j) ==> lab@[j] == lab@[i],
                        forall|i: int, j: int| 0 <= i < n && i != u && (#[trigger] lab@[i]) == Some(s) && !work@.contains(i as usize) && #[trigger] linked(v@, i, j) ==> lab@[j] == Some(s),
                        forall|j: int| 0 <= j < w && #[trigger] linked(v@, u as int, j) ==> lab@[j] == Some(s),
                        count_none(lab@) < c0 || (count_none(lab@) == c0 && work@.len() < w0),
                    decreases n - w,
                {
                    if lab[w].is_none() && linked_exec(sets, v, u, w) {
                        proof {
                            lemma_count_none_set(lab@, w as int, s);
                            lemma_walk_push(v@, paths[u as int], w as int);
                            paths = paths.update(w as int, paths[u as int].push(w as int));
                        }
                        let ghost before = work@;
                        lab.set(w, Some(s));
                        work.push(w);
                        proof {
                            assert(!before.contains(w)) by {
                                if before.contains(w) {
                                    let k = choose|k: int| 0 <= k < before.len() && before[k] == w;
                                }
                            }
                            assert forall|k: int| 0 <= k < work@.len() implies (#[trigger] work@[k]) < n && lab@[work@[k] as int] == Some(s) by {
                                if k < before.len() {
                                    assert(work@[k] == before[k]);
                                }
                            }
                        }
                    } else {
                        proof {
                            if linked(v@, u as int, w as int) && lab@[w as int] is Some && lab@[w as int] != Some(s) {
                                assert(linked(v@, w as int, u as int));
                                assert(lab@[u as int] == lab@[w as int]);
                            }
                        }
                    }
                    w += 1;
                }
            }
        }
        s += 1;
    }
    let mut out: Vec<usize> = Vec::new();
    let mut k: usize = 0;
    while k < n
        invariant
            k <= n,
            lab@.len() == n,
            out@.len() == k,
            forall|i: int| 0 <= i < n ==> (#[trigger] lab@[i]) is Some,
            forall|i: int| 0 <= i < k ==> Some(#[trigger] out@[i]) == lab@[i],
        decreases n - k,
    {
        out.push(lab[k].unwrap());
        k += 1;
    }
    proof {
        let l = Seq::new(out@.len(), |i: int| out@[i] as int);
        assert forall|i: int| 0 <= i < v@.len() implies 0 <= #[trigger] l[i] <= i && l[l[i]] == l[i] && reaches(v@, l[i], i) by {
            assert(lab@[i] is Some);
            assert(Some(out@[i]) == lab@[i]);
            assert(is_walk(v@, paths[i]));
            let r = lab@[i].unwrap() as int;
            assert(Some(out@[r]) == lab@[r]);
        }
        assert forall|i: int, j: int| #[trigger] linked(v@, i, j) implies l[i] == l[j] by {
            assert(lab@[i] is Some);
            assert(Some(out@[i]) == lab@[i]);
            assert(Some(out@[j]) == lab@[j]);
        }
    }
    out
}

/// The indices of a vector as integers.
pub open spec fn ints(g: Seq<usize>) -> Seq<int> {
    Seq::new(g.len(), |k: int| g[k] as int)
}

/// The members labelled `r`, ascending.
fn class_members(lab: &Vec<usize>, r: usize) -> (g: Vec<usize>)
    ensures
        class_of(ints(lab@), r as int, ints(g@)),
{
    let mut g: Vec<usize> = Vec::new();
    let mut i: usize = 0;
    while i < lab.len()
        invariant
            i <= lab@.len(),
            forall|k: int| 0 <= k < g@.len() ==> #[trigger] g@[k] < i && lab@[g@[k] as int] == r,
            forall|j: int| 0 <= j < i && lab@[j] == r ==> ints(g@).contains(j),
            forall|a: int, b: int| 0 <= a < b < g@.len() ==> #[trigger] g@[a] < #[trigger] g@[b],
        decreases lab.len() - i,
    {
        if lab[i] == r {
            let ghost before = g@;
            g.push(i);
            proof {
                assert forall|j: int| 0 <= j < i + 1 && lab@[j] == r implies ints(g@).contains(j) by {
                    if j < i {
                        let q = choose|q: int| 0 <= q < ints(before).len() && ints(before)[q] == j;
                        assert(ints(g@)[q] == j);
                    } else {
                        assert(ints(g@)[before.len() as int] == j);
                    }
                }
            }
        }
        i += 1;
    }
    g
}

/// The representative of the members `g` (ascending indices of `v`).
fn representative_of(v: &Vec<Memory>, g: &Vec<usize>) -> (best: usize)
    requires
        g@.len() > 0,
        forall|k: int| 0 <= k < g@.len() ==> #[trigger] g@[k] < v@.len(),
        forall|a: int, b: int| 0 <= a < b < g@.len() ==> #[trigger] g@[a] < #[trigger] g@[b],
    ensures
        representative(v@, ints(g@), best as int),
{
    let ghost gs = ints(g@);
    let mut best: usize = g[0];
    proof {
        assert(gs.take(1)[0] == g@[0] as int);
    }
    let mut k: usize = 1;
    while k < g.len()
        invariant
            1 <= k <= g@.len(),
            gs == ints(g@),
            forall|z: int| 0 <= z < g@.len() ==> #[trigger] g@[z] < v@.len(),
            forall|a: int, b: int| 0 <= a < b < g@.len() ==> #[trigger] g@[a] < #[trigger] g@[b],
            gs.take(k as int).contains(best as int),
            forall|z: int| 0 <= z < k ==> v@[#[trigger] gs[z]].weight <= v@[best as int].weight,
            forall|z: int| 0 <= z < k && gs[z] > best ==> v@[#[trigger] gs[z]].weight < v@[best as int].weight,
        decreases g.len() - k,
    {
        if v[g[k]].weight >= v[best].weight {
            proof {
                assert(gs.take(k + 1)[k as int] == g@[k as int] as int);
                assert forall|z: int| 0 <= z < k + 1 && gs[z] > g@[k as int] implies v@[#[trigger] gs[z]].weight < v@[g@[k as int] as int].weight by {
                    if z < k {
                        assert(g@[z] < g@[k as int]);
                    }
                }
            }
            best = g[k];
        } else {
            proof {
                let q = choose|q: int| 0 <= q < gs.take(k as int).len() && gs.take(k as int)[q] == best as int;
                assert(gs.take(k + 1)[q] == best as int);
            }
        }
        k += 1;
    }
    proof {
        assert(gs.take(g@.len() as int) =~= gs);
    }
    best
}

/// The ids of the members `g`, in order.
fn member_ids(v: &Vec<Memory>, g: &Vec<usize>) -> (ids: Vec<String>)
    requires
        forall|k: int| 0 <= k < g@.len() ==> #[trigger] g@[k] < v@.len(),
    ensures
        string_views(ids@) == Seq::new(g@.len(), |z: int| v@[ints(g@)[z]].id@),
{
    let ghost gs = ints(g@);
    let mut ids: Vec<String> = Vec::new();
    let mut m: usize = 0;
    while m < g.len()
        invariant
            m <= g@.len(),
            gs == ints(g@),
            forall|z: int| 0 <= z < g@.len() ==> #[trigger] g@[z] < v@.len(),
            ids@.len() == m,
            forall|z: int| 0 <= z < m ==> (#[trigger] ids@[z])@ == v@[gs[z]].id@,
        decreases g.len() - m,
    {
        ids.push(v[g[m]].id.clone());
        m += 1;
    }
    proof {
        assert(string_views(ids@) =~= Seq::new(g@.len(), |z: int| v@[gs[z]].id@));
    }
    ids
}

/// The keywords of the members `g`, each kept in its first spelling and
/// dropped when its lower-cased form was seen before.
fn cluster_keywords(v: &Vec<Memory>, g: &Vec<usize>) -> (kept: Vec<String>)
    requires
        forall|k: int| 0 <= k < g@.len() ==> #[trigger] g@[k] < v@.len(),
    ensures
        string_views(kept@) == first_by_lower(member_keywords(v@, ints(g@))),
{
    let ghost gs = ints(g@);
    let mut kept: Vec<String> = Vec::new();
    let mut seen: Vec<String> = Vec::new();
    let mut m: usize = 0;
    while m < g.len()
        invariant
            m <= g@.len(),
            gs == ints(g@),
            forall|z: int| 0 <= z < g@.len() ==> #[trigger] g@[z] < v@.len(),
            string_views(kept@) == first_by_lower(member_keywords(v@, gs.take(m as int))),
            string_views(seen@) == lower_distinct(member_keywords(v@, gs.take(m as int))),
        decreases g.len() - m,
    {
        let mem = &v[g[m]];
        let ghost base = member_keywords(v@, gs.take(m as int));
        proof {
            assert(base + mem.keywords@.take(0) =~= base);
        }
        let mut j: usize = 0;
        while j < mem.keywords.len()
            invariant
                j <= mem.keywords@.len(),
                string_views(kept@) == first_by_lower(base + mem.keywords@.take(j as int)),
                string_views(seen@) == lower_distinct(base + mem.keywords@.take(j as int)),
            decreases mem.keywords.len() - j,
        {
            let ghost pre = base + mem.keywords@.take(j as int);
            proof {
                assert(base + mem.keywords@.take(j + 1) =~= pre.push(mem.keywords@[j as int]));
                assert(pre.push(mem.keywords@[j as int]).drop_last() =~= pre);
            }
            let lower = to_lowercase(mem.keywords[j].as_str());
            if !contains_text(&seen, &lower) {
                let ghost sk = string_views(kept@);
                let ghost ss = string_views(seen@);
                kept.push(mem.keywords[j].clone());
                seen.push(lower);
                proof {
                    assert(string_views(kept@) =~= sk.push(mem.keywords@[j as int]@));
                    assert(string_views(seen@) =~= ss.push(lowercase(mem.keywords@[j as int]@)));
                }
            }
            j += 1;
        }
        proof {
            assert(mem.keywords@.take(mem.keywords@.len() as int) =~= mem.keywords@);
            assert(gs.take(m + 1).drop_last() =~= gs.take(m as int));
            assert(gs.take(m + 1).last() == gs[m as int]);
        }
        m += 1;
    }
    proof {
        assert(gs.take(g@.len() as int) =~= gs);
    }
    kept
}

/// The cluster of the members `g` (ascending indices of `v`).
fn build_cluster(v: &Vec<Memory>, g: &Vec<usize>) -> (c: PatternCluster)
    requires
        g@.len() > 0,
        forall|k: int| 0 <= k < g@.len() ==> #[trigger] g@[k] < v@.len(),
        forall|a: int, b: int| 0 <= a < b < g@.len() ==> #[trigger] g@[a] < #[trigger] g@[b],
    ensures
        cluster_from(v@, ints(g@), c),
{
    let best = representative_of(v, g);
    let ids = member_ids(v, g);
    let kept = cluster_keywords(v, g);
    PatternCluster {
        representative_summary: v[best].summary.clone(),
        memory_ids: ids,
        keywords: kept,
        count: g.len(),
    }
}

/// Two strictly increasing sequences with the same elements are equal.
pub proof fn lemma_increasing_same_elements(a: Seq<int>, b: Seq<int>)
    requires
        forall|x: int, y: int| 0 <= x < y < a.len() ==> #[trigger] a[x] < #[trigger] a[y],
        forall|x: int, y: int| 0 <= x < y < b.len() ==> #[trigger] b[x] < #[trigger] b[y],
        forall|e: int| a.contains(e) <==> b.contains(e),
    ensures
        a == b,
    decreases a.len() + b.len(),
{
    if a.len() == 0 {
        if b.len() > 0 {
            assert(b.contains(b[0]));
        }
        assert(a =~= b);
    } else if b.len() == 0 {
        assert(a.contains(a[0]));
    } else {
        let x = a.last();
        let y = b.last();
        assert(a.contains(x));
        assert(b.contains(y));
        let i = choose|i: int| 0 <= i < b.len() && b[i] == x;
        let j = choose|j: int| 0 <= j < a.len() && a[j] == y;
        if i < b.len() - 1 {
            assert(b[i] < b[b.len() - 1]);
            if j < a.len() - 1 {
                assert(a[j] < a[a.len() - 1]);
            }
        }
        if j < a.len() - 1 {
            assert(a[j] < a[a.len() - 1]);
            if i < b.len() - 1 {
                assert(b[i] < b[b.len() - 1]);
            }
        }
        assert(x == y);
        let a2 = a.drop_last();
        let b2 = b.drop_last();
        assert forall|e: int| a2.contains(e) <==> b2.contains(e) by {
            if a2.contains(e) {
                let k = choose|k: int| 0 <= k < a2.len() && a2[k] == e;
                assert(a[k] < x);
                assert(b.contains(e));
                let l = choose|l: int| 0 <= l < b.len() && b[l] == e;
                assert(l != b.len() - 1);
                assert(b2[l] == e);
            }
            if b2.contains(e) {
                let k = choose|k: int| 0 <= k < b2.len() && b2[k] == e;
                assert(b[k] < y);
                assert(a.contains(e));
                let l = choose|l: int| 0 <= l < a.len() && a[l] == e;
                assert(l != a.len() - 1);
                assert(a2[l] == e);
            }
        }
        lemma_increasing_same_elements(a2, b2);
        assert(a =~= a2.push(x));
        assert(b =~= b2.push(y));
    }
}

/// A class has one ascending member list.
pub proof fn lemma_class_unique(lab: Seq<int>, r: int, g1: Seq<int>, g2: Seq<int>)
    requires
        class_of(lab, r, g1),
        class_of(lab, r, g2),
    ensures
        g1 == g2,
{
    assert forall|e: int| g1.contains(e) <==> g2.contains(e) by {
        if g1.contains(e) {
            let k = choose|k: int| 0 <= k < g1.len() && g1[k] == e;
            assert(lab[g1[k]] == r);
        }
        if g2.contains(e) {
            let k = choose|k: int| 0 <= k < g2.len() && g2[k] == e;
            assert(lab[g2[k]] == r);
        }
    }
    lemma_increasing_same_elements(g1, g2);
}

/// The clusters of `v` with at least `min` members, largest first.
#[verifier::rlimit(60)]
pub fn clusters_of(v: &Vec<Memory>, min: usize) -> (out: Vec<PatternCluster>)
    ensures
        pattern_clusters(v@, min as nat, out@),
{
    let n = v.len();
    let mut sets: Vec<Vec<String>> = Vec::new();
    let mut i: usize = 0;
    while i < n
        invariant
            i <= n == v@.len(),
            sets@.len() == i,
            forall|k: int| 0 <= k < i ==> string_views(#[trigger] sets@[k]@) == lower_distinct(v@[k].keywords@),
        decreases n - i,
    {
        sets.push(lower_distinct_exec(&v[i].keywords));
        i += 1;
    }
    let lab = label_components(&sets, Ghost(v@));
    let ghost labi = ints(lab@);
    proof {
        assert(labi =~= Seq::new(lab@.len(), |i: int| lab@[i] as int));
    }
    let mut items: Vec<(u64, (usize, PatternCluster))> = Vec::new();
    let ghost mut groups: Seq<Seq<int>> = seq![];
    let mut r: usize = 0;
    while r < n
        invariant
            r <= n == v@.len() == lab@.len(),
            labi == ints(lab@),
            component_labels(v@, labi),
            items@.len() == groups.len(),
            forall|q: int| 0 <= q < items@.len() ==> {
                let root = (#[trigger] items@[q]).1.0 as int;
                &&& root < r
                &&& labi[root] == root
                &&& class_of(labi, root, groups[q])
                &&& groups[q].len() >= min
                &&& cluster_from(v@, groups[q], items@[q].1.1)
                &&& items@[q].0 == items@[q].1.1.count
            },
            forall|a: int, b: int| 0 <= a < b < items@.len() ==> (#[trigger] items@[a]).1.0 < (#[trigger] items@[b]).1.0,
            forall|r2: int, g2: Seq<int>| 0 <= r2 < r && labi[r2] == r2 && #[trigger] class_of(labi, r2, g2) && g2.len() >= min
                ==> exists|q: int| 0 <= q < items@.len() && (#[trigger] items@[q]).1.0 == r2,
        decreases n - r,
    {
        if lab[r] == r {
            let g = class_members(&lab, r);
            proof {
                assert(labi[r as int] == r as int);
                assert(ints(g@).contains(r as int));
                assert forall|k: int| 0 <= k < g@.len() implies #[trigger] g@[k] < v@.len() by {
                    assert(ints(g@)[k] == g@[k] as int);
                }
                assert forall|a: int, b: int| 0 <= a < b < g@.len() implies #[trigger] g@[a] < #[trigger] g@[b] by {
                    assert(ints(g@)[a] == g@[a] as int && ints(g@)[b] == g@[b] as int);
                }
            }
            if g.len() >= min {
                let c = build_cluster(v, &g);
                let ghost before = items@;
                items.push((g.len() as u64, (r, c)));
                proof {
                    groups = groups.push(ints(g@));
                    assert forall|r2: int, g2: Seq<int>| 0 <= r2 < r + 1 && labi[r2] == r2 && #[trigger] class_of(labi, r2, g2) && g2.len() >= min
                        implies exists|q: int| 0 <= q < items@.len() && (#[trigger] items@[q]).1.0 == r2 by {
                        if r2 < r {
                            let q = choose|q: int| 0 <= q < before.len() && (#[trigger] before[q]).1.0 == r2;
                            assert(items@[q] == before[q]);
                        } else {
                            assert(items@[before.len() as int].1.0 == r2);
                        }
                    }
                }
            } else {
                proof {
                    assert forall|r2: int, g2: Seq<int>| 0 <= r2 < r + 1 && labi[r2] == r2 && #[trigger] class_of(labi, r2, g2) && g2.len() >= min
                        implies exists|q: int| 0 <= q < items@.len() && (#[trigger] items@[q]).1.0 == r2 by {
                        if r2 == r {
                            lemma_class_unique(labi, r2, g2, ints(g@));
                        }
                    }
                }
            }
        }
        r += 1;
    }
    let ghost unsorted = items@;
    proof {
        assert(unsorted.no_duplicates()) by {
            assert forall|a: int, b: int| 0 <= a < unsorted.len() && 0 <= b < unsorted.len() && a != b implies unsorted[a] != unsorted[b] by {
                if a < b {
                    assert(unsorted[a].1.0 < unsorted[b].1.0);
                } else {
                    assert(unsorted[b].1.0 < unsorted[a].1.0);
                }
            }
        }
        unsorted.lemma_multiset_has_no_duplicates();
    }
    let sorted = sort_by_count_desc(items);
    proof {
        unsorted.to_multiset_ensures();
        sorted@.to_multiset_ensures();
        sorted@.lemma_multiset_has_no_duplicates_conv();
    }
    let mut out: Vec<PatternCluster> = Vec::new();
    let mut p: usize = 0;
    while p < sorted.len()
        invariant
            p <= sorted@.len(),
            out@.len() == p,
            forall|z: int| 0 <= z < p ==> same_cluster(sorted@[z].1.1, #[trigger] out@[z]),
        decreases sorted.len() - p,
    {
        out.push(sorted[p].1.1.clone_cluster());
        proof {
            lemma_same_cluster(sorted@[p as int].1.1, out@[p as int]);
        }
        p += 1;
    }
    proof {
        let so = sorted@;
        let pick = |z: int| choose|q: int| 0 <= q < unsorted.len() && unsorted[q] == so[z];
        assert forall|z: int| 0 <= z < so.len() implies 0 <= #[trigger] pick(z) < unsorted.len() && unsorted[pick(z)] == so[z] by {
            assert(so.to_multiset().count(so[z]) > 0);
            assert(unsorted.contains(so[z]));
        }
        let roots2 = Seq::new(so.len(), |z: int| so[z].1.0 as int);
        let groups2 = Seq::new(so.len(), |z: int| groups[pick(z)]);
        assert(roots2.no_duplicates()) by {
            assert forall|a: int, b: int| 0 <= a < roots2.len() && 0 <= b < roots2.len() && a != b implies roots2[a] != roots2[b] by {
                let qa = pick(a);
                let qb = pick(b);
                assert(so[a] != so[b]);
                if qa != qb {
                    if qa < qb {
                        assert(unsorted[qa].1.0 < unsorted[qb].1.0);
                    } else {
                        assert(unsorted[qb].1.0 < unsorted[qa].1.0);
                    }
                }
            }
        }
        assert forall|c: int| 0 <= c < out@.len() implies {
            &&& class_of(labi, #[trigger] roots2[c], groups2[c])
            &&& groups2[c].len() >= min
            &&& cluster_from(v@, groups2[c], out@[c])
        } by {
            let q = pick(c);
            assert(unsorted[q] == so[c]);
            assert(same_cluster(so[c].1.1, out@[c]));
            lemma_same_cluster(so[c].1.1, out@[c]);
        }
        assert forall|r2: int, g2: Seq<int>| 0 <= r2 < v@.len() && labi[r2] == r2 && #[trigger] class_of(labi, r2, g2) && g2.len() >= min implies roots2.contains(r2) by {
            let q = choose|q: int| 0 <= q < unsorted.len() && (#[trigger] unsorted[q]).1.0 == r2;
            assert(unsorted.to_multiset().count(unsorted[q]) > 0);
            assert(so.contains(unsorted[q]));
            let z = choose|z: int| 0 <= z < so.len() && so[z] == unsorted[q];
            assert(roots2[z] == r2);
        }
        assert forall|a: int, b: int| 0 <= a < b < out@.len() implies (#[trigger] out@[a]).count >= (#[trigger] out@[b]).count by {
            let qa = pick(a);
            let qb = pick(b);
            assert(so[a].0 >= so[b].0);
            assert(same_cluster(so[a].1.1, out@[a]));
            assert(same_cluster(so[b].1.1, out@[b]));
        }
        lemma_pattern_clusters_intro(v@, min as nat, out@, labi, roots2, groups2);
    }
    out
}

/// The figures a cluster is described by are equal.
pub open spec fn same_cluster(a: PatternCluster, b: PatternCluster) -> bool {
    &&& a.representative_summary@ == b.representative_summary@
    &&& string_views(a.memory_ids@) == string_views(b.memory_ids@)
    &&& string_views(a.keywords@) == string_views(b.keywords@)
    &&& a.count == b.count
}

/// Equal figures describe the same members.
proof fn lemma_same_cluster(a: PatternCluster, b: PatternCluster)
    requires
        same_cluster(a, b),
    ensures
        forall|v: Seq<Memory>, g: Seq<int>| cluster_from(v, g, a) ==> #[trigger] cluster_from(v, g, b),
{
}

/// Introducing `pattern_clusters` from its witnesses.
proof fn lemma_pattern_clusters_intro(v: Seq<Memory>, min: nat, out: Seq<PatternCluster>, lab: Seq<int>, roots: Seq<int>, groups: Seq<Seq<int>>)
    requires
        component_labels(v, lab),
        roots.len() == out.len(),
        groups.len() == out.len(),
        roots.no_duplicates(),
        forall|c: int| 0 <= c < out.len() ==> {
            &&& class_of(lab, #[trigger] roots[c], groups[c])
            &&& groups[c].len() >= min
            &&& cluster_from(v, groups[c], out[c])
        },
        forall|r: int, g: Seq<int>| 0 <= r < v.len() && lab[r] == r && #[trigger] class_of(lab, r, g) && g.len() >= min ==> roots.contains(r),
        forall|a: int, b: int| 0 <= a < b < out.len() ==> (#[trigger] out[a]).count >= (#[trigger] out[b]).count,
    ensures
        pattern_clusters(v, min, out),
{
}

impl PatternCluster {
    /// A field-for-field copy.
    pub fn clone_cluster(&self) -> (c: PatternCluster)
        ensures
            same_cluster(*self, c),
    {
        let c = PatternCluster {
            representative_summary: self.representative_summary.clone(),
            memory_ids: copy_strings(&self.memory_ids),
            keywords: copy_strings(&self.keywords),
            count: self.count,
        };
        c
    }
}

impl MemoryTable {
    /// Recurring patterns in `topic`: its (up to 500) heaviest memories
    /// grouped into the connected clusters of the keyword-similarity graph
    /// (Jaccard similarity of lower-cased keyword sets above one half);
    /// clusters of fewer than `min_cluster_size` members are dropped, the
    /// rest come largest first. Fewer memories than `min_cluster_size`
    /// give no cluster.
    pub fn detect_patterns(&self, topic: &str, min_cluster_size: usize) -> (r: IcmResult<Vec<PatternCluster>>)
        ensures
            r matches Ok(out) && exists|v: Seq<Memory>| {
                &&& #[trigger] heaviest_of_topic(self.rows@, topic@, v)
                &&& v.len() < min_cluster_size ==> out@.len() == 0
                &&& v.len() >= min_cluster_size ==> pattern_clusters(v, min_cluster_size as nat, out@)
            },
    {
        let v = match self.get_by_topic(topic) {
            Ok(v) => v,
            Err(e) => {
                return Err(e);
            },
        };
        proof {
            assert(heaviest_of_topic(self.rows@, topic@, v@));
        }
        if v.len() < min_cluster_size {
            return Ok(Vec::new());
        }
        let out = clusters_of(&v, min_cluster_size);
        proof {
            assert(pattern_clusters(v@, min_cluster_size as nat, out@));
        }
        Ok(out)
    }
}

} // verus!
