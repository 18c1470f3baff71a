//! The in-process cache of hot memories: an `lru::LruCache` keyed by id,
//! kept coherent with the memories table (every cached memory is the row
//! holding its id).
use vstd::prelude::*;
use crate::memory::{memories_wf, memory_with_id};
use crate::model::{Memory, MemoryView};
use crate::patterns::texts;

verus! {

/// Most memories the cache holds.
pub const MEMORY_CACHE_CAP: usize = 256;

#[verifier::external_type_specification]
#[verifier::external_body]
#[verifier::reject_recursive_types(K)]
#[verifier::reject_recursive_types(V)]
#[verifier::reject_recursive_types(S)]
pub struct ExLruCache<K, V, S>(lru::LruCache<K, V, S>);

#[verifier::external_type_specification]
#[verifier::external_body]
pub struct ExLruHasher(lru::DefaultHasher);

/// What an LRU cache of memories holds: each cached id with the value of
/// its memory, least recently used first.
pub uninterp spec fn lru_entries(c: lru::LruCache<String, Memory>) -> Seq<(Seq<char>, MemoryView)>;

/// The most entries an LRU cache of memories holds: the capacity it was
/// made with.
pub uninterp spec fn cache_cap(c: lru::LruCache<String, Memory>) -> nat;

/// No id is held twice.
pub open spec fn keys_unique(e: Seq<(Seq<char>, MemoryView)>) -> bool {
    forall|i: int, j: int| 0 <= i < e.len() && 0 <= j < e.len() && i != j ==> (#[trigger] e[i]).0 != (#[trigger] e[j]).0
}

/// Some entry holds id `k`.
pub open spec fn holds_key(e: Seq<(Seq<char>, MemoryView)>, k: Seq<char>) -> bool {
    exists|i: int| 0 <= i < e.len() && (#[trigger] e[i]).0 == k
}

/// The entries as a map from id to memory.
pub closed spec fn entries_map(e: Seq<(Seq<char>, MemoryView)>) -> Map<Seq<char>, MemoryView> {
    Map::new(|k: Seq<char>| holds_key(e, k), |k: Seq<char>| e[choose|i: int| 0 <= i < e.len() && (#[trigger] e[i]).0 == k].1)
}

/// What the cache holds, by id.
pub open spec fn cached(c: lru::LruCache<String, Memory>) -> Map<Seq<char>, MemoryView> {
    entries_map(lru_entries(c))
}

/// The cache holds finitely many entries, at most its capacity.
pub open spec fn within_cap(c: lru::LruCache<String, Memory>) -> bool {
    cached(c).dom().finite() && cached(c).dom().len() <= cache_cap(c)
}

/// The cache holds each id once and no more entries than its capacity.
pub open spec fn entries_ok(c: lru::LruCache<String, Memory>) -> bool {
    keys_unique(lru_entries(c)) && lru_entries(c).len() <= cache_cap(c)
}

/// What `get` does to the entries: a held id moves to the most recently
/// used end, with its value answered.
pub open spec fn get_effect(before: Seq<(Seq<char>, MemoryView)>, after: Seq<(Seq<char>, MemoryView)>, id: Seq<char>, r: Option<MemoryView>) -> bool {
    match r {
        Some(v) => exists|i: int| 0 <= i < before.len() && (#[trigger] before[i]).0 == id && before[i].1 == v
            && after == before.remove(i).push(before[i]),
        None => !holds_key(before, id) && after == before,
    }
}

/// What `put` does to the entries: `id` holds `v` at the most recently
/// used end; a held id leaves its old place; otherwise, when the cache is
/// full, the least recently used entry leaves.
pub open spec fn put_effect(before: Seq<(Seq<char>, MemoryView)>, after: Seq<(Seq<char>, MemoryView)>, cap: nat, id: Seq<char>, v: MemoryView) -> bool {
    &&& holds_key(before, id) ==> exists|i: int| 0 <= i < before.len() && (#[trigger] before[i]).0 == id
        && after == before.remove(i).push((id, v))
    &&& !holds_key(before, id) && before.len() < cap ==> after == before.push((id, v))
    &&& !holds_key(before, id) && before.len() >= cap ==> after == before.drop_first().push((id, v))
}

/// `lru::LruCache::new`: an empty cache holding at most `cap` entries.
#[verifier::external_body]
fn lru_new(cap: usize) -> (c: lru::LruCache<String, Memory>)
    requires
        cap > 0,
    ensures
        lru_entries(c) == Seq::<(Seq<char>, MemoryView)>::empty(),
        cache_cap(c) == cap,
{
    lru::LruCache::new(std::num::NonZeroUsize::new(cap).unwrap())
}

/// `lru::LruCache::get`, the value cloned: the entry of `id` if there is
/// one, which becomes the most recently used.
#[verifier::external_body]
fn lru_get(c: &mut lru::LruCache<String, Memory>, id: &str) -> (r: Option<Memory>)
    ensures
        get_effect(lru_entries(*old(c)), lru_entries(*final(c)), id@, match r { Some(m) => Some(m@), None => None }),
        cache_cap(*final(c)) == cache_cap(*old(c)),
        entries_ok(*final(c)),
{
    c.get(id).cloned()
}

/// `lru::LruCache::put`: `id` now holds `m` as the most recently used
/// entry. An entry leaves only when `id` was not held and the cache was
/// full: then the least recently used one does.
#[verifier::external_body]
fn lru_put(c: &mut lru::LruCache<String, Memory>, id: String, m: Memory)
    ensures
        put_effect(lru_entries(*old(c)), lru_entries(*final(c)), cache_cap(*old(c)), id@, m@),
        cache_cap(*final(c)) == cache_cap(*old(c)),
        entries_ok(*final(c)),
{
    c.put(id, m);
}

/// `lru::LruCache::pop`: the entry of `id`, if any, leaves.
#[verifier::external_body]
fn lru_pop(c: &mut lru::LruCache<String, Memory>, id: &str)
    ensures
        holds_key(lru_entries(*old(c)), id@) ==> exists|i: int| 0 <= i < lru_entries(*old(c)).len()
            && (#[trigger] lru_entries(*old(c))[i]).0 == id@ && lru_entries(*final(c)) == lru_entries(*old(c)).remove(i),
        !holds_key(lru_entries(*old(c)), id@) ==> lru_entries(*final(c)) == lru_entries(*old(c)),
        cache_cap(*final(c)) == cache_cap(*old(c)),
        entries_ok(*final(c)),
{
    c.pop(id);
}

/// `lru::LruCache::clear`: every entry leaves.
#[verifier::external_body]
fn lru_clear(c: &mut lru::LruCache<String, Memory>)
    ensures
        lru_entries(*final(c)) == Seq::<(Seq<char>, MemoryView)>::empty(),
        cache_cap(*final(c)) == cache_cap(*old(c)),
{
    c.clear();
}

/// An entry is found in the map under its id.
proof fn lemma_lookup(e: Seq<(Seq<char>, MemoryView)>, i: int)
    requires
        keys_unique(e),
        0 <= i < e.len(),
    ensures
        entries_map(e).contains_key(e[i].0),
        entries_map(e)[e[i].0] == e[i].1,
{
    let k = e[i].0;
    assert(holds_key(e, k));
    let c = choose|c: int| 0 <= c < e.len() && (#[trigger] e[c]).0 == k;
    assert(0 <= c < e.len() && e[c].0 == k);
    if c != i {
        assert(e[c].0 != e[i].0);
    }
}

/// The ids held, with the value of each.
proof fn lemma_map_of(e: Seq<(Seq<char>, MemoryView)>)
    requires
        keys_unique(e),
    ensures
        forall|k: Seq<char>| #[trigger] entries_map(e).contains_key(k) <==> holds_key(e, k),
        forall|i: int| 0 <= i < e.len() ==> #[trigger] entries_map(e)[e[i].0] == e[i].1,
        entries_map(e).dom().finite(),
        entries_map(e).dom().len() == e.len(),
{
    assert forall|i: int| 0 <= i < e.len() implies #[trigger] entries_map(e)[e[i].0] == e[i].1 by {
        lemma_lookup(e, i);
    }
    let ks = Seq::new(e.len(), |i: int| e[i].0);
    assert(ks.no_duplicates()) by {
        assert forall|i: int, j: int| 0 <= i < ks.len() && 0 <= j < ks.len() && i != j implies ks[i] != ks[j] by {
            assert(e[i].0 != e[j].0);
        }
    }
    ks.unique_seq_to_set();
    assert forall|k: Seq<char>| #[trigger] entries_map(e).dom().contains(k) <==> ks.to_set().contains(k) by {
        if holds_key(e, k) {
            let i = choose|i: int| 0 <= i < e.len() && (#[trigger] e[i]).0 == k;
            assert(ks[i] == k);
        }
        if ks.to_set().contains(k) {
            let i = choose|i: int| 0 <= i < ks.len() && ks[i] == k;
            assert(e[i].0 == k);
        }
    }
    assert(entries_map(e).dom() =~= ks.to_set());
}

/// Appending an id not held adds it to the map.
proof fn lemma_map_push(e: Seq<(Seq<char>, MemoryView)>, k: Seq<char>, v: MemoryView)
    requires
        keys_unique(e),
        !holds_key(e, k),
    ensures
        keys_unique(e.push((k, v))),
        entries_map(e.push((k, v))) == entries_map(e).insert(k, v),
{
    let f = e.push((k, v));
    assert forall|i: int, j: int| 0 <= i < f.len() && 0 <= j < f.len() && i != j implies (#[trigger] f[i]).0 != (#[trigger] f[j]).0 by {
        if i < e.len() && j < e.len() {
            assert(f[i] == e[i] && f[j] == e[j]);
        } else if i < e.len() {
            assert(f[i] == e[i]);
        } else {
            assert(f[j] == e[j]);
        }
    }
    lemma_map_of(e);
    lemma_map_of(f);
    assert forall|x: Seq<char>| #[trigger] holds_key(f, x) <==> (holds_key(e, x) || x == k) by {
        if holds_key(e, x) {
            let i = choose|i: int| 0 <= i < e.len() && (#[trigger] e[i]).0 == x;
            assert(f[i] == e[i]);
        }
        if x == k {
            assert(f[e.len() as int].0 == k);
        }
        if holds_key(f, x) {
            let i = choose|i: int| 0 <= i < f.len() && (#[trigger] f[i]).0 == x;
            if i < e.len() {
                assert(f[i] == e[i]);
            }
        }
    }
    assert forall|x: Seq<char>| #[trigger] entries_map(f).contains_key(x) implies entries_map(f)[x] == entries_map(e).insert(k, v)[x] by {
        let i = choose|i: int| 0 <= i < f.len() && (#[trigger] f[i]).0 == x;
        if i < e.len() {
            assert(f[i] == e[i]);
        }
    }
    assert(entries_map(f) =~= entries_map(e).insert(k, v));
}

/// Removing an entry removes its id from the map.
proof fn lemma_map_remove(e: Seq<(Seq<char>, MemoryView)>, i: int)
    requires
        keys_unique(e),
        0 <= i < e.len(),
    ensures
        keys_unique(e.remove(i)),
        entries_map(e.remove(i)) == entries_map(e).remove(e[i].0),
{
    let f = e.remove(i);
    assert forall|a: int| 0 <= a < f.len() implies #[trigger] f[a] == if a < i { e[a] } else { e[a + 1] } by {}
    assert forall|a: int, b: int| 0 <= a < f.len() && 0 <= b < f.len() && a != b implies (#[trigger] f[a]).0 != (#[trigger] f[b]).0 by {
        let a2 = if a < i { a } else { a + 1 };
        let b2 = if b < i { b } else { b + 1 };
        assert(f[a] == e[a2] && f[b] == e[b2]);
    }
    lemma_map_of(e);
    lemma_map_of(f);
    assert forall|x: Seq<char>| #[trigger] holds_key(f, x) <==> (holds_key(e, x) && x != e[i].0) by {
        if holds_key(f, x) {
            let a = choose|a: int| 0 <= a < f.len() && (#[trigger] f[a]).0 == x;
            let a2 = if a < i { a } else { a + 1 };
            assert(f[a] == e[a2]);
        }
        if holds_key(e, x) && x != e[i].0 {
            let a = choose|a: int| 0 <= a < e.len() && (#[trigger] e[a]).0 == x;
            if a < i {
                assert(f[a] == e[a]);
            } else {
                assert(a != i);
                assert(f[a - 1] == e[a]);
            }
        }
    }
    assert forall|x: Seq<char>| #[trigger] entries_map(f).contains_key(x) implies entries_map(f)[x] == entries_map(e)[x] by {
        let a = choose|a: int| 0 <= a < f.len() && (#[trigger] f[a]).0 == x;
        let a2 = if a < i { a } else { a + 1 };
        assert(f[a] == e[a2]);
    }
    assert(entries_map(f) =~= entries_map(e).remove(e[i].0));
}

/// Every cached memory is the row holding its id.
pub open spec fn coherent(c: Map<Seq<char>, MemoryView>, rows: Seq<Memory>) -> bool {
    forall|k: Seq<char>| #[trigger] c.contains_key(k) ==> memory_with_id(rows, k) == Some(c[k])
}

/// A cache stays coherent when the rows change only where their id is in
/// `gone`, or grow, and the entries of `gone` leave the cache.
pub proof fn lemma_coherent_after(c: Map<Seq<char>, MemoryView>, before: Seq<Memory>, hb: Seq<String>, after: Seq<Memory>, ha: Seq<String>, gone: Seq<Seq<char>>)
    requires
        memories_wf(before, hb),
        memories_wf(after, ha),
        coherent(c, before),
        before.len() <= after.len(),
        forall|i: int| 0 <= i < before.len() && !gone.contains(#[trigger] before[i].id@) ==> after[i]@ == before[i]@,
    ensures
        coherent(c.remove_keys(gone.to_set()), after),
{
    let d = c.remove_keys(gone.to_set());
    assert forall|k: Seq<char>| #[trigger] d.contains_key(k) implies memory_with_id(after, k) == Some(d[k]) by {
        assert(c.contains_key(k) && !gone.contains(k));
        assert(memory_with_id(before, k) == Some(c[k]));
        let i = choose|i: int| 0 <= i < before.len() && (#[trigger] before[i]).id@ == k;
        crate::memory::lemma_memory_with_id_at(before, hb, i);
        assert(after[i]@ == before[i]@);
        crate::memory::lemma_memory_with_id_at(after, ha, i);
    }
}

/// A well-kept cache holds within its capacity.
proof fn lemma_within_cap(c: lru::LruCache<String, Memory>)
    requires
        entries_ok(c),
    ensures
        within_cap(c),
        forall|k: Seq<char>| #[trigger] cached(c).contains_key(k) <==> holds_key(lru_entries(c), k),
        forall|i: int| 0 <= i < lru_entries(c).len() ==> #[trigger] cached(c)[lru_entries(c)[i].0] == lru_entries(c)[i].1,
        cached(c).dom().len() == lru_entries(c).len(),
{
    lemma_map_of(lru_entries(c));
}

/// A new, empty cache.
pub fn new_cache() -> (c: lru::LruCache<String, Memory>)
    ensures
        cached(c).dom() == Set::<Seq<char>>::empty(),
        cache_cap(c) == MEMORY_CACHE_CAP,
        entries_ok(c),
        lru_entries(c).len() == 0,
{
    let c = lru_new(MEMORY_CACHE_CAP);
    proof {
        lemma_map_of(lru_entries(c));
        assert(cached(c).dom() =~= Set::<Seq<char>>::empty());
    }
    c
}

/// The cached memory `id`, if cached; it becomes the most recently used.
pub fn cache_get(c: &mut lru::LruCache<String, Memory>, id: &str) -> (r: Option<Memory>)
    requires
        entries_ok(*old(c)),
    ensures
        cached(*final(c)) == cached(*old(c)),
        cache_cap(*final(c)) == cache_cap(*old(c)),
        within_cap(*final(c)),
        entries_ok(*final(c)),
        get_effect(lru_entries(*old(c)), lru_entries(*final(c)), id@, match r { Some(m) => Some(m@), None => None }),
        match r {
            Some(m) => cached(*old(c)).contains_key(id@) && cached(*old(c))[id@] == m@,
            None => !cached(*old(c)).contains_key(id@),
        },
{
    let ghost e = lru_entries(*c);
    let r = lru_get(c, id);
    proof {
        lemma_within_cap(*old(c));
        lemma_within_cap(*c);
        if r is Some {
            let mv = r->0@;
            {
                let i = choose|i: int| 0 <= i < e.len() && (#[trigger] e[i]).0 == id@ && e[i].1 == mv
                    && lru_entries(*c) == e.remove(i).push(e[i]);
                lemma_map_remove(e, i);
                lemma_map_push(e.remove(i), e[i].0, e[i].1);
                assert(entries_map(e).remove(e[i].0).insert(e[i].0, e[i].1) =~= entries_map(e));
            }
        }
    }
    r
}

/// Cache memory `m` under its id, as the most recently used entry.
/// Nothing else leaves unless the cache was full without it; then the
/// least recently used entry does.
pub fn cache_put(c: &mut lru::LruCache<String, Memory>, m: &Memory)
    requires
        entries_ok(*old(c)),
    ensures
        cached(*final(c)).contains_key(m.id@),
        cached(*final(c))[m.id@] == m@,
        forall|k: Seq<char>| #[trigger] cached(*final(c)).contains_key(k) && k != m.id@ ==> cached(*old(c)).contains_key(k)
            && cached(*final(c))[k] == cached(*old(c))[k],
        cache_cap(*final(c)) == cache_cap(*old(c)),
        within_cap(*final(c)),
        entries_ok(*final(c)),
        put_effect(lru_entries(*old(c)), lru_entries(*final(c)), cache_cap(*old(c)), m.id@, m@),
        within_cap(*old(c)) && (cached(*old(c)).contains_key(m.id@) || cached(*old(c)).dom().len() < cache_cap(*old(c)))
            ==> forall|k: Seq<char>| #[trigger] cached(*old(c)).contains_key(k) ==> cached(*final(c)).contains_key(k),
{
    let ghost e = lru_entries(*c);
    let copy = m.copy();
    lru_put(c, m.id.clone(), copy);
    proof {
        let f = lru_entries(*c);
        let k = m.id@;
        lemma_within_cap(*old(c));
        lemma_within_cap(*c);
        let old_map = entries_map(e);
        if holds_key(e, k) {
            let i = choose|i: int| 0 <= i < e.len() && (#[trigger] e[i]).0 == k && f == e.remove(i).push((k, m@));
            lemma_map_remove(e, i);
            lemma_map_push(e.remove(i), k, m@);
            assert(entries_map(f) == old_map.remove(k).insert(k, m@));
        } else if e.len() < cache_cap(*old(c)) {
            lemma_map_push(e, k, m@);
            assert(entries_map(f) == old_map.insert(k, m@));
        } else {
            assert(e.len() > 0);
            assert(e.drop_first() =~= e.remove(0));
            lemma_map_remove(e, 0);
            assert(!holds_key(e.remove(0), k)) by {
                if holds_key(e.remove(0), k) {
                    let j = choose|j: int| 0 <= j < e.remove(0).len() && (#[trigger] e.remove(0)[j]).0 == k;
                    assert(e.remove(0)[j] == e[j + 1]);
                }
            }
            lemma_map_push(e.remove(0), k, m@);
            assert(entries_map(f) == old_map.remove(e[0].0).insert(k, m@));
        }
    }
}

/// Drop memory `id` from the cache.
pub fn cache_invalidate(c: &mut lru::LruCache<String, Memory>, id: &str)
    requires
        entries_ok(*old(c)),
    ensures
        cached(*final(c)) == cached(*old(c)).remove_keys(seq![id@].to_set()),
        cache_cap(*final(c)) == cache_cap(*old(c)),
        within_cap(*final(c)),
        entries_ok(*final(c)),
{
    let ghost e = lru_entries(*c);
    lru_pop(c, id);
    proof {
        lemma_within_cap(*old(c));
        lemma_within_cap(*c);
        let one = seq![id@];
        assert forall|k: Seq<char>| one.to_set().contains(k) <==> k == id@ by {
            if k == id@ {
                assert(one[0] == k);
            }
        }
        if holds_key(e, id@) {
            let i = choose|i: int| 0 <= i < e.len() && (#[trigger] e[i]).0 == id@ && lru_entries(*c) == e.remove(i);
            lemma_map_remove(e, i);
        } else {
            assert(entries_map(e).remove(id@) =~= entries_map(e));
        }
        assert(cached(*old(c)).remove(id@) =~= cached(*old(c)).remove_keys(one.to_set()));
    }
}

/// Drop every memory named in `ids` from the cache.
pub fn cache_invalidate_many(c: &mut lru::LruCache<String, Memory>, ids: &[&str])
    requires
        entries_ok(*old(c)),
    ensures
        cached(*final(c)) == cached(*old(c)).remove_keys(texts(ids@).to_set()),
        cache_cap(*final(c)) == cache_cap(*old(c)),
        within_cap(*final(c)),
        entries_ok(*final(c)),
{
    let ghost start = cached(*c);
    proof {
        lemma_within_cap(*c);
        assert(texts(ids@).take(0).to_set() =~= Set::<Seq<char>>::empty());
        assert(start.remove_keys(Set::<Seq<char>>::empty()) =~= start);
    }
    let mut i: usize = 0;
    while i < ids.len()
        invariant
            i <= ids@.len(),
            cached(*c) == start.remove_keys(texts(ids@).take(i as int).to_set()),
            cache_cap(*c) == cache_cap(*old(c)),
            within_cap(*c),
            entries_ok(*c),
        decreases ids.len() - i,
    {
        cache_invalidate(c, ids[i]);
        proof {
            let t0 = texts(ids@).take(i as int);
            let t1 = texts(ids@).take(i + 1);
            let x = ids@[i as int]@;
            let one = seq![x];
            assert(t1 =~= t0.push(x));
            assert forall|k: Seq<char>| t1.to_set().contains(k) <==> (t0.to_set().contains(k) || k == x) by {
                if t0.contains(k) {
                    let j = choose|j: int| 0 <= j < t0.len() && t0[j] == k;
                    assert(t1[j] == k);
                }
                if k == x {
                    assert(t1[i as int] == k);
                }
                if t1.contains(k) {
                    let j = choose|j: int| 0 <= j < t1.len() && t1[j] == k;
                    if j < i {
                        assert(t0[j] == k);
                    }
                }
            }
            assert forall|k: Seq<char>| one.to_set().contains(k) <==> k == x by {
                if k == x {
                    assert(one[0] == k);
                }
            }
            assert(start.remove_keys(t0.to_set()).remove_keys(one.to_set()) =~= start.remove_keys(t1.to_set()));
        }
        i += 1;
    }
    proof {
        assert(texts(ids@).take(ids@.len() as int) =~= texts(ids@));
    }
}

/// Empty the cache.
pub fn cache_clear(c: &mut lru::LruCache<String, Memory>)
    ensures
        cached(*final(c)).dom() == Set::<Seq<char>>::empty(),
        cache_cap(*final(c)) == cache_cap(*old(c)),
        within_cap(*final(c)),
        entries_ok(*final(c)),
{
    lru_clear(c);
    proof {
        lemma_map_of(lru_entries(*c));
        assert(cached(*c).dom() =~= Set::<Seq<char>>::empty());
    }
}

/// One cache operation, as the entries see it: putting `value` under
/// `id`, or getting `id`.
pub ghost enum CacheOp {
    Put { id: Seq<char>, value: MemoryView },
    Get { id: Seq<char> },
}

/// What operation `op` does to the entries of a cache of capacity `cap`.
pub open spec fn op_effect(before: Seq<(Seq<char>, MemoryView)>, after: Seq<(Seq<char>, MemoryView)>, cap: nat, op: CacheOp) -> bool {
    match op {
        CacheOp::Put { id, value } => put_effect(before, after, cap, id, value),
        CacheOp::Get { id } => exists|r: Option<MemoryView>| get_effect(before, after, id, r),
    }
}

/// `es` are the entries before and after each of the operations `ops`.
pub open spec fn cache_run(es: Seq<Seq<(Seq<char>, MemoryView)>>, ops: Seq<CacheOp>, cap: nat) -> bool {
    &&& es.len() == ops.len() + 1
    &&& forall|i: int| 0 <= i < ops.len() ==> op_effect(es[i], es[i + 1], cap, #[trigger] ops[i])
}

/// After the first `n` operations of a run that starts by putting `v`
/// under `id` and never puts `id` again, `(id, v)` stands at most `n - 1`
/// places from the most recently used end.
proof fn lemma_recent_entry(es: Seq<Seq<(Seq<char>, MemoryView)>>, ops: Seq<CacheOp>, cap: nat, id: Seq<char>, v: MemoryView) -> (p: int)
    requires
        cache_run(es, ops, cap),
        ops.len() >= 1,
        ops.len() <= cap,
        ops[0] == (CacheOp::Put { id, value: v }),
        forall|i: int| 1 <= i < ops.len() ==> !(#[trigger] ops[i] matches CacheOp::Put { id: k, .. } && k == id),
        keys_unique(es[0]),
        es[0].len() <= cap,
    ensures
        keys_unique(es.last()),
        es.last().len() <= cap,
        0 <= p < es.last().len(),
        es.last()[p] == (id, v),
        es.last().len() - 1 - p <= ops.len() - 1,
    decreases ops.len(),
{
    let n = ops.len() - 1;
    let before = if n == 0 { es[0] } else { es[n] };
    let after = es[n + 1];
    let mut q: int = 0;
    if n > 0 {
        let es0 = es.take(n + 1);
        let ops0 = ops.take(n);
        assert forall|i: int| 0 <= i < ops0.len() implies op_effect(es0[i], es0[i + 1], cap, #[trigger] ops0[i]) by {
            assert(ops0[i] == ops[i] && es0[i] == es[i] && es0[i + 1] == es[i + 1]);
        }
        assert forall|i: int| 1 <= i < ops0.len() implies !(#[trigger] ops0[i] matches CacheOp::Put { id: k, .. } && k == id) by {
            assert(ops0[i] == ops[i]);
        }
        q = lemma_recent_entry(es0, ops0, cap, id, v);
        assert(es0.last() == before);
    }
    assert(op_effect(before, after, cap, ops[n]));
    match ops[n] {
        CacheOp::Put { id: k, value: w } => {
            if holds_key(before, k) {
                let j = choose|j: int| 0 <= j < before.len() && (#[trigger] before[j]).0 == k && after == before.remove(j).push((k, w));
                lemma_map_remove(before, j);
                if n > 0 {
                    assert(j != q);
                    assert(before[j].0 != id);
                }
                assert(!holds_key(before.remove(j), k)) by {
                    if holds_key(before.remove(j), k) {
                        let a = choose|a: int| 0 <= a < before.remove(j).len() && (#[trigger] before.remove(j)[a]).0 == k;
                        let a2 = if a < j { a } else { a + 1 };
                        assert(before.remove(j)[a] == before[a2]);
                    }
                }
                lemma_map_push(before.remove(j), k, w);
                if n == 0 {
                    return after.len() - 1;
                } else if j < q {
                    assert(after[q - 1] == before[q]);
                    return q - 1;
                } else {
                    assert(after[q] == before[q]);
                    return q;
                }
            } else if before.len() < cap {
                lemma_map_push(before, k, w);
                if n == 0 {
                    return after.len() - 1;
                } else {
                    assert(after[q] == before[q]);
                    return q;
                }
            } else {
                assert(before.drop_first() =~= before.remove(0));
                lemma_map_remove(before, 0);
                assert(!holds_key(before.remove(0), k)) by {
                    if holds_key(before.remove(0), k) {
                        let a = choose|a: int| 0 <= a < before.remove(0).len() && (#[trigger] before.remove(0)[a]).0 == k;
                        assert(before.remove(0)[a] == before[a + 1]);
                    }
                }
                lemma_map_push(before.remove(0), k, w);
                if n == 0 {
                    return after.len() - 1;
                } else {
                    assert(q >= 1);
                    assert(after[q - 1] == before[q]);
                    return q - 1;
                }
            }
        },
        CacheOp::Get { id: k } => {
            let r = choose|r: Option<MemoryView>| get_effect(before, after, k, r);
            assert(n > 0);
            if r is Some {
                let j = choose|j: int| 0 <= j < before.len() && (#[trigger] before[j]).0 == k && before[j].1 == r->0
                    && after == before.remove(j).push(before[j]);
                lemma_map_remove(before, j);
                assert(!holds_key(before.remove(j), before[j].0)) by {
                    if holds_key(before.remove(j), before[j].0) {
                        let a = choose|a: int| 0 <= a < before.remove(j).len() && (#[trigger] before.remove(j)[a]).0 == before[j].0;
                        let a2 = if a < j { a } else { a + 1 };
                        assert(before.remove(j)[a] == before[a2]);
                    }
                }
                lemma_map_push(before.remove(j), before[j].0, before[j].1);
                if j == q {
                    return after.len() - 1;
                } else if j < q {
                    assert(after[q - 1] == before[q]);
                    return q - 1;
                } else {
                    assert(after[q] == before[q]);
                    return q;
                }
            } else {
                return q;
            }
        },
    }
}

/// A memory just put stays cached, with the value put, through fewer
/// than `cap` further operations on the cache (puts of other ids, or gets
/// of any id): least recently used entries leave first, and it cannot
/// become the least recently used one sooner.
pub proof fn law_put_memory_stays_cached(es: Seq<Seq<(Seq<char>, MemoryView)>>, ops: Seq<CacheOp>, cap: nat, id: Seq<char>, v: MemoryView)
    requires
        cache_run(es, ops, cap),
        1 <= ops.len() <= cap,
        ops[0] == (CacheOp::Put { id, value: v }),
        forall|i: int| 1 <= i < ops.len() ==> !(#[trigger] ops[i] matches CacheOp::Put { id: k, .. } && k == id),
        keys_unique(es[0]),
        es[0].len() <= cap,
    ensures
        entries_map(es.last()).contains_key(id),
        entries_map(es.last())[id] == v,
{
    let p = lemma_recent_entry(es, ops, cap, id, v);
    lemma_lookup(es.last(), p);
}

} // verus!
