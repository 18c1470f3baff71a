//! Counting how often each distinct text occurs.
use vstd::prelude::*;
use crate::facts::lemma_filter_step;
use crate::order::{sort_by_count_desc, sorted_by_count_desc};

verus! {

broadcast use vstd::seq_lib::group_seq_properties;

/// Number of occurrences of `x` in `ks`.
pub open spec fn occurrences(ks: Seq<Seq<char>>, x: Seq<char>) -> nat {
    ks.filter(|k: Seq<char>| k == x).len()
}

/// The names of `(count, name)` entries.
pub open spec fn tally_names(g: Seq<(u64, String)>) -> Seq<Seq<char>> {
    Seq::new(g.len(), |i: int| g[i].1@)
}

/// `g` counts `ks`: one entry per distinct text, with its number of
/// occurrences.
pub open spec fn tallies(ks: Seq<Seq<char>>, g: Seq<(u64, String)>) -> bool {
    &&& tally_names(g).no_duplicates()
    &&& tally_names(g).to_set() == ks.to_set()
    &&& forall|k: int| 0 <= k < g.len() ==> (#[trigger] g[k]).0 == occurrences(ks, g[k].1@)
}

/// The texts of a vector of strings.
pub open spec fn text_views(v: Seq<String>) -> Seq<Seq<char>> {
    Seq::new(v.len(), |i: int| v[i]@)
}

/// Count how often each distinct text of `keys` occurs, most frequent
/// first.
pub fn tally(keys: &Vec<String>) -> (g: Vec<(u64, String)>)
    ensures
        tallies(text_views(keys@), g@),
        sorted_by_count_desc(g@),
{
    let ghost ks = text_views(keys@);
    let mut groups: Vec<(u64, String)> = Vec::new();
    let mut i: usize = 0;
    proof {
        assert(ks.take(0).to_set() =~= Set::<Seq<char>>::empty());
        assert(tally_names(groups@).to_set() =~= Set::<Seq<char>>::empty());
    }
    while i < keys.len()
        invariant
            i <= keys@.len(),
            ks == text_views(keys@),
            tallies(ks.take(i as int), groups@),
            groups@.len() <= i,
        decreases keys.len() - i,
    {
        let key = &keys[i];
        let ghost t0 = ks.take(i as int);
        let ghost t1 = ks.take(i + 1);
        proof {
            assert(t1 == t0.push(key@));
            assert forall|x: Seq<char>| occurrences(t1, x) == occurrences(t0, x) + if x == key@ { 1int } else { 0int } by {
                lemma_filter_step(ks, i as int, |k: Seq<char>| k == x);
            }
        }
        let mut g: usize = 0;
        let mut found = false;
        while g < groups.len()
            invariant
                g <= groups.len(),
                !found ==> forall|h: int| 0 <= h < g ==> (#[trigger] groups@[h]).1@ != key@,
                found ==> g < groups.len() && groups@[g as int].1@ == key@,
            ensures
                found ==> g < groups.len() && groups@[g as int].1@ == key@,
                !found ==> forall|h: int| 0 <= h < groups.len() ==> (#[trigger] groups@[h]).1@ != key@,
            decreases groups.len() - g + if found { 0int } else { 1int },
        {
            if groups[g].1 == *key {
                found = true;
                break;
            }
            g += 1;
        }
        let ghost before = groups@;
        if found {
            let c = groups[g].0;
            let name = groups[g].1.clone();
            proof {
                t1.lemma_filter_len(|k: Seq<char>| k == key@);
                assert(occurrences(t1, key@) <= i + 1);
            }
            groups.set(g, (c + 1, name));
            proof {
                assert(tally_names(groups@) =~= tally_names(before));
                assert(tally_names(before)[g as int] == key@);
                assert(t0.to_set().contains(key@));
                assert(t1.to_set() =~= t0.to_set().insert(key@));
                assert(t1.to_set() =~= t0.to_set());
                assert(tally_names(groups@).to_set() == t1.to_set());
                assert forall|h: int| 0 <= h < groups@.len() implies (#[trigger] groups@[h]).0 == occurrences(t1, groups@[h].1@) by {
                    if h != g {
                        assert(groups@[h] == before[h]);
                        assert(tally_names(before)[h] != tally_names(before)[g as int]);
                    }
                }
            }
        } else {
            proof {
                assert(groups@.len() < u64::MAX);
            }
            groups.push((1, key.clone()));
            proof {
                assert(tally_names(groups@) =~= tally_names(before).push(key@));
                assert(!tally_names(before).contains(key@)) by {
                    if tally_names(before).contains(key@) {
                        let h = choose|h: int| 0 <= h < tally_names(before).len() && tally_names(before)[h] == key@;
                        assert(before[h].1@ == key@);
                    }
                }
                assert(t1.to_set() =~= t0.to_set().insert(key@));
                assert(tally_names(groups@).to_set() =~= tally_names(before).to_set().insert(key@));
                assert(occurrences(t0, key@) == 0) by {
                    if occurrences(t0, key@) > 0 {
                        let f = |k: Seq<char>| k == key@;
                        t0.lemma_filter_pred(f, 0);
                        assert(t0.filter(f).contains(t0.filter(f)[0]));
                        t0.lemma_filter_contains_rev(f, t0.filter(f)[0]);
                        assert(t0.to_set().contains(key@));
                        assert(tally_names(before).to_set().contains(key@));
                    }
                }
                assert forall|h: int| 0 <= h < groups@.len() implies (#[trigger] groups@[h]).0 == occurrences(t1, groups@[h].1@) by {
                    if h < before.len() {
                        assert(groups@[h] == before[h]);
                        assert(before[h].1@ != key@);
                    }
                }
            }
        }
        i += 1;
    }
    proof {
        assert(ks.take(ks.len() as int) =~= ks);
    }
    let ghost unsorted = groups@;
    proof {
        assert(unsorted.no_duplicates()) by {
            assert forall|a: int, b: int| 0 <= a < unsorted.len() && 0 <= b < unsorted.len() && a != b implies unsorted[a] != unsorted[b] by {
                assert(tally_names(unsorted)[a] != tally_names(unsorted)[b]);
            }
        }
        unsorted.lemma_multiset_has_no_duplicates();
    }
    let sorted = sort_by_count_desc(groups);
    proof {
        unsorted.to_multiset_ensures();
        sorted@.to_multiset_ensures();
        sorted@.lemma_multiset_has_no_duplicates_conv();
        let v = sorted@;
        assert forall|a: int| 0 <= a < v.len() implies unsorted.contains(#[trigger] v[a]) by {
            assert(v.to_multiset().count(v[a]) > 0);
        }
        assert forall|a: int| 0 <= a < unsorted.len() implies v.contains(#[trigger] unsorted[a]) by {
            assert(unsorted.to_multiset().count(unsorted[a]) > 0);
        }
        assert(tally_names(v).no_duplicates()) by {
            assert forall|a: int, b: int| 0 <= a < v.len() && 0 <= b < v.len() && a != b implies tally_names(v)[a] != tally_names(v)[b] by {
                assert(unsorted.contains(v[a]));
                assert(unsorted.contains(v[b]));
                let qa = choose|q: int| 0 <= q < unsorted.len() && unsorted[q] == v[a];
                let qb = choose|q: int| 0 <= q < unsorted.len() && unsorted[q] == v[b];
                if qa != qb {
                    assert(tally_names(unsorted)[qa] != tally_names(unsorted)[qb]);
                }
            }
        }
        assert(tally_names(v).to_set() =~= tally_names(unsorted).to_set()) by {
            assert forall|x: Seq<char>| tally_names(v).to_set().contains(x) implies tally_names(unsorted).to_set().contains(x) by {
                let a = choose|a: int| 0 <= a < tally_names(v).len() && tally_names(v)[a] == x;
                assert(unsorted.contains(v[a]));
                let q = choose|q: int| 0 <= q < unsorted.len() && unsorted[q] == v[a];
                assert(tally_names(unsorted)[q] == x);
            }
            assert forall|x: Seq<char>| tally_names(unsorted).to_set().contains(x) implies tally_names(v).to_set().contains(x) by {
                let q = choose|q: int| 0 <= q < tally_names(unsorted).len() && tally_names(unsorted)[q] == x;
                assert(v.contains(unsorted[q]));
                let a = choose|a: int| 0 <= a < v.len() && v[a] == unsorted[q];
                assert(tally_names(v)[a] == x);
            }
        }
        assert forall|k: int| 0 <= k < v.len() implies (#[trigger] v[k]).0 == occurrences(ks, v[k].1@) by {
            assert(unsorted.contains(v[k]));
            let q = choose|q: int| 0 <= q < unsorted.len() && unsorted[q] == v[k];
        }
    }
    sorted
}

} // verus!
