//! Orderings the store sorts its answers by: text in code-point order (the
//! order SQLite's default `BINARY` collation gives UTF-8 text) and counts.
use vstd::prelude::*;
use vstd::multiset::Multiset;

verus! {

broadcast use vstd::seq_lib::group_seq_properties;

/// `a` sorts before or equal to `b`, comparing code points left to right; a
/// proper prefix sorts first.
pub open spec fn text_le(a: Seq<char>, b: Seq<char>) -> bool
    decreases a.len(),
{
    if a.len() == 0 {
        true
    } else if b.len() == 0 {
        false
    } else if a[0] != b[0] {
        a[0] < b[0]
    } else {
        text_le(a.drop_first(), b.drop_first())
    }
}

/// Any two texts are ordered one way or the other.
pub proof fn lemma_text_le_total(a: Seq<char>, b: Seq<char>)
    ensures
        text_le(a, b) || text_le(b, a),
    decreases a.len(),
{
    if a.len() > 0 && b.len() > 0 && a[0] == b[0] {
        lemma_text_le_total(a.drop_first(), b.drop_first());
    }
}

/// Every text sorts before or equal to itself.
pub proof fn lemma_text_le_refl(a: Seq<char>)
    ensures
        text_le(a, a),
    decreases a.len(),
{
    if a.len() > 0 {
        lemma_text_le_refl(a.drop_first());
    }
}

/// The order is transitive.
pub proof fn lemma_text_le_trans(a: Seq<char>, b: Seq<char>, c: Seq<char>)
    requires
        text_le(a, b),
        text_le(b, c),
    ensures
        text_le(a, c),
    decreases a.len(),
{
    if a.len() > 0 && b.len() > 0 && c.len() > 0 && a[0] == b[0] && b[0] == c[0] {
        lemma_text_le_trans(a.drop_first(), b.drop_first(), c.drop_first());
    }
}

/// The order is antisymmetric.
pub proof fn lemma_text_le_antisym(a: Seq<char>, b: Seq<char>)
    requires
        text_le(a, b),
        text_le(b, a),
    ensures
        a == b,
    decreases a.len(),
{
    if a.len() > 0 && b.len() > 0 {
        lemma_text_le_antisym(a.drop_first(), b.drop_first());
        assert(a =~= seq![a[0]] + a.drop_first());
        assert(b =~= seq![b[0]] + b.drop_first());
    } else {
        assert(a =~= b);
    }
}

/// Whether `a@ <= b@` in code-point order.
pub fn text_le_exec(a: &Vec<char>, b: &Vec<char>) -> (r: bool)
    ensures
        r == text_le(a@, b@),
{
    let mut i: usize = 0;
    while i < a.len() && i < b.len()
        invariant
            i <= a.len(),
            i <= b.len(),
            text_le(a@, b@) == text_le(a@.skip(i as int), b@.skip(i as int)),
        decreases a.len() - i,
    {
        let ghost sa = a@.skip(i as int);
        let ghost sb = b@.skip(i as int);
        assert(sa[0] == a@[i as int]);
        assert(sb[0] == b@[i as int]);
        if a[i] != b[i] {
            return a[i] < b[i];
        }
        assert(sa.drop_first() =~= a@.skip(i + 1));
        assert(sb.drop_first() =~= b@.skip(i + 1));
        i += 1;
    }
    i == a.len()
}

/// Items sorted by a text key.
pub trait TextKeyed {
    /// The key the item sorts by.
    spec fn text_key(&self) -> Seq<char>;

    /// The key, as characters.
    fn key_chars(&self) -> (k: Vec<char>)
        ensures
            k@ == self.text_key(),
    ;
}

/// Sorted ascending by text key.
pub open spec fn sorted_by_text<T: TextKeyed>(s: Seq<T>) -> bool {
    forall|i: int, j: int|
        0 <= i < j < s.len() ==> text_le(#[trigger] s[i].text_key(), #[trigger] s[j].text_key())
}

/// Index of an item with the least key among `v`.
fn index_of_min_text<T: TextKeyed>(v: &Vec<T>) -> (m: usize)
    requires
        v.len() > 0,
    ensures
        m < v.len(),
        forall|j: int| 0 <= j < v.len() ==> text_le(v@[m as int].text_key(), #[trigger] v@[j].text_key()),
{
    let mut m: usize = 0;
    let mut mk = v[0].key_chars();
    let mut i: usize = 1;
    proof {
        lemma_text_le_refl(v@[0].text_key());
    }
    while i < v.len()
        invariant
            m < i <= v.len(),
            mk@ == v@[m as int].text_key(),
            forall|j: int| 0 <= j < i ==> text_le(v@[m as int].text_key(), #[trigger] v@[j].text_key()),
        decreases v.len() - i,
    {
        let ik = v[i].key_chars();
        if !text_le_exec(&mk, &ik) {
            proof {
                lemma_text_le_total(v@[m as int].text_key(), v@[i as int].text_key());
                lemma_text_le_refl(v@[i as int].text_key());
                assert forall|j: int| 0 <= j < i implies text_le(v@[i as int].text_key(), #[trigger] v@[j].text_key()) by {
                    lemma_text_le_trans(v@[i as int].text_key(), v@[m as int].text_key(), v@[j].text_key());
                }
            }
            m = i;
            mk = ik;
        }
        i += 1;
    }
    m
}

/// The items reordered ascending by key (selection sort).
pub fn sort_by_text<T: TextKeyed>(items: Vec<T>) -> (out: Vec<T>)
    ensures
        out@.to_multiset() == items@.to_multiset(),
        sorted_by_text(out@),
{
    let ghost all = items@.to_multiset();
    let mut rest = items;
    let mut out: Vec<T> = Vec::new();
    while rest.len() > 0
        invariant
            out@.to_multiset().add(rest@.to_multiset()) == all,
            sorted_by_text(out@),
            forall|i: int, j: int|
                0 <= i < out.len() && 0 <= j < rest.len() ==> text_le(
                    #[trigger] out@[i].text_key(),
                    #[trigger] rest@[j].text_key(),
                ),
        decreases rest.len(),
    {
        let m = index_of_min_text(&rest);
        let ghost old_rest = rest@;
        let ghost old_out = out@;
        let x = rest.remove(m);
        proof {
            old_rest.to_multiset_ensures();
            old_out.to_multiset_ensures();
        }
        out.push(x);
        proof {
            assert(out@.to_multiset() =~= old_out.to_multiset().insert(x));
            assert(rest@.to_multiset() =~= old_rest.to_multiset().remove(x));
            assert(out@.to_multiset().add(rest@.to_multiset()) =~= all);
            assert forall|i: int, j: int| 0 <= i < j < out@.len() implies text_le(
                #[trigger] out@[i].text_key(),
                #[trigger] out@[j].text_key(),
            ) by {
                if j == out@.len() - 1 {
                    assert(old_rest[m as int] == x);
                } else {
                    assert(old_out[i] == out@[i]);
                    assert(old_out[j] == out@[j]);
                }
            }
            assert forall|i: int, j: int| 0 <= i < out.len() && 0 <= j < rest.len() implies text_le(
                #[trigger] out@[i].text_key(),
                #[trigger] rest@[j].text_key(),
            ) by {
                let jj = if j < m { j } else { j + 1 };
                assert(rest@[j] == old_rest[jj]);
                if i < out.len() - 1 {
                    assert(out@[i] == old_out[i]);
                }
            }
        }
    }
    proof {
        rest@.to_multiset_ensures();
        assert(rest@.to_multiset() =~= Multiset::empty());
        assert(out@.to_multiset() =~= all);
    }
    out
}

/// Sorted descending by count.
pub open spec fn sorted_by_count_desc<T>(s: Seq<(u64, T)>) -> bool {
    forall|i: int, j: int| 0 <= i < j < s.len() ==> #[trigger] s[i].0 >= #[trigger] s[j].0
}

/// Index of an item with the greatest count among `v`.
fn index_of_max_count<T>(v: &Vec<(u64, T)>) -> (m: usize)
    requires
        v.len() > 0,
    ensures
        m < v.len(),
        forall|j: int| 0 <= j < v.len() ==> v@[m as int].0 >= #[trigger] v@[j].0,
{
    let mut m: usize = 0;
    let mut i: usize = 1;
    while i < v.len()
        invariant
            m < i <= v.len(),
            forall|j: int| 0 <= j < i ==> v@[m as int].0 >= #[trigger] v@[j].0,
        decreases v.len() - i,
    {
        if v[i].0 > v[m].0 {
            m = i;
        }
        i += 1;
    }
    m
}

/// The items reordered by descending count (selection sort; among equal
/// counts the earliest remaining item comes first).
pub fn sort_by_count_desc<T>(items: Vec<(u64, T)>) -> (out: Vec<(u64, T)>)
    ensures
        out@.to_multiset() == items@.to_multiset(),
        sorted_by_count_desc(out@),
{
    let ghost all = items@.to_multiset();
    let mut rest = items;
    let mut out: Vec<(u64, T)> = Vec::new();
    while rest.len() > 0
        invariant
            out@.to_multiset().add(rest@.to_multiset()) == all,
            sorted_by_count_desc(out@),
            forall|i: int, j: int|
                0 <= i < out.len() && 0 <= j < rest.len() ==> #[trigger] out@[i].0
                    >= #[trigger] rest@[j].0,
        decreases rest.len(),
    {
        let m = index_of_max_count(&rest);
        let ghost old_rest = rest@;
        let ghost old_out = out@;
        let x = rest.remove(m);
        proof {
            old_rest.to_multiset_ensures();
            old_out.to_multiset_ensures();
        }
        out.push(x);
        proof {
            assert(out@.to_multiset() =~= old_out.to_multiset().insert(x));
            assert(rest@.to_multiset() =~= old_rest.to_multiset().remove(x));
            assert(out@.to_multiset().add(rest@.to_multiset()) =~= all);
            assert forall|i: int, j: int| 0 <= i < out.len() && 0 <= j < rest.len() implies #[trigger] out@[i].0
                >= #[trigger] rest@[j].0 by {
                let jj = if j < m { j } else { j + 1 };
                assert(rest@[j] == old_rest[jj]);
            }
        }
    }
    proof {
        rest@.to_multiset_ensures();
        assert(rest@.to_multiset() =~= Multiset::empty());
        assert(out@.to_multiset() =~= all);
    }
    out
}

} // verus!
