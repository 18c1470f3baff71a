//! Memoirs: named knowledge graphs of concepts joined by typed links.
use vstd::prelude::*;
use crate::clock::{new_ulid, now_rfc3339};
use crate::model::{IcmError, IcmResult, copy_strings};
use crate::order::{TextKeyed, sort_by_text, sorted_by_text};
use crate::text::{chars_of, concat, owned};
use crate::facts::lemma_filter_step;

verus! {

broadcast use vstd::seq_lib::group_seq_properties;

/// A named knowledge graph.
#[derive(Clone, Debug, PartialEq, Eq)]
pub struct Memoir {
    pub id: String,
    pub name: String,
    pub description: String,
    pub created_at: String,
    pub updated_at: String,
}

impl Memoir {
    /// A new memoir with a fresh id and the current time.
    pub fn new(name: String, description: String) -> (m: Memoir)
        ensures
            m.name == name,
            m.description == description,
            m.id@.len() == 26,
    {
        let now = now_rfc3339();
        Memoir { id: new_ulid(), name, description, created_at: now.clone(), updated_at: now }
    }

    /// A field-for-field copy.
    pub fn copy(&self) -> (r: Memoir)
        ensures
            r == *self,
    {
        Memoir {
            id: self.id.clone(),
            name: self.name.clone(),
            description: self.description.clone(),
            created_at: self.created_at.clone(),
            updated_at: self.updated_at.clone(),
        }
    }
}

impl TextKeyed for Memoir {
    open spec fn text_key(&self) -> Seq<char> {
        self.name@
    }

    fn key_chars(&self) -> (k: Vec<char>) {
        chars_of(self.name.as_str())
    }
}

/// A `namespace:value` tag on a concept.
#[derive(Clone, Debug, PartialEq, Eq)]
pub struct Label {
    pub namespace: String,
    pub value: String,
}

impl Label {
    /// The label `namespace:value`.
    pub fn new(namespace: &str, value: &str) -> (l: Label)
        ensures
            l.namespace@ == namespace@,
            l.value@ == value@,
    {
        Label { namespace: owned(namespace), value: owned(value) }
    }

    /// A field-for-field copy.
    pub fn copy(&self) -> (r: Label)
        ensures
            r == *self,
    {
        Label { namespace: self.namespace.clone(), value: self.value.clone() }
    }

    /// The label written `namespace:value`.
    pub fn text(&self) -> (s: String)
        ensures
            s@ == self.namespace@ + ":"@ + self.value@,
    {
        let a = concat(self.namespace.as_str(), ":");
        concat(a.as_str(), self.value.as_str())
    }
}

/// A copy of a list of labels.
pub fn copy_labels(v: &Vec<Label>) -> (r: Vec<Label>)
    ensures
        r@ == v@,
{
    let mut r: Vec<Label> = Vec::new();
    let mut i: usize = 0;
    while i < v.len()
        invariant
            i <= v.len(),
            r@ == v@.take(i as int),
        decreases v.len() - i,
    {
        r.push(v[i].copy());
        proof {
            assert(v@.take(i + 1) =~= v@.take(i as int).push(v@[i as int]));
        }
        i += 1;
    }
    proof {
        assert(v@.take(v.len() as int) =~= v@);
    }
    r
}

/// Confidence of a new concept, in thousandths (0.5).
pub const DEFAULT_CONFIDENCE: u32 = 500;

/// Full confidence, in thousandths.
pub const FULL_CONFIDENCE: u32 = 1000;

/// A concept of a memoir. `confidence` is in thousandths.
#[derive(Clone, Debug, PartialEq, Eq)]
pub struct Concept {
    pub id: String,
    pub memoir_id: String,
    pub name: String,
    pub definition: String,
    pub labels: Vec<Label>,
    pub confidence: u32,
    pub revision: u32,
    pub source_memory_ids: Vec<String>,
    pub created_at: String,
    pub updated_at: String,
}

/// The value of a concept, with its lists as sequences.
pub ghost struct ConceptView {
    pub id: String,
    pub memoir_id: String,
    pub name: String,
    pub definition: String,
    pub labels: Seq<Label>,
    pub confidence: u32,
    pub revision: u32,
    pub source_memory_ids: Seq<String>,
    pub created_at: String,
    pub updated_at: String,
}

impl View for Concept {
    type V = ConceptView;

    open spec fn view(&self) -> ConceptView {
        ConceptView {
            id: self.id,
            memoir_id: self.memoir_id,
            name: self.name,
            definition: self.definition,
            labels: self.labels@,
            confidence: self.confidence,
            revision: self.revision,
            source_memory_ids: self.source_memory_ids@,
            created_at: self.created_at,
            updated_at: self.updated_at,
        }
    }
}

impl Concept {
    /// A new concept of memoir `memoir_id`: fresh id, current time, first
    /// revision, confidence one half, no labels or sources.
    pub fn new(memoir_id: String, name: String, definition: String) -> (c: Concept)
        ensures
            c.memoir_id == memoir_id,
            c.name == name,
            c.definition == definition,
            c.id@.len() == 26,
            c.labels@.len() == 0,
            c.source_memory_ids@.len() == 0,
            c.confidence == DEFAULT_CONFIDENCE,
            c.revision == 1,
    {
        let now = now_rfc3339();
        Concept {
            id: new_ulid(),
            memoir_id,
            name,
            definition,
            labels: Vec::new(),
            confidence: DEFAULT_CONFIDENCE,
            revision: 1,
            source_memory_ids: Vec::new(),
            created_at: now.clone(),
            updated_at: now,
        }
    }

    /// A field-for-field copy.
    pub fn copy(&self) -> (r: Concept)
        ensures
            r@ == self@,
    {
        Concept {
            id: self.id.clone(),
            memoir_id: self.memoir_id.clone(),
            name: self.name.clone(),
            definition: self.definition.clone(),
            labels: copy_labels(&self.labels),
            confidence: self.confidence,
            revision: self.revision,
            source_memory_ids: copy_strings(&self.source_memory_ids),
            created_at: self.created_at.clone(),
            updated_at: self.updated_at.clone(),
        }
    }
}

impl TextKeyed for Concept {
    open spec fn text_key(&self) -> Seq<char> {
        self.name@
    }

    fn key_chars(&self) -> (k: Vec<char>) {
        chars_of(self.name.as_str())
    }
}

/// How one concept relates to another.
#[derive(Clone, Copy, Debug, PartialEq, Eq, Structural)]
pub enum Relation {
    PartOf,
    DependsOn,
    RelatedTo,
    Contradicts,
    Refines,
    AlternativeTo,
    CausedBy,
    InstanceOf,
    SupersededBy,
}

/// A directed, typed link between two concepts; `weight` is in
/// thousandths.
#[derive(Clone, Debug, PartialEq, Eq)]
pub struct ConceptLink {
    pub id: String,
    pub source_id: String,
    pub target_id: String,
    pub relation: Relation,
    pub weight: u32,
    pub created_at: String,
}

impl ConceptLink {
    /// A new link of full weight with a fresh id and the current time.
    pub fn new(source_id: String, target_id: String, relation: Relation) -> (l: ConceptLink)
        ensures
            l.source_id == source_id,
            l.target_id == target_id,
            l.relation == relation,
            l.weight == 1000,
            l.id@.len() == 26,
    {
        ConceptLink { id: new_ulid(), source_id, target_id, relation, weight: 1000, created_at: now_rfc3339() }
    }

    /// A field-for-field copy.
    pub fn copy(&self) -> (r: ConceptLink)
        ensures
            r == *self,
    {
        ConceptLink {
            id: self.id.clone(),
            source_id: self.source_id.clone(),
            target_id: self.target_id.clone(),
            relation: self.relation,
            weight: self.weight,
            created_at: self.created_at.clone(),
        }
    }
}

/// Figures about one memoir; `avg_confidence` is in thousandths.
#[derive(Clone, Debug, PartialEq, Eq)]
pub struct MemoirStats {
    pub total_concepts: usize,
    pub total_links: usize,
    pub avg_confidence: u32,
    pub label_counts: Vec<(String, usize)>,
}

/// The memoirs, concepts and links tables, rows in insertion order.
pub struct MemoirTable {
    pub memoirs: Vec<Memoir>,
    pub concepts: Vec<Concept>,
    pub links: Vec<ConceptLink>,
}

/// No two rows of a table share an id, and no two memoirs a name.
pub open spec fn memoirs_unique(t: Seq<Memoir>) -> bool {
    &&& forall|i: int, j: int| 0 <= i < t.len() && 0 <= j < t.len() && i != j ==> (#[trigger] t[i]).id@ != (#[trigger] t[j]).id@
    &&& forall|i: int, j: int| 0 <= i < t.len() && 0 <= j < t.len() && i != j ==> (#[trigger] t[i]).name@ != (#[trigger] t[j]).name@
}

/// Concept ids are unique, names are unique within a memoir, and every
/// concept belongs to a stored memoir.
pub open spec fn concepts_ok(m: Seq<Memoir>, c: Seq<Concept>) -> bool {
    &&& forall|i: int, j: int| 0 <= i < c.len() && 0 <= j < c.len() && i != j ==> (#[trigger] c[i]).id@ != (#[trigger] c[j]).id@
    &&& forall|i: int, j: int| 0 <= i < c.len() && 0 <= j < c.len() && i != j && (#[trigger] c[i]).memoir_id@ == (#[trigger] c[j]).memoir_id@ ==> c[i].name@ != c[j].name@
    &&& forall|i: int| 0 <= i < c.len() ==> has_memoir(m, (#[trigger] c[i]).memoir_id@)
}

/// Some memoir has id `id`.
pub open spec fn has_memoir(m: Seq<Memoir>, id: Seq<char>) -> bool {
    exists|k: int| 0 <= k < m.len() && (#[trigger] m[k]).id@ == id
}

/// Some concept has id `id`.
pub open spec fn has_concept(c: Seq<Concept>, id: Seq<char>) -> bool {
    exists|k: int| 0 <= k < c.len() && (#[trigger] c[k]).id@ == id
}

/// Link ids are unique and every link joins two stored concepts.
pub open spec fn links_ok(c: Seq<Concept>, l: Seq<ConceptLink>) -> bool {
    &&& forall|i: int, j: int| 0 <= i < l.len() && 0 <= j < l.len() && i != j ==> (#[trigger] l[i]).id@ != (#[trigger] l[j]).id@
    &&& forall|i: int| 0 <= i < l.len() ==> has_concept(c, (#[trigger] l[i]).source_id@)
    &&& forall|i: int| 0 <= i < l.len() ==> has_concept(c, (#[trigger] l[i]).target_id@)
}

/// The memoir with id `id`, if any.
pub open spec fn memoir_with_id(t: Seq<Memoir>, id: Seq<char>) -> Option<Memoir> {
    if exists|i: int| 0 <= i < t.len() && (#[trigger] t[i]).id@ == id {
        Some(t[choose|i: int| 0 <= i < t.len() && (#[trigger] t[i]).id@ == id])
    } else {
        None
    }
}

/// The memoir named `name`, if any.
pub open spec fn memoir_named(t: Seq<Memoir>, name: Seq<char>) -> Option<Memoir> {
    if exists|i: int| 0 <= i < t.len() && (#[trigger] t[i]).name@ == name {
        Some(t[choose|i: int| 0 <= i < t.len() && (#[trigger] t[i]).name@ == name])
    } else {
        None
    }
}

/// The concept with id `id`, if any.
pub open spec fn concept_with_id(t: Seq<Concept>, id: Seq<char>) -> Option<ConceptView> {
    if exists|i: int| 0 <= i < t.len() && (#[trigger] t[i]).id@ == id {
        Some(t[choose|i: int| 0 <= i < t.len() && (#[trigger] t[i]).id@ == id]@)
    } else {
        None
    }
}

/// The concept of memoir `m` named `name`, if any.
pub open spec fn concept_named(t: Seq<Concept>, m: Seq<char>, name: Seq<char>) -> Option<ConceptView> {
    if exists|i: int| 0 <= i < t.len() && (#[trigger] t[i]).memoir_id@ == m && t[i].name@ == name {
        Some(t[choose|i: int| 0 <= i < t.len() && (#[trigger] t[i]).memoir_id@ == m && t[i].name@ == name]@)
    } else {
        None
    }
}

impl MemoirTable {
    /// The table invariant.
    pub open spec fn wf(&self) -> bool {
        &&& memoirs_unique(self.memoirs@)
        &&& concepts_ok(self.memoirs@, self.concepts@)
        &&& links_ok(self.concepts@, self.links@)
    }

    /// Empty tables.
    pub fn new() -> (t: MemoirTable)
        ensures
            t.wf(),
            t.memoirs@.len() == 0,
            t.concepts@.len() == 0,
            t.links@.len() == 0,
    {
        MemoirTable { memoirs: Vec::new(), concepts: Vec::new(), links: Vec::new() }
    }

    /// Index of the memoir with id `id`.
    pub fn memoir_index(&self, id: &String) -> (r: Option<usize>)
        ensures
            r matches Some(i) ==> i < self.memoirs@.len() && self.memoirs@[i as int].id@ == id@,
            r is None ==> forall|i: int| 0 <= i < self.memoirs@.len() ==> (#[trigger] self.memoirs@[i]).id@ != id@,
    {
        let mut i: usize = 0;
        while i < self.memoirs.len()
            invariant
                i <= self.memoirs.len(),
                forall|j: int| 0 <= j < i ==> (#[trigger] self.memoirs@[j]).id@ != id@,
            decreases self.memoirs.len() - i,
        {
            if self.memoirs[i].id == *id {
                return Some(i);
            }
            i += 1;
        }
        None
    }

    /// Index of the memoir named `name`.
    fn memoir_name_index(&self, name: &String) -> (r: Option<usize>)
        ensures
            r matches Some(i) ==> i < self.memoirs@.len() && self.memoirs@[i as int].name@ == name@,
            r is None ==> forall|i: int| 0 <= i < self.memoirs@.len() ==> (#[trigger] self.memoirs@[i]).name@ != name@,
    {
        let mut i: usize = 0;
        while i < self.memoirs.len()
            invariant
                i <= self.memoirs.len(),
                forall|j: int| 0 <= j < i ==> (#[trigger] self.memoirs@[j]).name@ != name@,
            decreases self.memoirs.len() - i,
        {
            if self.memoirs[i].name == *name {
                return Some(i);
            }
            i += 1;
        }
        None
    }

    /// Index of the concept with id `id`.
    pub fn concept_index(&self, id: &String) -> (r: Option<usize>)
        ensures
            r matches Some(i) ==> i < self.concepts@.len() && self.concepts@[i as int].id@ == id@,
            r is None ==> forall|i: int| 0 <= i < self.concepts@.len() ==> (#[trigger] self.concepts@[i]).id@ != id@,
    {
        let mut i: usize = 0;
        while i < self.concepts.len()
            invariant
                i <= self.concepts.len(),
                forall|j: int| 0 <= j < i ==> (#[trigger] self.concepts@[j]).id@ != id@,
            decreases self.concepts.len() - i,
        {
            if self.concepts[i].id == *id {
                return Some(i);
            }
            i += 1;
        }
        None
    }

    /// Index of the concept of memoir `m` named `name`.
    fn concept_name_index(&self, m: &String, name: &String) -> (r: Option<usize>)
        ensures
            r matches Some(i) ==> i < self.concepts@.len() && self.concepts@[i as int].memoir_id@ == m@ && self.concepts@[i as int].name@ == name@,
            r is None ==> forall|i: int| 0 <= i < self.concepts@.len() ==> !((#[trigger] self.concepts@[i]).memoir_id@ == m@ && self.concepts@[i].name@ == name@),
    {
        let mut i: usize = 0;
        while i < self.concepts.len()
            invariant
                i <= self.concepts.len(),
                forall|j: int| 0 <= j < i ==> !((#[trigger] self.concepts@[j]).memoir_id@ == m@ && self.concepts@[j].name@ == name@),
            decreases self.concepts.len() - i,
        {
            if self.concepts[i].memoir_id == *m && self.concepts[i].name == *name {
                return Some(i);
            }
            i += 1;
        }
        None
    }

    /// Store a new memoir and answer its id. A name already taken, or an
    /// id already taken, is a database error and changes nothing.
    pub fn create_memoir(&mut self, memoir: Memoir) -> (r: IcmResult<String>)
        requires
            old(self).wf(),
        ensures
            final(self).wf(),
            create_memoir_effect(*old(self), *final(self), memoir, r),

    {
        if self.memoir_name_index(&memoir.name).is_some() {
            return Err(IcmError::Database(owned("UNIQUE constraint failed: memoirs.name")));
        }
        if self.memoir_index(&memoir.id).is_some() {
            return Err(IcmError::Database(owned("UNIQUE constraint failed: memoirs.id")));
        }
        let id = memoir.id.clone();
        let ghost old_m = self.memoirs@;
        self.memoirs.push(memoir);
        proof {
            let t = self.memoirs@;
            assert forall|i: int, j: int| 0 <= i < t.len() && 0 <= j < t.len() && i != j implies (#[trigger] t[i]).id@ != (#[trigger] t[j]).id@ by {
                if i < old_m.len() && j < old_m.len() {
                    assert(t[i] == old_m[i] && t[j] == old_m[j]);
                } else if i < old_m.len() {
                    assert(t[i] == old_m[i]);
                } else {
                    assert(t[j] == old_m[j]);
                }
            }
            assert forall|i: int, j: int| 0 <= i < t.len() && 0 <= j < t.len() && i != j implies (#[trigger] t[i]).name@ != (#[trigger] t[j]).name@ by {
                if i < old_m.len() && j < old_m.len() {
                    assert(t[i] == old_m[i] && t[j] == old_m[j]);
                } else if i < old_m.len() {
                    assert(t[i] == old_m[i]);
                } else {
                    assert(t[j] == old_m[j]);
                }
            }
            let c = self.concepts@;
            assert forall|i: int| 0 <= i < c.len() implies has_memoir(t, (#[trigger] c[i]).memoir_id@) by {
                let k = choose|k: int| 0 <= k < old_m.len() && (#[trigger] old_m[k]).id@ == c[i].memoir_id@;
                assert(t[k] == old_m[k]);
            }
        }
        Ok(id)
    }

    /// The memoir with id `id`, if any.
    pub fn get_memoir(&self, id: &str) -> (r: IcmResult<Option<Memoir>>)
        requires
            self.wf(),
        ensures
            r == Ok::<Option<Memoir>, IcmError>(memoir_with_id(self.memoirs@, id@)),
    {
        match self.memoir_index(&owned(id)) {
            Some(i) => {
                proof {
                    let c = choose|c: int| 0 <= c < self.memoirs@.len() && (#[trigger] self.memoirs@[c]).id@ == id@;
                    assert(0 <= c < self.memoirs@.len() && self.memoirs@[c].id@ == id@);
                }
                Ok(Some(self.memoirs[i].copy()))
            },
            None => Ok(None),
        }
    }

    /// The memoir named `name`, if any.
    pub fn get_memoir_by_name(&self, name: &str) -> (r: IcmResult<Option<Memoir>>)
        requires
            self.wf(),
        ensures
            r == Ok::<Option<Memoir>, IcmError>(memoir_named(self.memoirs@, name@)),
    {
        match self.memoir_name_index(&owned(name)) {
            Some(i) => {
                proof {
                    let c = choose|c: int| 0 <= c < self.memoirs@.len() && (#[trigger] self.memoirs@[c]).name@ == name@;
                    assert(0 <= c < self.memoirs@.len() && self.memoirs@[c].name@ == name@);
                }
                Ok(Some(self.memoirs[i].copy()))
            },
            None => Ok(None),
        }
    }

    /// Every memoir, by name.
    #[verifier::rlimit(40)]
    pub fn list_memoirs(&self) -> (r: IcmResult<Vec<Memoir>>)
        ensures
            r matches Ok(v) && v@.to_multiset() == self.memoirs@.to_multiset() && sorted_by_text(v@),
    {
        let mut all: Vec<Memoir> = Vec::new();
        let mut i: usize = 0;
        while i < self.memoirs.len()
            invariant
                i <= self.memoirs.len(),
                all@ == self.memoirs@.take(i as int),
            decreases self.memoirs.len() - i,
        {
            all.push(self.memoirs[i].copy());
            proof {
                assert(self.memoirs@.take(i + 1) =~= self.memoirs@.take(i as int).push(self.memoirs@[i as int]));
            }
            i += 1;
        }
        proof {
            assert(self.memoirs@.take(self.memoirs@.len() as int) =~= self.memoirs@);
        }
        Ok(sort_by_text(all))
    }
}

/// A property of every pair of distinct entries survives filtering.
pub proof fn lemma_filter_pairwise<A>(s: Seq<A>, p: spec_fn(A) -> bool, ok: spec_fn(A, A) -> bool)
    requires
        forall|i: int, j: int| 0 <= i < s.len() && 0 <= j < s.len() && i != j ==> ok(#[trigger] s[i], #[trigger] s[j]),
    ensures
        forall|i: int, j: int| 0 <= i < s.filter(p).len() && 0 <= j < s.filter(p).len() && i != j ==> ok(#[trigger] s.filter(p)[i], #[trigger] s.filter(p)[j]),
    decreases s.len(),
{
    reveal(Seq::filter);
    if s.len() > 0 {
        let d = s.drop_last();
        assert forall|i: int, j: int| 0 <= i < d.len() && 0 <= j < d.len() && i != j implies ok(#[trigger] d[i], #[trigger] d[j]) by {
            assert(d[i] == s[i] && d[j] == s[j]);
        }
        lemma_filter_pairwise(d, p, ok);
        let f = s.filter(p);
        let fd = d.filter(p);
        if p(s.last()) {
            assert(f == fd.push(s.last()));
            assert forall|k: int| 0 <= k < fd.len() implies ok(#[trigger] fd[k], s.last()) && ok(s.last(), fd[k]) by {
                assert(fd.contains(fd[k]));
                d.lemma_filter_contains_rev(p, fd[k]);
                let w = choose|w: int| 0 <= w < d.len() && d[w] == fd[k];
                assert(d[w] == s[w]);
                assert(ok(s[w], s[s.len() - 1]));
                assert(ok(s[s.len() - 1], s[w]));
            }
            assert forall|i: int, j: int| 0 <= i < f.len() && 0 <= j < f.len() && i != j implies ok(#[trigger] f[i], #[trigger] f[j]) by {
                if i < fd.len() && j < fd.len() {
                    assert(f[i] == fd[i] && f[j] == fd[j]);
                } else if i < fd.len() {
                    assert(f[i] == fd[i]);
                } else {
                    assert(f[j] == fd[j]);
                }
            }
        } else {
            assert(f == fd);
        }
    }
}

/// Whether a link touches one of the concepts `gone`.
pub open spec fn touches(l: ConceptLink, gone: Seq<Seq<char>>) -> bool {
    gone.contains(l.source_id@) || gone.contains(l.target_id@)
}

/// The links that touch none of the concepts `gone`, in order.
pub open spec fn links_avoiding(l: Seq<ConceptLink>, gone: Seq<Seq<char>>) -> Seq<ConceptLink> {
    l.filter(untouched(gone))
}

/// The links that touch none of the concepts `gone`.
pub open spec fn untouched(gone: Seq<Seq<char>>) -> spec_fn(ConceptLink) -> bool {
    |x: ConceptLink| !touches(x, gone)
}

/// Whether `s` holds `x`.
fn holds_text(v: &Vec<String>, x: &String) -> (b: bool)
    ensures
        b == Seq::new(v@.len(), |j: int| v@[j]@).contains(x@),
{
    let ghost sv = Seq::new(v@.len(), |j: int| v@[j]@);
    let mut i: usize = 0;
    while i < v.len()
        invariant
            i <= v@.len(),
            sv == Seq::new(v@.len(), |j: int| v@[j]@),
            forall|j: int| 0 <= j < i ==> (#[trigger] v@[j])@ != x@,
        decreases v.len() - i,
    {
        if v[i] == *x {
            proof {
                assert(sv[i as int] == x@);
            }
            return true;
        }
        i += 1;
    }
    proof {
        if sv.contains(x@) {
            let j = choose|j: int| 0 <= j < sv.len() && sv[j] == x@;
            assert(v@[j]@ == x@);
        }
    }
    false
}

impl MemoirTable {
    /// Drop every link touching one of the concepts `gone`.
    fn drop_links_touching(&mut self, gone: &Vec<String>)
        ensures
            final(self).links@ == links_avoiding(old(self).links@, Seq::new(gone@.len(), |j: int| gone@[j]@)),
            final(self).memoirs@ == old(self).memoirs@,
            final(self).concepts@ == old(self).concepts@,
    {
        let ghost g = Seq::new(gone@.len(), |j: int| gone@[j]@);
        let ghost p = untouched(g);
        let ghost l = self.links@;
        let mut kept: Vec<ConceptLink> = Vec::new();
        let mut i: usize = 0;
        while i < self.links.len()
            invariant
                i <= self.links@.len(),
                l == self.links@,
                g == Seq::new(gone@.len(), |j: int| gone@[j]@),
                p == untouched(g),
                kept@ == l.take(i as int).filter(p),
            decreases self.links.len() - i,
        {
            proof {
                lemma_filter_step(l, i as int, p);
            }
            let hit = holds_text(gone, &self.links[i].source_id) || holds_text(gone, &self.links[i].target_id);
            if !hit {
                kept.push(self.links[i].copy());
            }
            i += 1;
        }
        proof {
            assert(l.take(l.len() as int) =~= l);
        }
        self.links = kept;
    }

    /// Store a new concept and answer its id. A concept of a memoir that
    /// does not exist, or whose name is taken in its memoir, or whose id is
    /// taken, is a database error and changes nothing.
    pub fn add_concept(&mut self, concept: Concept) -> (r: IcmResult<String>)
        requires
            old(self).wf(),
        ensures
            final(self).wf(),
            add_concept_effect(*old(self), *final(self), concept, r),

    {
        if self.memoir_index(&concept.memoir_id).is_none() {
            return Err(IcmError::Database(owned("FOREIGN KEY constraint failed")));
        }
        if self.concept_name_index(&concept.memoir_id, &concept.name).is_some() {
            return Err(IcmError::Database(owned("UNIQUE constraint failed: concepts.memoir_id, concepts.name")));
        }
        if self.concept_index(&concept.id).is_some() {
            return Err(IcmError::Database(owned("UNIQUE constraint failed: concepts.id")));
        }
        let id = concept.id.clone();
        let ghost old_c = self.concepts@;
        self.concepts.push(concept);
        proof {
            let c = self.concepts@;
            assert forall|i: int, j: int| 0 <= i < c.len() && 0 <= j < c.len() && i != j implies (#[trigger] c[i]).id@ != (#[trigger] c[j]).id@ by {
                if i < old_c.len() && j < old_c.len() {
                    assert(c[i] == old_c[i] && c[j] == old_c[j]);
                } else if i < old_c.len() {
                    assert(c[i] == old_c[i]);
                } else {
                    assert(c[j] == old_c[j]);
                }
            }
            assert forall|i: int, j: int| 0 <= i < c.len() && 0 <= j < c.len() && i != j && (#[trigger] c[i]).memoir_id@ == (#[trigger] c[j]).memoir_id@ implies c[i].name@ != c[j].name@ by {
                if i < old_c.len() && j < old_c.len() {
                    assert(c[i] == old_c[i] && c[j] == old_c[j]);
                } else if i < old_c.len() {
                    assert(c[i] == old_c[i]);
                } else {
                    assert(c[j] == old_c[j]);
                }
            }
            assert forall|i: int| 0 <= i < c.len() implies has_memoir(self.memoirs@, (#[trigger] c[i]).memoir_id@) by {
                if i < old_c.len() {
                    assert(c[i] == old_c[i]);
                }
            }
            let l = self.links@;
            assert forall|i: int| 0 <= i < l.len() implies has_concept(c, (#[trigger] l[i]).source_id@) by {
                let k = choose|k: int| 0 <= k < old_c.len() && (#[trigger] old_c[k]).id@ == l[i].source_id@;
                assert(c[k] == old_c[k]);
            }
            assert forall|i: int| 0 <= i < l.len() implies has_concept(c, (#[trigger] l[i]).target_id@) by {
                let k = choose|k: int| 0 <= k < old_c.len() && (#[trigger] old_c[k]).id@ == l[i].target_id@;
                assert(c[k] == old_c[k]);
            }
        }
        Ok(id)
    }

    /// The concept with id `id`, if any.
    pub fn get_concept(&self, id: &str) -> (r: IcmResult<Option<Concept>>)
        requires
            self.wf(),
        ensures
            r matches Ok(o) && match o {
                Some(c) => concept_with_id(self.concepts@, id@) == Some(c@),
                None => concept_with_id(self.concepts@, id@) is None,
            },
    {
        match self.concept_index(&owned(id)) {
            Some(i) => {
                proof {
                    let c = choose|c: int| 0 <= c < self.concepts@.len() && (#[trigger] self.concepts@[c]).id@ == id@;
                    assert(0 <= c < self.concepts@.len() && self.concepts@[c].id@ == id@);
                }
                Ok(Some(self.concepts[i].copy()))
            },
            None => Ok(None),
        }
    }

    /// The concept of memoir `memoir_id` named `name`, if any.
    pub fn get_concept_by_name(&self, memoir_id: &str, name: &str) -> (r: IcmResult<Option<Concept>>)
        requires
            self.wf(),
        ensures
            r matches Ok(o) && match o {
                Some(c) => concept_named(self.concepts@, memoir_id@, name@) == Some(c@),
                None => concept_named(self.concepts@, memoir_id@, name@) is None,
            },
    {
        match self.concept_name_index(&owned(memoir_id), &owned(name)) {
            Some(i) => {
                proof {
                    let c = choose|c: int| 0 <= c < self.concepts@.len() && (#[trigger] self.concepts@[c]).memoir_id@ == memoir_id@ && self.concepts@[c].name@ == name@;
                    assert(0 <= c < self.concepts@.len() && self.concepts@[c].memoir_id@ == memoir_id@ && self.concepts@[c].name@ == name@);
                }
                Ok(Some(self.concepts[i].copy()))
            },
            None => Ok(None),
        }
    }

    /// The concepts of memoir `memoir_id`, by name.
    #[verifier::rlimit(40)]
    pub fn list_concepts(&self, memoir_id: &str) -> (r: IcmResult<Vec<Concept>>)
        ensures
            r matches Ok(v) && {
                &&& sorted_by_text(v@)
                &&& v@.len() == self.concepts@.filter(|c: Concept| c.memoir_id@ == memoir_id@).len()
                &&& forall|i: int| 0 <= i < v@.len() ==> concept_of(self.concepts@, memoir_id@, (#[trigger] v@[i])@)
                &&& forall|k: int| 0 <= k < self.concepts@.len() && (#[trigger] self.concepts@[k]).memoir_id@ == memoir_id@ ==> lists_view(v@, self.concepts@[k]@)
            },
    {
        let ghost p = |c: Concept| c.memoir_id@ == memoir_id@;
        let ghost t = self.concepts@;
        let m = owned(memoir_id);
        let mut sel: Vec<Concept> = Vec::new();
        let ghost mut src: Seq<int> = seq![];
        let mut i: usize = 0;
        while i < self.concepts.len()
            invariant
                i <= self.concepts.len(),
                t == self.concepts@,
                m@ == memoir_id@,
                p == (|c: Concept| c.memoir_id@ == memoir_id@),
                sel@.len() == t.take(i as int).filter(p).len(),
                src.len() == sel@.len(),
                forall|z: int| 0 <= z < src.len() ==> 0 <= #[trigger] src[z] < i && t[src[z]].memoir_id@ == memoir_id@ && sel@[z]@ == t[src[z]]@,
                forall|k: int| 0 <= k < i && t[k].memoir_id@ == memoir_id@ ==> exists|z: int| 0 <= z < src.len() && #[trigger] src[z] == k,
            decreases self.concepts.len() - i,
        {
            proof {
                lemma_filter_step(t, i as int, p);
            }
            if self.concepts[i].memoir_id == m {
                sel.push(self.concepts[i].copy());
                proof {
                    let old_src = src;
                    src = src.push(i as int);
                    assert forall|k: int| 0 <= k < i + 1 && t[k].memoir_id@ == memoir_id@ implies exists|z: int| 0 <= z < src.len() && #[trigger] src[z] == k by {
                        if k < i {
                            let z = choose|z: int| 0 <= z < old_src.len() && #[trigger] old_src[z] == k;
                            assert(src[z] == k);
                        } else {
                            assert(src[old_src.len() as int] == k);
                        }
                    }
                }
            }
            i += 1;
        }
        proof {
            assert(t.take(t.len() as int) =~= t);
        }
        let ghost unsorted = sel@;
        let v = sort_by_text(sel);
        proof {
            lemma_sorted_views(t, memoir_id@, unsorted, v@, src);
        }
        Ok(v)
    }
}

/// Some concept of memoir `m` has the value `x`.
pub open spec fn concept_of(t: Seq<Concept>, m: Seq<char>, x: ConceptView) -> bool {
    exists|k: int| 0 <= k < t.len() && (#[trigger] t[k]).memoir_id@ == m && t[k]@ == x
}

/// Some entry of `v` has the value `x`.
pub open spec fn lists_view(v: Seq<Concept>, x: ConceptView) -> bool {
    exists|i: int| 0 <= i < v.len() && (#[trigger] v[i])@ == x
}

/// A reordering of the copies of the concepts of memoir `m` lists each of
/// them and nothing else.
proof fn lemma_sorted_views(t: Seq<Concept>, m: Seq<char>, u: Seq<Concept>, v: Seq<Concept>, src: Seq<int>)
    requires
        v.to_multiset() == u.to_multiset(),
        src.len() == u.len(),
        forall|z: int| 0 <= z < src.len() ==> 0 <= #[trigger] src[z] < t.len() && t[src[z]].memoir_id@ == m && u[z]@ == t[src[z]]@,
        forall|k: int| 0 <= k < t.len() && t[k].memoir_id@ == m ==> exists|z: int| 0 <= z < src.len() && #[trigger] src[z] == k,
    ensures
        v.len() == u.len(),
        forall|i: int| 0 <= i < v.len() ==> concept_of(t, m, (#[trigger] v[i])@),
        forall|k: int| 0 <= k < t.len() && (#[trigger] t[k]).memoir_id@ == m ==> lists_view(v, t[k]@),
{
    u.to_multiset_ensures();
    v.to_multiset_ensures();
    assert forall|a: int| 0 <= a < v.len() implies concept_of(t, m, (#[trigger] v[a])@) by {
        assert(v.to_multiset().count(v[a]) > 0);
        assert(u.contains(v[a]));
        let z = choose|z: int| 0 <= z < u.len() && u[z] == v[a];
        assert(t[src[z]]@ == v[a]@);
    }
    assert forall|k: int| 0 <= k < t.len() && (#[trigger] t[k]).memoir_id@ == m implies lists_view(v, t[k]@) by {
        let z = choose|z: int| 0 <= z < src.len() && #[trigger] src[z] == k;
        assert(u.to_multiset().count(u[z]) > 0);
        assert(v.contains(u[z]));
        let a = choose|a: int| 0 <= a < v.len() && v[a] == u[z];
        assert(v[a]@ == t[k]@);
    }
    assert(v.to_multiset().len() == u.to_multiset().len());
}

/// Whether `x` is the id of a concept of memoir `m`.
pub open spec fn concept_id_of(t: Seq<Concept>, m: Seq<char>, x: Seq<char>) -> bool {
    exists|k: int| 0 <= k < t.len() && (#[trigger] t[k]).memoir_id@ == m && t[k].id@ == x
}

impl MemoirTable {
    /// Delete concept `id` and every link touching it; a missing id is
    /// `NotFound(id)` and changes nothing.
    pub fn delete_concept(&mut self, id: &str) -> (r: IcmResult<()>)
        requires
            old(self).wf(),
        ensures
            final(self).wf(),
            delete_concept_effect(*old(self), *final(self), id@, r),

    {
        let key = owned(id);
        let k = match self.concept_index(&key) {
            Some(k) => k,
            None => {
                return Err(IcmError::NotFound(key));
            },
        };
        let ghost old_c = self.concepts@;
        let ghost old_l = self.links@;
        self.concepts.remove(k);
        let mut gone: Vec<String> = Vec::new();
        gone.push(key);
        proof {
            assert(Seq::new(gone@.len(), |j: int| gone@[j]@) =~= seq![id@]);
        }
        self.drop_links_touching(&gone);
        proof {
            let c = self.concepts@;
            let l = self.links@;
            let g = seq![id@];
            assert forall|i: int, j: int| 0 <= i < c.len() && 0 <= j < c.len() && i != j implies (#[trigger] c[i]).id@ != (#[trigger] c[j]).id@ by {
                let a = if i < k { i } else { i + 1 };
                let b = if j < k { j } else { j + 1 };
                assert(c[i] == old_c[a] && c[j] == old_c[b]);
            }
            assert forall|i: int, j: int| 0 <= i < c.len() && 0 <= j < c.len() && i != j && (#[trigger] c[i]).memoir_id@ == (#[trigger] c[j]).memoir_id@ implies c[i].name@ != c[j].name@ by {
                let a = if i < k { i } else { i + 1 };
                let b = if j < k { j } else { j + 1 };
                assert(c[i] == old_c[a] && c[j] == old_c[b]);
            }
            assert forall|i: int| 0 <= i < c.len() implies has_memoir(self.memoirs@, (#[trigger] c[i]).memoir_id@) by {
                let a = if i < k { i } else { i + 1 };
                assert(c[i] == old_c[a]);
            }
            let pk = |x: ConceptLink| !touches(x, g);
            lemma_filter_pairwise(old_l, pk, |a: ConceptLink, b: ConceptLink| a.id@ != b.id@);
            assert forall|i: int| 0 <= i < l.len() implies has_concept(c, (#[trigger] l[i]).source_id@) && has_concept(c, l[i].target_id@) by {
                assert(l.contains(l[i]));
                old_l.lemma_filter_contains_rev(pk, l[i]);
                old_l.lemma_filter_pred(pk, i);
                let w = choose|w: int| 0 <= w < old_l.len() && old_l[w] == l[i];
                assert(!g.contains(l[i].source_id@));
                assert(!g.contains(l[i].target_id@)) ;
                let s1 = choose|s1: int| 0 <= s1 < old_c.len() && (#[trigger] old_c[s1]).id@ == old_l[w].source_id@;
                let s2 = choose|s2: int| 0 <= s2 < old_c.len() && (#[trigger] old_c[s2]).id@ == old_l[w].target_id@;
                assert(s1 != k) by {
                    if s1 == k {
                        assert(g[0] == id@);
                    }
                }
                assert(s2 != k) by {
                    if s2 == k {
                        assert(g[0] == id@);
                    }
                }
                let n1 = if s1 < k { s1 } else { s1 - 1 };
                let n2 = if s2 < k { s2 } else { s2 - 1 };
                assert(c[n1] == old_c[s1]);
                assert(c[n2] == old_c[s2]);
            }
        }
        Ok(())
    }

    /// Delete memoir `id` with its concepts and every link touching them; a
    /// missing id is `NotFound(id)` and changes nothing.
    pub fn delete_memoir(&mut self, id: &str) -> (r: IcmResult<()>)
        requires
            old(self).wf(),
        ensures
            final(self).wf(),
            delete_memoir_effect(*old(self), *final(self), id@, r),

    {
        let key = owned(id);
        let k = match self.memoir_index(&key) {
            Some(k) => k,
            None => {
                return Err(IcmError::NotFound(key));
            },
        };
        let ghost old_m = self.memoirs@;
        let ghost old_c = self.concepts@;
        let ghost old_l = self.links@;
        let ghost q = outside_memoir(id@);
        self.memoirs.remove(k);
        let mut gone: Vec<String> = Vec::new();
        let mut kept: Vec<Concept> = Vec::new();
        let n = self.concepts.len();
        let mut rest: Vec<Concept> = Vec::new();
        std::mem::swap(&mut rest, &mut self.concepts);
        let mut i: usize = 0;
        while rest.len() > 0
            invariant
                n == old_c.len(),
                i <= old_c.len(),
                rest@ == old_c.skip(i as int),
                key@ == id@,
                q == outside_memoir(id@),
                kept@ == old_c.take(i as int).filter(q),
                forall|x: Seq<char>| Seq::new(gone@.len(), |j: int| gone@[j]@).contains(x) <==> concept_id_of(old_c.take(i as int), id@, x),
            decreases rest.len(),
        {
            proof {
                assert(old_c.skip(i as int).len() > 0);
                lemma_filter_step(old_c, i as int, q);
            }
            let ghost gb = Seq::new(gone@.len(), |j: int| gone@[j]@);
            let c = rest.remove(0);
            proof {
                assert(c == old_c[i as int]);
                assert(rest@ =~= old_c.skip(i + 1));
            }
            if c.memoir_id == key {
                gone.push(c.id.clone());
                proof {
                    let ga = Seq::new(gone@.len(), |j: int| gone@[j]@);
                    assert(ga =~= gb.push(old_c[i as int].id@));
                    assert forall|x: Seq<char>| ga.contains(x) <==> concept_id_of(old_c.take(i + 1), id@, x) by {
                        let t1 = old_c.take(i + 1);
                        let t0 = old_c.take(i as int);
                        if ga.contains(x) {
                            if x == old_c[i as int].id@ {
                                assert(t1[i as int] == old_c[i as int]);
                            } else {
                                assert(gb.contains(x)) by {
                                    let z = choose|z: int| 0 <= z < ga.len() && ga[z] == x;
                                    assert(z < gb.len());
                                    assert(gb[z] == x);
                                }
                                assert(concept_id_of(t0, id@, x));
                                let w = choose|w: int| 0 <= w < t0.len() && (#[trigger] t0[w]).memoir_id@ == id@ && t0[w].id@ == x;
                                assert(t1[w] == t0[w]);
                            }
                        }
                        if concept_id_of(t1, id@, x) {
                            let w = choose|w: int| 0 <= w < t1.len() && (#[trigger] t1[w]).memoir_id@ == id@ && t1[w].id@ == x;
                            if w < i {
                                assert(t0[w] == t1[w]);
                                assert(concept_id_of(t0, id@, x));
                                let z = choose|z: int| 0 <= z < gb.len() && gb[z] == x;
                                assert(ga[z] == x);
                            } else {
                                assert(ga[gb.len() as int] == x);
                            }
                        }
                    }
                }
            } else {
                kept.push(c);
                proof {
                    let t1 = old_c.take(i + 1);
                    let t0 = old_c.take(i as int);
                    assert forall|x: Seq<char>| gb.contains(x) <==> concept_id_of(t1, id@, x) by {
                        if concept_id_of(t1, id@, x) {
                            let w = choose|w: int| 0 <= w < t1.len() && (#[trigger] t1[w]).memoir_id@ == id@ && t1[w].id@ == x;
                            assert(w != i);
                            assert(t0[w] == t1[w]);
                        }
                        if concept_id_of(t0, id@, x) {
                            let w = choose|w: int| 0 <= w < t0.len() && (#[trigger] t0[w]).memoir_id@ == id@ && t0[w].id@ == x;
                            assert(t0[w] == t1[w]);
                        }
                    }
                }
            }
            i += 1;
        }
        proof {
            assert(old_c.skip(i as int).len() == 0);
            assert(i == old_c.len());
        }
        proof {
            assert(old_c.take(old_c.len() as int) =~= old_c);
        }
        self.concepts = kept;
        self.drop_links_touching(&gone);
        proof {
            let m = self.memoirs@;
            let c = self.concepts@;
            let l = self.links@;
            let g = Seq::new(gone@.len(), |j: int| gone@[j]@);
            assert forall|a: int, b: int| 0 <= a < m.len() && 0 <= b < m.len() && a != b implies (#[trigger] m[a]).id@ != (#[trigger] m[b]).id@ && m[a].name@ != m[b].name@ by {
                let a2 = if a < k { a } else { a + 1 };
                let b2 = if b < k { b } else { b + 1 };
                assert(m[a] == old_m[a2] && m[b] == old_m[b2]);
            }
            lemma_filter_pairwise(old_c, q, |a: Concept, b: Concept| a.id@ != b.id@);
            lemma_filter_pairwise(old_c, q, |a: Concept, b: Concept| a.memoir_id@ == b.memoir_id@ ==> a.name@ != b.name@);
            assert forall|a: int| 0 <= a < c.len() implies has_memoir(m, (#[trigger] c[a]).memoir_id@) by {
                assert(c.contains(c[a]));
                old_c.lemma_filter_contains_rev(q, c[a]);
                old_c.lemma_filter_pred(q, a);
                let w = choose|w: int| 0 <= w < old_c.len() && old_c[w] == c[a];
                let z = choose|z: int| 0 <= z < old_m.len() && (#[trigger] old_m[z]).id@ == old_c[w].memoir_id@;
                assert(z != k);
                let z2 = if z < k { z } else { z - 1 };
                assert(m[z2] == old_m[z]);
            }
            let pk = |x: ConceptLink| !touches(x, g);
            lemma_filter_pairwise(old_l, pk, |a: ConceptLink, b: ConceptLink| a.id@ != b.id@);
            assert forall|a: int| 0 <= a < l.len() implies has_concept(c, (#[trigger] l[a]).source_id@) && has_concept(c, l[a].target_id@) by {
                assert(l.contains(l[a]));
                old_l.lemma_filter_contains_rev(pk, l[a]);
                old_l.lemma_filter_pred(pk, a);
                let w = choose|w: int| 0 <= w < old_l.len() && old_l[w] == l[a];
                let s1 = choose|s1: int| 0 <= s1 < old_c.len() && (#[trigger] old_c[s1]).id@ == old_l[w].source_id@;
                let s2 = choose|s2: int| 0 <= s2 < old_c.len() && (#[trigger] old_c[s2]).id@ == old_l[w].target_id@;
                assert(q(old_c[s1])) by {
                    if !q(old_c[s1]) {
                        assert(concept_id_of(old_c, id@, old_l[w].source_id@));
                    }
                }
                assert(q(old_c[s2])) by {
                    if !q(old_c[s2]) {
                        assert(concept_id_of(old_c, id@, old_l[w].target_id@));
                    }
                }
                old_c.lemma_filter_contains(q, s1);
                old_c.lemma_filter_contains(q, s2);
                let n1 = choose|n1: int| 0 <= n1 < c.len() && c[n1] == old_c[s1];
                let n2 = choose|n2: int| 0 <= n2 < c.len() && c[n2] == old_c[s2];
            }
            assert forall|x: ConceptLink| #[trigger] l.contains(x) <==> old_l.contains(x)
                && !concept_id_of(old_c, id@, x.source_id@) && !concept_id_of(old_c, id@, x.target_id@) by {
                if l.contains(x) {
                    old_l.lemma_filter_contains_rev(pk, x);
                    let a = choose|a: int| 0 <= a < l.len() && l[a] == x;
                    old_l.lemma_filter_pred(pk, a);
                }
                if old_l.contains(x) && !concept_id_of(old_c, id@, x.source_id@) && !concept_id_of(old_c, id@, x.target_id@) {
                    let w = choose|w: int| 0 <= w < old_l.len() && old_l[w] == x;
                    old_l.lemma_filter_contains(pk, w);
                }
            }
        }
        Ok(())
    }
}

/// What `create_memoir` does to the tables.
pub open spec fn create_memoir_effect(before: MemoirTable, after: MemoirTable, memoir: Memoir, r: IcmResult<String>) -> bool {
    &&& after.concepts@ == before.concepts@
    &&& after.links@ == before.links@
    &&& memoir_named(before.memoirs@, memoir.name@) is Some ==> r is Err && after.memoirs@ == before.memoirs@
    &&& r is Err ==> after.memoirs@ == before.memoirs@ && (r matches Err(e) && e is Database)
    &&& r is Ok <==> (memoir_named(before.memoirs@, memoir.name@) is None && memoir_with_id(before.memoirs@, memoir.id@) is None)
    &&& r matches Ok(id) ==> id@ == memoir.id@ && after.memoirs@ == before.memoirs@.push(memoir)
}

/// What `add_concept` does to the tables.
pub open spec fn add_concept_effect(before: MemoirTable, after: MemoirTable, concept: Concept, r: IcmResult<String>) -> bool {
    &&& after.memoirs@ == before.memoirs@
    &&& after.links@ == before.links@
    &&& r is Err ==> after.concepts@ == before.concepts@ && (r matches Err(e) && e is Database)
    &&& r is Ok <==> {
        &&& has_memoir(before.memoirs@, concept.memoir_id@)
        &&& concept_named(before.concepts@, concept.memoir_id@, concept.name@) is None
        &&& concept_with_id(before.concepts@, concept.id@) is None
    }
    &&& r matches Ok(id) ==> id@ == concept.id@ && after.concepts@ == before.concepts@.push(concept)
}

/// What `delete_concept` does to the tables.
pub open spec fn delete_concept_effect(before: MemoirTable, after: MemoirTable, id: Seq<char>, r: IcmResult<()>) -> bool {
    &&& after.memoirs@ == before.memoirs@
    &&& r is Ok <==> has_concept(before.concepts@, id)
    &&& r is Err ==> after.concepts@ == before.concepts@ && after.links@ == before.links@
        && (r matches Err(IcmError::NotFound(m)) && m@ == id)
    &&& r is Ok ==> exists|k: int| 0 <= k < before.concepts@.len() && (#[trigger] before.concepts@[k]).id@ == id
        && after.concepts@ == before.concepts@.remove(k)
    &&& r is Ok ==> after.links@ == links_avoiding(before.links@, seq![id])
}

/// What `delete_memoir` does to the tables.
pub open spec fn delete_memoir_effect(before: MemoirTable, after: MemoirTable, id: Seq<char>, r: IcmResult<()>) -> bool {
    &&& r is Ok <==> has_memoir(before.memoirs@, id)
    &&& r is Err ==> after.memoirs@ == before.memoirs@ && after.concepts@ == before.concepts@
        && after.links@ == before.links@ && (r matches Err(IcmError::NotFound(m)) && m@ == id)
    &&& r is Ok ==> exists|k: int| 0 <= k < before.memoirs@.len() && (#[trigger] before.memoirs@[k]).id@ == id
        && after.memoirs@ == before.memoirs@.remove(k)
    &&& r is Ok ==> after.concepts@ == before.concepts@.filter(outside_memoir(id))
    &&& r is Ok ==> forall|x: ConceptLink| #[trigger] after.links@.contains(x) <==> before.links@.contains(x)
        && !concept_id_of(before.concepts@, id, x.source_id@) && !concept_id_of(before.concepts@, id, x.target_id@)
}

/// The concepts of memoirs other than `id`.
pub open spec fn outside_memoir(id: Seq<char>) -> spec_fn(Concept) -> bool {
    |c: Concept| c.memoir_id@ != id
}

/// Deleting a memoir leaves no trace of it: the memoir is gone, none of
/// the remaining concepts belongs to it, and no remaining link touches one
/// of its concepts.
pub proof fn law_deleted_memoir_leaves_nothing(before: MemoirTable, after: MemoirTable, id: Seq<char>, r: IcmResult<()>)
    requires
        before.wf(),
        delete_memoir_effect(before, after, id, r),
        r is Ok,
    ensures
        !has_memoir(after.memoirs@, id),
        forall|i: int| 0 <= i < after.concepts@.len() ==> (#[trigger] after.concepts@[i]).memoir_id@ != id,
        forall|i: int| 0 <= i < after.links@.len() ==> !concept_id_of(before.concepts@, id, (#[trigger] after.links@[i]).source_id@)
            && !concept_id_of(before.concepts@, id, after.links@[i].target_id@),
{
    let k = choose|k: int| 0 <= k < before.memoirs@.len() && (#[trigger] before.memoirs@[k]).id@ == id
        && after.memoirs@ == before.memoirs@.remove(k);
    assert forall|i: int| 0 <= i < after.memoirs@.len() implies (#[trigger] after.memoirs@[i]).id@ != id by {
        let src = if i < k { i } else { i + 1 };
        assert(after.memoirs@[i] == before.memoirs@[src]);
    }
    assert forall|i: int| 0 <= i < after.concepts@.len() implies (#[trigger] after.concepts@[i]).memoir_id@ != id by {
        before.concepts@.lemma_filter_pred(outside_memoir(id), i);
    }
    assert forall|i: int| 0 <= i < after.links@.len() implies !concept_id_of(before.concepts@, id, (#[trigger] after.links@[i]).source_id@)
        && !concept_id_of(before.concepts@, id, after.links@[i].target_id@) by {
        assert(after.links@.contains(after.links@[i]));
    }
}

/// Deleting a concept leaves no trace of it: it cannot be found and no
/// remaining link touches it.
pub proof fn law_deleted_concept_is_unlinked(before: MemoirTable, after: MemoirTable, id: Seq<char>, r: IcmResult<()>)
    requires
        before.wf(),
        delete_concept_effect(before, after, id, r),
        r is Ok,
    ensures
        !has_concept(after.concepts@, id),
        forall|i: int| 0 <= i < after.links@.len() ==> (#[trigger] after.links@[i]).source_id@ != id && after.links@[i].target_id@ != id,
{
    let k = choose|k: int| 0 <= k < before.concepts@.len() && (#[trigger] before.concepts@[k]).id@ == id
        && after.concepts@ == before.concepts@.remove(k);
    assert forall|i: int| 0 <= i < after.concepts@.len() implies (#[trigger] after.concepts@[i]).id@ != id by {
        let src = if i < k { i } else { i + 1 };
        assert(after.concepts@[i] == before.concepts@[src]);
    }
    let gone = seq![id];
    assert(gone[0] == id);
    assert forall|i: int| 0 <= i < after.links@.len() implies (#[trigger] after.links@[i]).source_id@ != id && after.links@[i].target_id@ != id by {
        before.links@.lemma_filter_pred(untouched(gone), i);
    }
}

} // verus!
