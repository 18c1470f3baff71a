//! Turning a detected pattern into a concept of a memoir.
use vstd::prelude::*;
use crate::encode::{is_char_boundary_truncation, truncate_at_char_boundary};
use crate::graph::{Concept, Label, MemoirTable, add_concept_effect};
use crate::model::{IcmResult, copy_strings};
use crate::patterns::PatternCluster;
use crate::search::string_views;
use crate::text::{concat, lemma_utf8_len_take_mono, owned, push_char, push_str, utf8_len};

verus! {

broadcast use vstd::seq_lib::group_seq_properties;

/// The decimal digit of a value below ten.
pub open spec fn digit_char(d: nat) -> char {
    (48 + d) as char
}

/// `n` written in decimal.
pub open spec fn decimal(n: nat) -> Seq<char>
    decreases n,
{
    if n < 10 {
        seq![digit_char(n)]
    } else {
        decimal(n / 10).push(digit_char(n % 10))
    }
}

/// `n` written in decimal.
pub fn decimal_string(n: usize) -> (s: String)
    ensures
        s@ == decimal(n as nat),
    decreases n,
{
    if n < 10 {
        let mut s = String::new();
        push_char(&mut s, ((48 + n) as u8) as char);
        proof {
            assert(s@ =~= seq![digit_char(n as nat)]);
        }
        s
    } else {
        let mut s = decimal_string(n / 10);
        push_char(&mut s, ((48 + n % 10) as u8) as char);
        s
    }
}

/// Up to the first three keywords joined by `-`.
pub open spec fn dash_join(ks: Seq<Seq<char>>) -> Seq<char>
    decreases ks.len(),
{
    if ks.len() == 0 {
        seq![]
    } else if ks.len() == 1 {
        ks[0]
    } else {
        dash_join(ks.drop_last()) + seq!['-'] + ks.last()
    }
}

/// `s` has a prefix of exactly `n` bytes of UTF-8, made of whole
/// characters.
pub open spec fn has_byte_prefix(s: Seq<char>, n: nat) -> bool {
    exists|k: int| 0 <= k <= s.len() && utf8_len(s.take(k)) == n
}

/// The name of the concept a cluster becomes: its first three keywords
/// joined by `-`, or `pattern-` and the first eight bytes of its first
/// memory id when it has no keyword.
pub open spec fn pattern_concept_name(c: PatternCluster, name: Seq<char>) -> bool {
    if c.keywords@.len() > 0 {
        let n = if c.keywords@.len() < 3 { c.keywords@.len() as int } else { 3 };
        name == dash_join(string_views(c.keywords@).take(n))
    } else {
        exists|k: int| 0 <= k <= c.memory_ids@[0]@.len() && utf8_len(c.memory_ids@[0]@.take(k)) == 8 && name == "pattern-"@ + c.memory_ids@[0]@.take(k)
    }
}

/// The confidence of a concept drawn from `count` memories, in thousandths:
/// one half plus five hundredths per memory, at most nine tenths.
pub open spec fn pattern_confidence(count: nat) -> u32 {
    if count >= 8 { 900 } else { (500 + 50 * count) as u32 }
}

/// `concept` is the concept cluster `c` becomes in memoir `m`.
pub open spec fn concept_of_cluster(c: PatternCluster, m: Seq<char>, concept: Concept) -> bool {
    let nl = if c.keywords@.len() < 5 { c.keywords@.len() as int } else { 5 };
    &&& concept.memoir_id@ == m
    &&& pattern_concept_name(c, concept.name@)
    &&& concept.definition@ == c.representative_summary@ + " (pattern detected across "@ + decimal(c.count as nat) + " memories)"@
    &&& concept.source_memory_ids@ == c.memory_ids@
    &&& concept.confidence == pattern_confidence(c.count as nat)
    &&& concept.labels@.len() == nl
    &&& forall|i: int| 0 <= i < nl ==> (#[trigger] concept.labels@[i]).namespace@ == "pattern"@ && concept.labels@[i].value@ == c.keywords@[i]@
    &&& concept.revision == 1
}

/// The name of the concept a cluster becomes.
fn pattern_name(c: &PatternCluster) -> (name: String)
    requires
        c.keywords@.len() > 0 || (c.memory_ids@.len() > 0 && has_byte_prefix(c.memory_ids@[0]@, 8)),
    ensures
        pattern_concept_name(*c, name@),
{
    if c.keywords.len() > 0 {
        let n: usize = if c.keywords.len() < 3 { c.keywords.len() } else { 3 };
        let ghost ks = string_views(c.keywords@);
        let mut name = owned(c.keywords[0].as_str());
        proof {
            assert(ks.take(1) =~= seq![ks[0]]);
        }
        let mut i: usize = 1;
        while i < n
            invariant
                1 <= i <= n <= c.keywords@.len(),
                ks == string_views(c.keywords@),
                name@ == dash_join(ks.take(i as int)),
            decreases n - i,
        {
            push_char(&mut name, '-');
            push_str(&mut name, c.keywords[i].as_str());
            proof {
                assert(ks.take(i + 1).drop_last() =~= ks.take(i as int));
                assert(ks.take(i + 1).last() == c.keywords@[i as int]@);
                assert(name@ =~= dash_join(ks.take(i + 1)));
            }
            i += 1;
        }
        name
    } else {
        let id = &c.memory_ids[0];
        let head = truncate_at_char_boundary(id.as_str(), 8);
        proof {
            let s = id@;
            let k = choose|k: int| is_char_boundary_truncation(s, 8, k) && head@ == s.take(k);
            let k8 = choose|k8: int| 0 <= k8 <= s.len() && utf8_len(s.take(k8)) == 8;
            if k < k8 {
                lemma_utf8_len_take_mono(s, k + 1, k8);
            } else if k8 < k {
                lemma_utf8_len_take_mono(s, k8 + 1, k);
                assert(utf8_len(s.take(k8 + 1)) > 8) by {
                    crate::text::lemma_utf8_len_take_next(s, k8);
                    assert(crate::text::char_width(s[k8]) >= 1);
                }
            }
            assert(k == k8);
        }
        concat("pattern-", head.as_str())
    }
}

/// The concept cluster `c` becomes in memoir `memoir_id`, with a fresh id.
pub fn concept_from_cluster(c: &PatternCluster, memoir_id: &str) -> (concept: Concept)
    requires
        c.keywords@.len() > 0 || (c.memory_ids@.len() > 0 && has_byte_prefix(c.memory_ids@[0]@, 8)),
    ensures
        concept_of_cluster(*c, memoir_id@, concept),
{
    let name = pattern_name(c);
    let mut definition = owned(c.representative_summary.as_str());
    push_str(&mut definition, " (pattern detected across ");
    let count = decimal_string(c.count);
    push_str(&mut definition, count.as_str());
    push_str(&mut definition, " memories)");
    let mut concept = Concept::new(owned(memoir_id), name, definition);
    concept.source_memory_ids = copy_strings(&c.memory_ids);
    concept.confidence = if c.count >= 8 { 900 } else { 500 + 50 * (c.count as u32) };
    let nl: usize = if c.keywords.len() < 5 { c.keywords.len() } else { 5 };
    let mut labels: Vec<Label> = Vec::new();
    let mut i: usize = 0;
    while i < nl
        invariant
            i <= nl <= c.keywords@.len(),
            labels@.len() == i,
            forall|j: int| 0 <= j < i ==> (#[trigger] labels@[j]).namespace@ == "pattern"@ && labels@[j].value@ == c.keywords@[j]@,
        decreases nl - i,
    {
        labels.push(Label::new("pattern", c.keywords[i].as_str()));
        i += 1;
    }
    concept.labels = labels;
    proof {
        assert(concept.definition@ =~= c.representative_summary@ + " (pattern detected across "@ + decimal(c.count as nat) + " memories)"@);
    }
    concept
}

impl MemoirTable {
    /// Store the concept pattern `cluster` becomes in memoir `memoir_id`
    /// (see `concept_of_cluster`) and answer its id, as `add_concept` does.
    pub fn extract_pattern_as_concept(&mut self, cluster: &PatternCluster, memoir_id: &str) -> (r: IcmResult<String>)
        requires
            old(self).wf(),
            cluster.keywords@.len() > 0 || (cluster.memory_ids@.len() > 0 && has_byte_prefix(cluster.memory_ids@[0]@, 8)),
        ensures
            final(self).wf(),
            exists|c: Concept| #[trigger] concept_of_cluster(*cluster, memoir_id@, c) && add_concept_effect(*old(self), *final(self), c, r),
    {
        let concept = concept_from_cluster(cluster, memoir_id);
        let ghost c = concept;
        let r = self.add_concept(concept);
        proof {
            assert(concept_of_cluster(*cluster, memoir_id@, c));
        }
        r
    }
}

} // verus!
