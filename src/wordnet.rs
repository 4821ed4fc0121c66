//! The records of the lexical graph: entries and their senses as ingested,
//! sense sets before and after materialization.

use vstd::prelude::*;
use crate::ids::{ILIID, PartOfSpeech, PosKey, SenseId, SynsetId};
use crate::relations::{SENSE_REL_COUNT, SYNSET_REL_COUNT, SenseRel, SynsetRel};
use crate::text::concat_str;

verus! {

/// A pronunciation of a headword, with the variety of speech it belongs to.
#[derive(Debug, PartialEq)]
pub struct Pronunciation {
    pub value: String,
    pub variety: Option<String>,
}

impl Clone for Pronunciation {
    fn clone(&self) -> (r: Self)
        ensures
            r == *self,
    {
        Pronunciation { value: self.value.clone(), variety: self.variety.clone() }
    }
}

/// A usage example of a definition, with its optional provenance.
#[derive(Debug, PartialEq)]
pub struct Example {
    pub text: String,
    pub source: Option<String>,
}

impl Clone for Example {
    fn clone(&self) -> (r: Self)
        ensures
            r == *self,
    {
        Example { text: self.text.clone(), source: self.source.clone() }
    }
}

/// The example that a two-entry record denotes: one entry keyed `text`, the
/// other keyed `source`, in either order.
pub open spec fn example_of_pair(
    key1: Seq<char>,
    val1: Seq<char>,
    key2: Seq<char>,
    val2: Seq<char>,
) -> Option<(Seq<char>, Seq<char>)> {
    if key1 == "text"@ && key2 == "source"@ {
        Some((val1, val2))
    } else if key1 == "source"@ && key2 == "text"@ {
        Some((val2, val1))
    } else {
        None
    }
}

impl Example {
    /// The example written as a bare string: it has no provenance.
    pub fn from_text(text: String) -> (r: Example)
        ensures
            r.text == text,
            r.source is None,
    {
        Example { text, source: None }
    }

    /// The example written as a record of two entries, `text` and `source`, in
    /// either order; any other pair of keys is refused.
    pub fn from_pair(key1: &str, val1: String, key2: &str, val2: String) -> (r: Option<Example>)
        ensures
            match example_of_pair(key1@, val1@, key2@, val2@) {
                Some((t, s)) => r is Some && r->0.text@ == t && r->0.source is Some
                    && r->0.source->0@ == s,
                None => r is None,
            },
    {
        let k1 = key1.to_owned();
        let k2 = key2.to_owned();
        let text_key = "text".to_owned();
        let source_key = "source".to_owned();
        if k1 == text_key && k2 == source_key {
            Some(Example { text: val1, source: Some(val2) })
        } else if k1 == source_key && k2 == text_key {
            Some(Example { text: val2, source: Some(val1) })
        } else {
            None
        }
    }
}

/// A resolved sense-level relation lifted to sense sets.
#[derive(Debug, PartialEq)]
pub struct SenseRelation {
    pub target_synset: SynsetId,
    pub source_lemma: String,
    pub target_lemma: String,
}

impl Clone for SenseRelation {
    fn clone(&self) -> (r: Self)
        ensures
            r == *self,
    {
        SenseRelation {
            target_synset: self.target_synset.clone(),
            source_lemma: self.source_lemma.clone(),
            target_lemma: self.target_lemma.clone(),
        }
    }
}

/// One headword's participation in one sense set, with the sense relations
/// authored on it: one list of target senses per kind, indexed like the
/// sense-level lists of a sense set. Closure reads only the kinds that have an
/// inverse; the lists of derived kinds stay empty in source data.
#[derive(Debug, PartialEq, Clone)]
pub struct Sense {
    pub id: SenseId,
    pub synset: SynsetId,
    pub adjposition: Option<String>,
    pub subcat: Vec<String>,
    pub links: Vec<Vec<SenseId>>,
}

/// The targets of kind `k` authored on a sense (none where its table is short).
pub open spec fn sense_links(s: Sense, k: SenseRel) -> Seq<SenseId> {
    if k.idx() < s.links@.len() {
        s.links@[k.idx()]@
    } else {
        Seq::empty()
    }
}

impl Sense {
    /// A sense with no subcategories and no relations.
    pub fn new(id: SenseId, synset: SynsetId) -> (r: Sense)
        ensures
            r.id == id,
            r.synset == synset,
            r.adjposition is None,
            r.subcat@.len() == 0,
            r.links@.len() == SENSE_REL_COUNT,
            forall|k: SenseRel| #[trigger] sense_links(r, k).len() == 0,
    {
        let mut links: Vec<Vec<SenseId>> = Vec::new();
        let mut i: usize = 0;
        while i < SENSE_REL_COUNT
            invariant
                i <= SENSE_REL_COUNT,
                links@.len() == i,
                forall|j: int| 0 <= j < i ==> (#[trigger] links@[j])@.len() == 0,
            decreases SENSE_REL_COUNT - i,
        {
            links.push(Vec::new());
            i = i + 1;
        }
        Sense { id, synset, adjposition: None, subcat: Vec::new(), links }
    }

    /// Records one more target of kind `k` on this sense.
    pub fn add_link(&mut self, k: SenseRel, target: SenseId)
        requires
            old(self).links@.len() == SENSE_REL_COUNT,
        ensures
            final(self).id == old(self).id,
            final(self).synset == old(self).synset,
            final(self).adjposition == old(self).adjposition,
            final(self).subcat == old(self).subcat,
            final(self).links@.len() == SENSE_REL_COUNT,
            sense_links(*final(self), k) == sense_links(*old(self), k).push(target),
            forall|k2: SenseRel| k2 != k ==> #[trigger] sense_links(*final(self), k2) == sense_links(*old(self), k2),
    {
        proof {
            crate::relations::lemma_sense_rel_idx(k, k);
        }
        let i = k.index();
        self.links[i].push(target);
        assert forall|k2: SenseRel| k2 != k implies #[trigger] sense_links(*self, k2) == sense_links(*old(self), k2) by {
            crate::relations::lemma_sense_rel_idx(k2, k);
        }
    }
}

/// A lexical entry: the senses of one headword under one pos key, with its
/// surface forms and pronunciations.
#[derive(Debug, PartialEq, Clone)]
pub struct Entry {
    pub sense: Vec<Sense>,
    pub form: Vec<String>,
    pub pronunciation: Vec<Pronunciation>,
    pub poskey: Option<PosKey>,
}

/// The entries of one bucket: for each headword, its entries by pos key.
#[derive(Debug, PartialEq)]
pub struct Entries(pub Vec<(String, Vec<(PosKey, Entry)>)>);

impl Entries {
    /// The entries filed under `lemma`, in pos-key order (none if the headword
    /// is absent; the first group of that headword if it were repeated).
    pub fn entry_by_lemma(&self, lemma: &str) -> (r: Vec<&Entry>)
        ensures
            (exists|i: int| 0 <= i < self.0@.len() && #[trigger] self.0@[i].0@ == lemma@) ==> {
                let i = choose|i: int| 0 <= i < self.0@.len() && #[trigger] self.0@[i].0@ == lemma@
                    && forall|j: int| 0 <= j < i ==> #[trigger] self.0@[j].0@ != lemma@;
                &&& r@.len() == self.0@[i].1@.len()
                &&& forall|j: int| 0 <= j < r@.len() ==> *r@[j] == #[trigger] self.0@[i].1@[j].1
            },
            (forall|i: int| 0 <= i < self.0@.len() ==> #[trigger] self.0@[i].0@ != lemma@) ==> r@.len() == 0,
    {
        let key = lemma.to_owned();
        let mut i: usize = 0;
        while i < self.0.len()
            invariant
                key@ == lemma@,
                i <= self.0@.len(),
                forall|j: int| 0 <= j < i ==> #[trigger] self.0@[j].0@ != lemma@,
            decreases self.0@.len() - i,
        {
            if self.0[i].0 == key {
                let group = &self.0[i].1;
                let mut r: Vec<&Entry> = Vec::new();
                let mut j: usize = 0;
                while j < group.len()
                    invariant
                        j <= group@.len(),
                        r@.len() == j,
                        forall|x: int| 0 <= x < j ==> *r@[x] == #[trigger] group@[x].1,
                    decreases group@.len() - j,
                {
                    r.push(&group[j].1);
                    j = j + 1;
                }
                assert(self.0@[i as int].0@ == lemma@);
                return r;
            }
            i = i + 1;
        }
        Vec::new()
    }
}

/// A sense set as ingested: definitions and examples, members by headword,
/// set-to-set relation lists and sense-level relation lists, one per kind.
#[derive(Debug, PartialEq, Clone)]
pub struct Synset {
    pub id: SynsetId,
    pub lexname: String,
    pub definition: Vec<String>,
    pub example: Vec<Example>,
    pub ili: Option<ILIID>,
    pub wikidata: Option<String>,
    pub source: Option<String>,
    pub members: Vec<String>,
    pub part_of_speech: PartOfSpeech,
    pub rels: Vec<Vec<SynsetId>>,
    pub sense_rels: Vec<Vec<SenseRelation>>,
}

/// Both relation tables of a sense set hold one list per kind.
pub open spec fn rel_tables_wf(rels: Seq<Vec<SynsetId>>, sense_rels: Seq<Vec<SenseRelation>>) -> bool {
    rels.len() == SYNSET_REL_COUNT && sense_rels.len() == SENSE_REL_COUNT
}

/// The list of kind `k` of a sense set.
pub open spec fn synset_rel(s: Synset, k: SynsetRel) -> Seq<SynsetId> {
    s.rels@[k.idx()]@
}

/// The sense-level list of kind `k` of a sense set.
pub open spec fn synset_sense_rel(s: Synset, k: SenseRel) -> Seq<SenseRelation> {
    s.sense_rels@[k.idx()]@
}

/// A table of `n` empty lists.
fn empty_table<T>(n: usize) -> (r: Vec<Vec<T>>)
    ensures
        r@.len() == n,
        forall|j: int| 0 <= j < n ==> (#[trigger] r@[j])@.len() == 0,
{
    let mut r: Vec<Vec<T>> = Vec::new();
    let mut i: usize = 0;
    while i < n
        invariant
            i <= n,
            r@.len() == i,
            forall|j: int| 0 <= j < i ==> (#[trigger] r@[j])@.len() == 0,
        decreases n - i,
    {
        r.push(Vec::new());
        i = i + 1;
    }
    r
}

impl Synset {
    pub open spec fn wf(&self) -> bool {
        rel_tables_wf(self.rels@, self.sense_rels@)
    }

    /// A sense set with one definition and nothing else.
    pub fn new(id: SynsetId, definition: String, part_of_speech: PartOfSpeech) -> (r: Synset)
        ensures
            r.wf(),
            r.id == id,
            r.lexname@.len() == 0,
            r.definition@ == seq![definition],
            r.example@.len() == 0,
            r.ili is None,
            r.wikidata is None,
            r.source is None,
            r.members@.len() == 0,
            r.part_of_speech == part_of_speech,
            forall|k: SynsetRel| #[trigger] synset_rel(r, k).len() == 0,
            forall|k: SenseRel| #[trigger] synset_sense_rel(r, k).len() == 0,
    {
        let mut definitions: Vec<String> = Vec::new();
        definitions.push(definition);
        let r = Synset {
            id,
            lexname: String::new(),
            definition: definitions,
            example: Vec::new(),
            ili: None,
            wikidata: None,
            source: None,
            members: Vec::new(),
            part_of_speech,
            rels: empty_table(SYNSET_REL_COUNT),
            sense_rels: empty_table(SENSE_REL_COUNT),
        };
        assert forall|k: SynsetRel| #[trigger] synset_rel(r, k).len() == 0 by {
            crate::relations::lemma_synset_rel_idx(k, k);
        }
        assert forall|k: SenseRel| #[trigger] synset_sense_rel(r, k).len() == 0 by {
            crate::relations::lemma_sense_rel_idx(k, k);
        }
        r
    }

    /// The list of kind `k`.
    pub fn rel(&self, k: SynsetRel) -> (r: &Vec<SynsetId>)
        requires
            self.wf(),
        ensures
            r@ == synset_rel(*self, k),
    {
        &self.rels[k.index()]
    }

    /// Appends one target to the list of kind `k`.
    pub fn add_rel(&mut self, k: SynsetRel, target: SynsetId)
        requires
            old(self).wf(),
        ensures
            final(self).wf(),
            synset_rel(*final(self), k) == synset_rel(*old(self), k).push(target),
            forall|k2: SynsetRel| k2 != k ==> #[trigger] synset_rel(*final(self), k2) == synset_rel(*old(self), k2),
            synset_same_except_rels(*old(self), *final(self)),
            final(self).sense_rels == old(self).sense_rels,
    {
        let i = k.index();
        self.rels[i].push(target);
        assert forall|k2: SynsetRel| k2 != k implies #[trigger] synset_rel(*self, k2) == synset_rel(*old(self), k2) by {
            crate::relations::lemma_synset_rel_idx(k2, k);
        }
    }
}

/// Two sense sets agree on everything but their relation lists.
pub open spec fn synset_same_except_rels(a: Synset, b: Synset) -> bool {
    &&& a.id == b.id
    &&& a.lexname == b.lexname
    &&& a.definition == b.definition
    &&& a.example == b.example
    &&& a.ili == b.ili
    &&& a.wikidata == b.wikidata
    &&& a.source == b.source
    &&& a.members == b.members
    &&& a.part_of_speech == b.part_of_speech
}

/// The sense sets of one category file, by identifier.
#[derive(Debug, PartialEq)]
pub struct Synsets(pub Vec<(SynsetId, Synset)>);

/// The sense of a member: its identifier and subcategory tags.
#[derive(Debug, PartialEq, Clone)]
pub struct MemberSense {
    pub id: SenseId,
    pub subcat: Vec<String>,
}

/// A member of a materialized sense set: the headword with its sense in the
/// set and the data of the entry it comes from.
#[derive(Debug, PartialEq, Clone)]
pub struct Member {
    pub lemma: String,
    pub sense: MemberSense,
    pub form: Vec<String>,
    pub pronunciation: Vec<Pronunciation>,
    pub poskey: Option<PosKey>,
    pub entry_no: Option<u32>,
}

/// A sense set whose relations are closed and whose members carry their
/// entry data: the self-contained document that the store holds.
#[derive(Debug, PartialEq, Clone)]
pub struct MemberSynset {
    pub id: SynsetId,
    pub lexname: String,
    pub definition: Vec<String>,
    pub example: Vec<Example>,
    pub ili: Option<ILIID>,
    pub wikidata: Option<String>,
    pub source: Option<String>,
    pub members: Vec<Member>,
    pub part_of_speech: PartOfSpeech,
    pub rels: Vec<Vec<SynsetId>>,
    pub sense_rels: Vec<Vec<SenseRelation>>,
}

impl MemberSynset {
    pub open spec fn wf(&self) -> bool {
        rel_tables_wf(self.rels@, self.sense_rels@)
    }

    pub open spec fn rel_spec(&self, k: SynsetRel) -> Seq<SynsetId> {
        self.rels@[k.idx()]@
    }

    pub open spec fn sense_rel_spec(&self, k: SenseRel) -> Seq<SenseRelation> {
        self.sense_rels@[k.idx()]@
    }

    /// The list of kind `k`.
    pub fn rel(&self, k: SynsetRel) -> (r: &Vec<SynsetId>)
        requires
            self.wf(),
        ensures
            r@ == self.rel_spec(k),
    {
        &self.rels[k.index()]
    }

    /// The sense-level list of kind `k`.
    pub fn sense_rel(&self, k: SenseRel) -> (r: &Vec<SenseRelation>)
        requires
            self.wf(),
        ensures
            r@ == self.sense_rel_spec(k),
    {
        &self.sense_rels[k.index()]
    }
}

/// Why ingestion of the source files failed.
#[derive(Debug, PartialEq)]
pub enum WordNetYAMLIOError {
    Io(String),
    Serde(String),
}

impl WordNetYAMLIOError {
    /// The operator-facing message.
    pub fn message(&self) -> (r: String)
        ensures
            r@ == "Could not load WordNet: "@ + match self {
                WordNetYAMLIOError::Io(m) => m@,
                WordNetYAMLIOError::Serde(m) => m@,
            },
    {
        match self {
            WordNetYAMLIOError::Io(m) => concat_str("Could not load WordNet: ", m.as_str()),
            WordNetYAMLIOError::Serde(m) => concat_str("Could not load WordNet: ", m.as_str()),
        }
    }
}

} // verus!
