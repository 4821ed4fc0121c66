use wordnet_graph::graph::{add_reverse_links, Graph};
use wordnet_graph::ids::{PartOfSpeech, PosKey, SenseId, SynsetId};
use wordnet_graph::lexicon::Lexicon;
use wordnet_graph::members::materialize;
use wordnet_graph::pipeline::build;
use wordnet_graph::relations::{SenseRel, SynsetRel};
use wordnet_graph::wordnet::{Entry, MemberSynset, Sense, SenseRelation, Synset};

fn synset(id: &str, members: &[&str]) -> Synset {
    let mut s = Synset::new(SynsetId::new(id), format!("definition of {}", id), PartOfSpeech::n);
    for m in members {
        s.members.push(m.to_string());
    }
    s
}

fn entry(senses: Vec<Sense>) -> Entry {
    Entry { sense: senses, form: Vec::new(), pronunciation: Vec::new(), poskey: None }
}

fn add(g: &mut Graph, lemma: &str, key: &str, e: Entry) {
    let bucket = wordnet_graph::members::entry_key(lemma);
    g.add_entry(lemma.to_string(), bucket, PosKey(key.to_string()), e);
}

fn doc<'a>(docs: &'a [MemberSynset], id: &str) -> &'a MemberSynset {
    docs.iter().find(|d| d.id.0 == id).expect("document present")
}

fn ids(v: &[SynsetId]) -> Vec<String> {
    v.iter().map(|x| x.to_string()).collect()
}

/// dog/S1 with hypernym S2 = {canine}.
fn dog_graph() -> Graph {
    let mut g = Graph::new();
    add(&mut g, "dog", "n", entry(vec![Sense::new(SenseId::new("dog-n-1"), SynsetId::new("S1"))]));
    let mut s1 = synset("S1", &["dog"]);
    s1.add_rel(SynsetRel::Hypernym, SynsetId::new("S2"));
    assert!(g.add_synset(SynsetId::new("S1"), "noun.animal".to_string(), s1));
    assert!(g.add_synset(SynsetId::new("S2"), "noun.animal".to_string(), synset("S2", &["canine"])));
    g
}

#[test]
fn end_to_end_dog_hypernym() {
    let g = dog_graph();
    let closed = add_reverse_links(g);
    let lexicon = Lexicon::index(closed.graph());
    let docs = materialize(closed);
    assert_eq!(ids(doc(&docs, "S2").rel(SynsetRel::Hyponym)), vec!["S1".to_string()]);
    assert_eq!(ids(&lexicon.entry_by_lemma("dog")), vec!["S1".to_string()]);
    assert_eq!(doc(&docs, "S1").members[0].lemma, "dog");
    assert_eq!(doc(&docs, "S1").members[0].sense.id.to_string(), "dog-n-1");
    assert!(doc(&docs, "S2").members.is_empty());
}

#[test]
fn agent_edge_gets_inverse_with_swapped_headwords() {
    let mut g = Graph::new();
    let mut hunter = Sense::new(SenseId::new("hunter-n-1"), SynsetId::new("S3"));
    hunter.add_link(SenseRel::Agent, SenseId::new("cat-v-3"));
    add(&mut g, "hunter", "n", entry(vec![hunter]));
    add(&mut g, "cat", "v", entry(vec![Sense::new(SenseId::new("cat-v-3"), SynsetId::new("S4"))]));
    assert!(g.add_synset(SynsetId::new("S3"), "noun.person".to_string(), synset("S3", &["hunter"])));
    assert!(g.add_synset(SynsetId::new("S4"), "verb.motion".to_string(), synset("S4", &["cat"])));
    let docs = materialize(add_reverse_links(g));
    let fwd = doc(&docs, "S3").sense_rel(SenseRel::Agent).clone();
    assert_eq!(fwd, vec![SenseRelation {
        target_synset: SynsetId::new("S4"),
        source_lemma: "hunter".to_string(),
        target_lemma: "cat".to_string(),
    }]);
    let inv = doc(&docs, "S4").sense_rel(SenseRel::IsAgentOf).clone();
    assert_eq!(inv, vec![SenseRelation {
        target_synset: SynsetId::new("S3"),
        source_lemma: "cat".to_string(),
        target_lemma: "hunter".to_string(),
    }]);
    assert!(doc(&docs, "S4").sense_rel(SenseRel::Agent).is_empty());
}

#[test]
fn symmetric_relation_lands_in_same_kind() {
    let mut g = Graph::new();
    let mut hot = Sense::new(SenseId::new("hot-a-1"), SynsetId::new("A1"));
    hot.add_link(SenseRel::Antonym, SenseId::new("cold-a-1"));
    add(&mut g, "hot", "a", entry(vec![hot]));
    add(&mut g, "cold", "a", entry(vec![Sense::new(SenseId::new("cold-a-1"), SynsetId::new("A2"))]));
    assert!(g.add_synset(SynsetId::new("A1"), "adj.all".to_string(), synset("A1", &["hot"])));
    assert!(g.add_synset(SynsetId::new("A2"), "adj.all".to_string(), synset("A2", &["cold"])));
    let docs = materialize(add_reverse_links(g));
    assert_eq!(doc(&docs, "A1").sense_rel(SenseRel::Antonym).len(), 1);
    let back = &doc(&docs, "A2").sense_rel(SenseRel::Antonym)[0];
    assert_eq!(back.target_synset.to_string(), "A1");
    assert_eq!(back.source_lemma, "cold");
    assert_eq!(back.target_lemma, "hot");
}

#[test]
fn unresolvable_sense_target_adds_nothing() {
    let mut g = Graph::new();
    let mut s = Sense::new(SenseId::new("run-v-1"), SynsetId::new("V1"));
    s.add_link(SenseRel::Instrument, SenseId::new("missing-n-9"));
    add(&mut g, "run", "v", entry(vec![s]));
    assert!(g.add_synset(SynsetId::new("V1"), "verb.motion".to_string(), synset("V1", &["run"])));
    let docs = materialize(add_reverse_links(g));
    assert!(doc(&docs, "V1").sense_rel(SenseRel::Instrument).is_empty());
    assert!(doc(&docs, "V1").sense_rel(SenseRel::IsInstrumentOf).is_empty());
}

#[test]
fn dangling_set_target_is_dropped() {
    let mut g = Graph::new();
    let mut s = synset("X1", &[]);
    s.add_rel(SynsetRel::Hypernym, SynsetId::new("nowhere"));
    assert!(g.add_synset(SynsetId::new("X1"), "noun.Tops".to_string(), s));
    let docs = materialize(add_reverse_links(g));
    assert_eq!(ids(doc(&docs, "X1").rel(SynsetRel::Hypernym)), vec!["nowhere".to_string()]);
    assert!(doc(&docs, "X1").rel(SynsetRel::Hyponym).is_empty());
}

#[test]
fn every_paired_kind_gets_its_inverse() {
    let pairs = [
        (SynsetRel::Hypernym, SynsetRel::Hyponym),
        (SynsetRel::InstanceHypernym, SynsetRel::InstanceHyponym),
        (SynsetRel::MeroMember, SynsetRel::HoloMember),
        (SynsetRel::MeroPart, SynsetRel::HoloPart),
        (SynsetRel::MeroSubstance, SynsetRel::HoloSubstance),
        (SynsetRel::Causes, SynsetRel::IsCausedBy),
        (SynsetRel::Exemplifies, SynsetRel::IsExemplifiedBy),
        (SynsetRel::Entails, SynsetRel::IsEntailedBy),
    ];
    for (k, inv) in pairs {
        assert_eq!(k.inverse(), Some(inv));
        let mut g = Graph::new();
        let mut a = synset("A", &[]);
        a.add_rel(k, SynsetId::new("B"));
        assert!(g.add_synset(SynsetId::new("A"), "x".to_string(), a));
        assert!(g.add_synset(SynsetId::new("B"), "x".to_string(), synset("B", &[])));
        let docs = materialize(add_reverse_links(g));
        assert_eq!(ids(doc(&docs, "B").rel(inv)), vec!["A".to_string()]);
    }
}

#[test]
fn unpaired_kinds_are_not_inverted() {
    for k in [SynsetRel::Similar, SynsetRel::Also, SynsetRel::Attribute, SynsetRel::DomainTopic] {
        assert_eq!(k.inverse(), None);
        let mut g = Graph::new();
        let mut a = synset("A", &[]);
        a.add_rel(k, SynsetId::new("B"));
        assert!(g.add_synset(SynsetId::new("A"), "x".to_string(), a));
        assert!(g.add_synset(SynsetId::new("B"), "x".to_string(), synset("B", &[])));
        let docs = materialize(add_reverse_links(g));
        for i in 0..wordnet_graph::relations::SYNSET_REL_COUNT {
            assert!(doc(&docs, "B").rels[i].is_empty());
        }
    }
}

#[test]
fn closure_adds_one_inverse_per_edge() {
    let mut g = Graph::new();
    let mut a = synset("A", &[]);
    a.add_rel(SynsetRel::Hypernym, SynsetId::new("C"));
    a.add_rel(SynsetRel::Hypernym, SynsetId::new("C"));
    let mut b = synset("B", &[]);
    b.add_rel(SynsetRel::Hypernym, SynsetId::new("C"));
    let mut c = synset("C", &[]);
    c.add_rel(SynsetRel::Hyponym, SynsetId::new("Z"));
    assert!(g.add_synset(SynsetId::new("A"), "x".to_string(), a));
    assert!(g.add_synset(SynsetId::new("B"), "x".to_string(), b));
    assert!(g.add_synset(SynsetId::new("C"), "x".to_string(), c));
    let docs = materialize(add_reverse_links(g));
    assert_eq!(ids(doc(&docs, "C").rel(SynsetRel::Hyponym)), vec!["Z", "A", "A", "B"]);
}

#[test]
fn members_belong_to_their_document() {
    let mut g = Graph::new();
    add(&mut g, "bank", "n", entry(vec![
        Sense::new(SenseId::new("bank-n-1"), SynsetId::new("B1")),
        Sense::new(SenseId::new("bank-n-2"), SynsetId::new("B2")),
    ]));
    add(&mut g, "shore", "n", entry(vec![Sense::new(SenseId::new("shore-n-1"), SynsetId::new("B1"))]));
    assert!(g.add_synset(SynsetId::new("B1"), "noun.object".to_string(), synset("B1", &["bank", "shore", "ghost"])));
    assert!(g.add_synset(SynsetId::new("B2"), "noun.group".to_string(), synset("B2", &["bank"])));
    let docs = materialize(add_reverse_links(g));
    let b1 = doc(&docs, "B1");
    let got: Vec<String> = b1.members.iter().map(|m| m.sense.id.to_string()).collect();
    assert_eq!(got, vec!["bank-n-1", "shore-n-1"]);
    let b2 = doc(&docs, "B2");
    assert_eq!(b2.members.len(), 1);
    assert_eq!(b2.members[0].sense.id.to_string(), "bank-n-2");
}

#[test]
fn member_carries_entry_data_and_variant_index() {
    let mut g = Graph::new();
    let e = Entry {
        sense: vec![Sense::new(SenseId::new("lead-n-2"), SynsetId::new("M1"))],
        form: vec!["leads".to_string()],
        pronunciation: vec![wordnet_graph::wordnet::Pronunciation { value: "lɛd".to_string(), variety: Some("GB".to_string()) }],
        poskey: None,
    };
    add(&mut g, "lead", "n-2", e);
    assert!(g.add_synset(SynsetId::new("M1"), "noun.substance".to_string(), synset("M1", &["lead"])));
    let docs = materialize(add_reverse_links(g));
    let m = &doc(&docs, "M1").members[0];
    assert_eq!(m.form, vec!["leads".to_string()]);
    assert_eq!(m.pronunciation[0].value, "lɛd");
    assert_eq!(m.poskey, Some(PosKey("n-2".to_string())));
    assert_eq!(m.entry_no, Some(2));
    assert_eq!(doc(&docs, "M1").lexname, "noun.substance");
}

#[test]
fn duplicate_or_malformed_synsets_are_refused() {
    let mut g = Graph::new();
    assert!(g.add_synset(SynsetId::new("S"), "x".to_string(), synset("S", &[])));
    assert!(!g.add_synset(SynsetId::new("S"), "y".to_string(), synset("S", &[])));
    let mut bad = synset("T", &[]);
    bad.rels.pop();
    assert!(!g.add_synset(SynsetId::new("T"), "x".to_string(), bad));
    assert_eq!(g.synsets().len(), 1);
}

#[test]
fn ingestion_renames_set_to_its_key() {
    let mut g = Graph::new();
    assert!(g.add_synset(SynsetId::new("real"), "noun.act".to_string(), synset("other", &[])));
    assert_eq!(g.synsets()[0].id.to_string(), "real");
    assert_eq!(g.synsets()[0].lexname, "noun.act");
}

#[test]
fn whole_entry_file_is_filed_in_order() {
    let e = |id: &str| entry(vec![Sense::new(SenseId::new(id), SynsetId::new("S"))]);
    let mut g = Graph::new();
    g.add_entries(
        "d".to_string(),
        wordnet_graph::wordnet::Entries(vec![
            ("dog".to_string(), vec![(PosKey("n".to_string()), e("dog-n")), (PosKey("v".to_string()), e("dog-v"))]),
            ("dolphin".to_string(), vec![(PosKey("n".to_string()), e("dolphin-n"))]),
        ]),
    );
    let got: Vec<(String, String, String, Option<PosKey>)> = g
        .entries()
        .iter()
        .map(|r| (r.lemma.clone(), r.bucket.clone(), r.entry.sense[0].id.to_string(), r.entry.poskey.clone()))
        .collect();
    assert_eq!(got, vec![
        ("dog".to_string(), "d".to_string(), "dog-n".to_string(), Some(PosKey("n".to_string()))),
        ("dog".to_string(), "d".to_string(), "dog-v".to_string(), Some(PosKey("v".to_string()))),
        ("dolphin".to_string(), "d".to_string(), "dolphin-n".to_string(), Some(PosKey("n".to_string()))),
    ]);
}

#[test]
fn whole_synset_file_stops_at_duplicate() {
    let mut g = Graph::new();
    let file = wordnet_graph::wordnet::Synsets(vec![
        (SynsetId::new("A"), synset("x", &[])),
        (SynsetId::new("B"), synset("y", &[])),
    ]);
    assert_eq!(g.add_synsets("noun.Tops".to_string(), file), Ok(()));
    assert_eq!(g.synsets()[1].id.to_string(), "B");
    assert_eq!(g.synsets()[1].lexname, "noun.Tops");
    let again = wordnet_graph::wordnet::Synsets(vec![
        (SynsetId::new("C"), synset("C", &[])),
        (SynsetId::new("A"), synset("A", &[])),
        (SynsetId::new("D"), synset("D", &[])),
    ]);
    assert_eq!(g.add_synsets("verb.body".to_string(), again), Err(SynsetId::new("A")));
    let ids: Vec<String> = g.synsets().iter().map(|s| s.id.to_string()).collect();
    assert_eq!(ids, vec!["A", "B", "C"]);
}

#[test]
fn dangling_source_set_adds_no_inverse() {
    let mut g = Graph::new();
    let mut hunter = Sense::new(SenseId::new("hunter-n-1"), SynsetId::new("missing"));
    hunter.add_link(SenseRel::Agent, SenseId::new("cat-v-3"));
    add(&mut g, "hunter", "n", entry(vec![hunter]));
    add(&mut g, "cat", "v", entry(vec![Sense::new(SenseId::new("cat-v-3"), SynsetId::new("S4"))]));
    assert!(g.add_synset(SynsetId::new("S4"), "verb.motion".to_string(), synset("S4", &["cat"])));
    let docs = materialize(add_reverse_links(g));
    assert!(doc(&docs, "S4").sense_rel(SenseRel::IsAgentOf).is_empty());
}

#[test]
fn file_with_repeated_id_stops_there() {
    let mut g = Graph::new();
    let file = wordnet_graph::wordnet::Synsets(vec![
        (SynsetId::new("A"), synset("A", &[])),
        (SynsetId::new("A"), synset("A", &[])),
        (SynsetId::new("B"), synset("B", &[])),
    ]);
    assert_eq!(g.add_synsets("x".to_string(), file), Err(SynsetId::new("A")));
    assert_eq!(g.synsets().len(), 1);
    let mut bad = synset("C", &[]);
    bad.sense_rels.pop();
    let file = wordnet_graph::wordnet::Synsets(vec![(SynsetId::new("C"), bad)]);
    assert_eq!(g.add_synsets("x".to_string(), file), Err(SynsetId::new("C")));
    assert_eq!(g.synsets().len(), 1);
}

#[test]
fn empty_headword_gives_no_member() {
    let mut g = Graph::new();
    assert!(g.add_synset(SynsetId::new("E"), "x".to_string(), synset("E", &[""])));
    let docs = materialize(add_reverse_links(g));
    assert!(doc(&docs, "E").members.is_empty());
}

#[test]
fn build_gives_indices_and_documents_of_one_graph() {
    let built = build(dog_graph());
    assert_eq!(ids(&built.lexicon.entry_by_lemma("dog")), vec!["S1".to_string()]);
    assert_eq!(ids(doc(&built.documents, "S2").rel(SynsetRel::Hyponym)), vec!["S1".to_string()]);
    assert_eq!(doc(&built.documents, "S1").members[0].lemma, "dog");
}
