use wordnet_graph::hbs::{make_synsets_hb, HBSynset, Sense, LICENSE, SITE_URL};
use wordnet_graph::ids::{PartOfSpeech, SenseId, SynsetId};
use wordnet_graph::relations::{SenseRel, SynsetRel};
use wordnet_graph::wordnet::{Example, Member, MemberSense, MemberSynset, SenseRelation, Synset};

fn doc() -> MemberSynset {
    let mut s = Synset::new(SynsetId::new("S1"), "first".to_string(), PartOfSpeech::v);
    s.add_rel(SynsetRel::Also, SynsetId::new("A"));
    s.add_rel(SynsetRel::HoloSubstance, SynsetId::new("H"));
    s.add_rel(SynsetRel::Hypernym, SynsetId::new("P"));
    s.sense_rels[SenseRel::IsAgentOf.index()].push(SenseRelation {
        target_synset: SynsetId::new("T"),
        source_lemma: "cat".to_string(),
        target_lemma: "hunter".to_string(),
    });
    s.sense_rels[SenseRel::Vehicle.index()].push(SenseRelation {
        target_synset: SynsetId::new("V"),
        source_lemma: "x".to_string(),
        target_lemma: "y".to_string(),
    });
    MemberSynset {
        id: SynsetId::new("S1"),
        lexname: "verb.motion".to_string(),
        definition: vec!["first".to_string(), "second".to_string()],
        example: vec![Example { text: "ex".to_string(), source: Some("src".to_string()) }],
        ili: None,
        wikidata: None,
        source: None,
        members: vec![Member {
            lemma: "cat".to_string(),
            sense: MemberSense { id: SenseId::new("cat-v-3"), subcat: vec!["via".to_string()] },
            form: vec![],
            pronunciation: vec![],
            poskey: None,
            entry_no: None,
        }],
        part_of_speech: PartOfSpeech::v,
        rels: s.rels,
        sense_rels: s.sense_rels,
    }
}

#[test]
fn template_record_lists_relations_in_kind_order() {
    let h = HBSynset::from(&doc());
    let got: Vec<(Option<String>, Option<String>, String, String)> = h
        .relations
        .iter()
        .map(|r| (r.src_word.clone(), r.trg_word.clone(), r.rel_type.clone(), r.target.clone()))
        .collect();
    assert_eq!(got, vec![
        (None, None, "also".to_string(), "A".to_string()),
        (None, None, "hypernym".to_string(), "P".to_string()),
        (None, None, "holo_substance".to_string(), "H".to_string()),
        (Some("cat".to_string()), Some("hunter".to_string()), "involved_agent".to_string(), "T".to_string()),
    ]);
    assert_eq!(h.definition, "first");
    assert_eq!(h.examples, vec!["ex".to_string()]);
    assert_eq!(h.subject, "verb.motion");
    assert_eq!(h.pos, PartOfSpeech::v);
    assert_eq!(h.lemmas.len(), 1);
    assert_eq!(h.lemmas[0].sense_key, Some("cat-v-3".to_string()));
    assert_eq!(h.lemmas[0].language, "en");
}

#[test]
fn template_sense_of_member() {
    let d = doc();
    let s = Sense::from(&d.members[0]);
    assert_eq!(s.lemma, "cat");
    assert_eq!(s.subcats, vec!["via".to_string()]);
}

#[test]
fn template_record_without_definition() {
    let mut d = doc();
    d.definition.clear();
    assert_eq!(HBSynset::from(&d).definition, "");
}

#[test]
fn page_groups_records_by_headword_and_category() {
    let mut a = doc();
    a.members.push(Member { lemma: "moggy".to_string(), ..a.members[0].clone() });
    let mut b = doc();
    b.id = SynsetId::new("S2");
    let page = make_synsets_hb(vec![&a, &b], "lemma", "cat");
    let ids: Vec<String> = page.synsets.iter().map(|h| h.id.to_string()).collect();
    assert_eq!(ids, vec!["S1", "S1", "S2"]);
    assert_eq!(page.entries.len(), 1);
    assert_eq!(page.entries[0].0, "en");
    let groups: Vec<(String, Vec<String>)> = page.entries[0]
        .1
        .iter()
        .map(|(k, v)| (k.clone(), v.iter().map(|h| h.id.to_string()).collect()))
        .collect();
    assert_eq!(groups, vec![
        ("cat-v".to_string(), vec!["S1".to_string(), "S2".to_string()]),
        ("moggy-v".to_string(), vec!["S1".to_string()]),
    ]);
    assert_eq!(page.index, "lemma");
    assert_eq!(page.name, "cat");
    assert_eq!(page.license, LICENSE);
    assert_eq!(page.site, SITE_URL);
}

#[test]
fn empty_page_has_no_groups() {
    let page = make_synsets_hb(Vec::new(), "id", "none");
    assert!(page.synsets.is_empty());
    assert!(page.entries.is_empty());
}
