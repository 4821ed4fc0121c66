use wordnet_graph::graph::{classify_file, FileKind};
use wordnet_graph::ids::{ILIID, PartOfSpeech, PosKey, SenseId, SynsetId};
use wordnet_graph::members::{bucket_of_lowered, entry_key};
use wordnet_graph::negotiation::{negotiated, ContentNegotiation, NegotiatedResponse};
use wordnet_graph::relations::{SenseRel, SynsetRel};
use wordnet_graph::text::{concat_str, ends_with, starts_with};
use wordnet_graph::wordnet::{Entries, Entry, Example, WordNetYAMLIOError};

#[test]
fn part_of_speech_codes() {
    assert_eq!(PartOfSpeech::from_str("n"), Ok(PartOfSpeech::n));
    assert_eq!(PartOfSpeech::from_str("s"), Ok(PartOfSpeech::s));
    assert_eq!(PartOfSpeech::from_str("x"), Err("Unknown part of speech: x".to_string()));
    assert_eq!(PartOfSpeech::from_str("nn"), Err("Unknown part of speech: nn".to_string()));
    assert_eq!(PartOfSpeech::v.str(), "v");
    assert_eq!(PartOfSpeech::s.as_long_string(), "adjective_satellite");
    assert_eq!(PartOfSpeech::r.as_long_string(), "adverb");
}

#[test]
fn pos_key_variant_index() {
    assert_eq!(PosKey("n".to_string()).entry_no(), None);
    assert_eq!(PosKey("n-".to_string()).entry_no(), None);
    assert_eq!(PosKey("n-1".to_string()).entry_no(), Some(1));
    assert_eq!(PosKey("v-12".to_string()).entry_no(), Some(12));
    assert_eq!(PosKey("v-+7".to_string()).entry_no(), Some(7));
    assert_eq!(PosKey("v-x".to_string()).entry_no(), None);
    assert_eq!(PosKey("v-4294967295".to_string()).entry_no(), Some(4294967295));
    assert_eq!(PosKey("v-4294967296".to_string()).entry_no(), None);
}

#[test]
fn bucket_of_headword() {
    assert_eq!(entry_key("dog"), "d");
    assert_eq!(entry_key("Dog"), "d");
    assert_eq!(entry_key("1st"), "0");
    assert_eq!(entry_key("éclair"), "0");
    assert_eq!(bucket_of_lowered("dog"), "d");
    assert_eq!(bucket_of_lowered("Dog"), "0");
    assert_eq!(bucket_of_lowered(""), "0");
}

#[test]
fn source_file_names() {
    assert_eq!(classify_file("entries-a.yaml"), FileKind::Entries("a".to_string()));
    assert_eq!(classify_file("entries-0.yaml"), FileKind::Entries("0".to_string()));
    assert_eq!(classify_file("noun.animal.yaml"), FileKind::Synsets("noun.animal".to_string()));
    assert_eq!(classify_file("frames.yaml"), FileKind::Ignored);
    assert_eq!(classify_file("README.md"), FileKind::Ignored);
}

#[test]
fn identifiers() {
    assert_eq!(SynsetId::new("S1").to_string(), "S1");
    assert_eq!(SenseId::new("dog-n-1").to_string(), "dog-n-1");
    assert!(SynsetId::new("a").same(&SynsetId::new("a")));
    assert!(!SynsetId::new("a").same(&SynsetId::new("b")));
    assert_eq!(ILIID::new("i1"), ILIID("i1".to_string()));
}

#[test]
fn example_forms_agree() {
    let a = Example::from_pair("text", "t".to_string(), "source", "s".to_string());
    let b = Example::from_pair("source", "s".to_string(), "text", "t".to_string());
    assert_eq!(a, b);
    assert_eq!(a, Some(Example { text: "t".to_string(), source: Some("s".to_string()) }));
    assert_eq!(Example::from_pair("text", "t".to_string(), "other", "s".to_string()), None);
    assert_eq!(Example::from_text("bare".to_string()), Example { text: "bare".to_string(), source: None });
}

#[test]
fn load_error_messages() {
    assert_eq!(WordNetYAMLIOError::Io("no dir".to_string()).message(), "Could not load WordNet: no dir");
    assert_eq!(WordNetYAMLIOError::Serde("bad".to_string()).message(), "Could not load WordNet: bad");
}

#[test]
fn entries_by_lemma() {
    let e = |k: &str| Entry { sense: Vec::new(), form: vec![k.to_string()], pronunciation: Vec::new(), poskey: None };
    let es = Entries(vec![
        ("dog".to_string(), vec![(PosKey("n".to_string()), e("n")), (PosKey("v".to_string()), e("v"))]),
        ("dogma".to_string(), vec![(PosKey("n".to_string()), e("x"))]),
    ]);
    let got: Vec<String> = es.entry_by_lemma("dog").iter().map(|x| x.form[0].clone()).collect();
    assert_eq!(got, vec!["n", "v"]);
    assert!(es.entry_by_lemma("do").is_empty());
}

#[test]
fn negotiation_by_extension_and_header() {
    let page = "<html/>";
    assert_eq!(negotiated("lemma", "dog.rdf", page, ContentNegotiation::Html), NegotiatedResponse::Redirect("/rdf/lemma/dog".to_string()));
    assert_eq!(negotiated("id", "S1.ttl", page, ContentNegotiation::Json), NegotiatedResponse::Redirect("/ttl/id/S1".to_string()));
    assert_eq!(negotiated("id", "S1.json", page, ContentNegotiation::Html), NegotiatedResponse::Redirect("/json/id/S1".to_string()));
    assert_eq!(negotiated("id", "S1.html", page, ContentNegotiation::Json), NegotiatedResponse::Html(page));
    assert_eq!(negotiated("id", "S1", page, ContentNegotiation::Html), NegotiatedResponse::Html(page));
    assert_eq!(negotiated("ili", "i1", page, ContentNegotiation::Turtle), NegotiatedResponse::Redirect("/ttl/ili/i1".to_string()));
    assert_eq!(negotiated("id", "S1.json.rdf", page, ContentNegotiation::Html), NegotiatedResponse::Redirect("/json/id/S1".to_string()));
    let accept = |v: &[&str]| ContentNegotiation::from_accept(&v.iter().map(|s| s.to_string()).collect());
    assert_eq!(accept(&["application/rdf+xml"]), ContentNegotiation::RdfXml);
    assert_eq!(accept(&["image/png", "application/x-turtle"]), ContentNegotiation::Turtle);
    assert_eq!(accept(&["application/javascript"]), ContentNegotiation::Json);
    assert_eq!(accept(&["text/html", "application/json"]), ContentNegotiation::Html);
    assert_eq!(accept(&[]), ContentNegotiation::Html);
}

#[test]
fn text_helpers() {
    assert!(starts_with("dolphin", "do"));
    assert!(!starts_with("do", "dolphin"));
    assert!(ends_with("a.yaml", ".yaml"));
    assert!(!ends_with("yaml", ".yaml"));
    assert_eq!(concat_str("ab", "cd"), "abcd");
}

#[test]
fn relation_kind_names_and_inverses() {
    assert_eq!(SynsetRel::Hypernym.name(), "hypernym");
    assert_eq!(SynsetRel::from_index(SynsetRel::HoloPart.index()), SynsetRel::HoloPart);
    assert_eq!(SenseRel::Vehicle.inverse(), Some(SenseRel::IsVehicleOf));
    assert_eq!(SenseRel::Derivation.inverse(), Some(SenseRel::Derivation));
    assert_eq!(SenseRel::IsAgentOf.inverse(), None);
    assert_eq!(SenseRel::ExemplifiesSense.name(), "exemplifies_sense");
    let authored = (0..wordnet_graph::relations::SYNSET_REL_COUNT).filter(|&i| SynsetRel::from_index(i).inverse().is_some()).count();
    assert_eq!(authored, 8);
}
