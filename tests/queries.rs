use wordnet_graph::graph::{add_reverse_links, Graph};
use wordnet_graph::ids::{ILIID, PartOfSpeech, SynsetId};
use wordnet_graph::lexicon::Lexicon;
use wordnet_graph::store::{decode_index, encode_index};
use wordnet_graph::wordnet::Synset;

fn populated() -> Lexicon {
    let mut g = Graph::new();
    let sets = [("D1", "dog", Some("i1")), ("D2", "Dolphin", Some("i22")), ("C1", "cat", None), ("D3", "dog", Some("i1"))];
    for (id, lemma, ili) in sets {
        let mut s = Synset::new(SynsetId::new(id), "d".to_string(), PartOfSpeech::n);
        s.members.push(lemma.to_string());
        s.ili = ili.map(ILIID::new);
        assert!(g.add_synset(SynsetId::new(id), "noun.animal".to_string(), s));
    }
    Lexicon::index(add_reverse_links(g).graph())
}

fn sorted(mut v: Vec<String>) -> Vec<String> {
    v.sort();
    v
}

#[test]
fn headword_prefix_ignores_case() {
    let l = populated();
    assert_eq!(sorted(l.lemma_by_prefix("do")), vec!["Dolphin".to_string(), "dog".to_string()]);
    assert_eq!(sorted(l.lemma_by_prefix("DO")), vec!["Dolphin".to_string(), "dog".to_string()]);
    assert!(!l.lemma_by_prefix("do").contains(&"cat".to_string()));
    assert_eq!(l.lemma_by_prefix("x"), Vec::<String>::new());
    assert_eq!(l.lemma_by_prefix("").len(), 3);
}

#[test]
fn id_and_external_prefixes_are_case_sensitive() {
    let l = populated();
    assert_eq!(sorted(l.ssid_by_prefix("D")), vec!["D1", "D2", "D3"]);
    assert_eq!(l.ssid_by_prefix("d"), Vec::<String>::new());
    assert_eq!(sorted(l.ili_by_prefix("i2")), vec!["i22"]);
    assert_eq!(sorted(l.ili_by_prefix("i")), vec!["i1", "i22"]);
}

#[test]
fn headword_lookup_is_exact() {
    let l = populated();
    let got: Vec<String> = l.entry_by_lemma("dog").iter().map(|x| x.to_string()).collect();
    assert_eq!(got, vec!["D1", "D3"]);
    assert!(l.entry_by_lemma("Dog").is_empty());
    assert!(l.entry_by_lemma("wolf").is_empty());
}

#[test]
fn external_id_names_last_set_carrying_it() {
    let l = populated();
    assert_eq!(l.synset_id_by_ili("i1"), Some(SynsetId::new("D3")));
    assert_eq!(l.synset_id_by_ili("i22"), Some(SynsetId::new("D2")));
    assert_eq!(l.synset_id_by_ili("i3"), None);
}

#[test]
fn restart_reproduces_query_results() {
    let before = populated();
    let bytes = encode_index(&before);
    let after = decode_index(&bytes).expect("index decodes");
    assert_eq!(after.entries(), before.entries());
    assert_eq!(after.synsets_by_ili(), before.synsets_by_ili());
    assert_eq!(after.synset_ids(), before.synset_ids());
    for p in ["", "d", "do", "DO", "c", "z"] {
        assert_eq!(after.lemma_by_prefix(p), before.lemma_by_prefix(p));
        assert_eq!(after.ssid_by_prefix(p), before.ssid_by_prefix(p));
        assert_eq!(after.ili_by_prefix(p), before.ili_by_prefix(p));
    }
    for h in ["dog", "Dolphin", "cat", "wolf"] {
        assert_eq!(after.entry_by_lemma(h), before.entry_by_lemma(h));
    }
    assert_eq!(after.synset_id_by_ili("i1"), before.synset_id_by_ili("i1"));
}

#[test]
fn index_lists_all_ids_in_order() {
    let l = populated();
    let got: Vec<String> = l.synset_ids().iter().map(|x| x.to_string()).collect();
    assert_eq!(got, vec!["D1", "D2", "C1", "D3"]);
    assert!(Lexicon::new().synset_ids().is_empty());
}

#[test]
fn requests_resolve_by_index() {
    let l = populated();
    assert_eq!(l.resolve_query("id", "X9"), Ok(vec![SynsetId::new("X9")]));
    assert_eq!(l.resolve_query("lemma", "dog"), Ok(vec![SynsetId::new("D1"), SynsetId::new("D3")]));
    assert_eq!(l.resolve_query("ili", "i22"), Ok(vec![SynsetId::new("D2")]));
    assert_eq!(l.resolve_query("ili", "nope"), Ok(vec![]));
    assert_eq!(l.resolve_query("json", "dog"), Err("Invalid index".to_string()));
}

#[test]
fn lowered_headword_prefix() {
    let l = populated();
    let lowered: Vec<String> = l.entries().iter().map(|(k, _)| k.to_lowercase()).collect();
    assert_eq!(sorted(l.lemma_by_lowered_prefix(&lowered, "do")), vec!["Dolphin".to_string(), "dog".to_string()]);
    let unchanged: Vec<String> = l.entries().iter().map(|(k, _)| k.clone()).collect();
    assert_eq!(l.lemma_by_lowered_prefix(&unchanged, "do"), vec!["dog".to_string()]);
}

#[test]
fn repeated_keys_are_refused() {
    let twice = vec![("dog".to_string(), vec![SynsetId::new("A")]), ("dog".to_string(), vec![SynsetId::new("B")])];
    assert!(Lexicon::from_parts(twice, Vec::new(), Vec::new()).is_none());
    let ilis = vec![("i1".to_string(), SynsetId::new("A")), ("i1".to_string(), SynsetId::new("B"))];
    assert!(Lexicon::from_parts(Vec::new(), ilis, Vec::new()).is_none());
    let ok = Lexicon::from_parts(vec![("dog".to_string(), vec![SynsetId::new("A")])], Vec::new(), Vec::new()).expect("distinct keys");
    assert_eq!(ok.entry_by_lemma("dog"), vec![SynsetId::new("A")]);
}
