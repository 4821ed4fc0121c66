use wordnet_graph::ids::{ILIID, PartOfSpeech, PosKey, SenseId, SynsetId};
use wordnet_graph::relations::{SenseRel, SynsetRel};
use wordnet_graph::store::{decode_document, decode_index, encode_document};
use wordnet_graph::wordnet::{Example, Member, MemberSense, MemberSynset, Pronunciation, SenseRelation, Synset};

fn sample() -> MemberSynset {
    let mut s = Synset::new(SynsetId::new("oewn-02084071-n"), "a domesticated canid".to_string(), PartOfSpeech::n);
    s.add_rel(SynsetRel::Hypernym, SynsetId::new("oewn-02083346-n"));
    s.add_rel(SynsetRel::Hyponym, SynsetId::new("oewn-01322604-n"));
    s.sense_rels[SenseRel::Agent.index()].push(SenseRelation {
        target_synset: SynsetId::new("S4"),
        source_lemma: "dog".to_string(),
        target_lemma: "café ☕".to_string(),
    });
    MemberSynset {
        id: s.id.clone(),
        lexname: "noun.animal".to_string(),
        definition: vec!["a domesticated canid".to_string(), "second".to_string()],
        example: vec![
            Example { text: "the dog barked".to_string(), source: None },
            Example { text: "quoted".to_string(), source: Some("a book".to_string()) },
        ],
        ili: Some(ILIID::new("i46360")),
        wikidata: None,
        source: Some("Princeton".to_string()),
        members: vec![Member {
            lemma: "dog".to_string(),
            sense: MemberSense { id: SenseId::new("dog%1:05:00::"), subcat: vec!["vt".to_string()] },
            form: vec!["dogs".to_string()],
            pronunciation: vec![Pronunciation { value: "dɒɡ".to_string(), variety: Some("GB".to_string()) }],
            poskey: Some(PosKey("n-1".to_string())),
            entry_no: Some(1),
        }],
        part_of_speech: PartOfSpeech::n,
        rels: s.rels,
        sense_rels: s.sense_rels,
    }
}

#[test]
fn document_round_trip_is_identical() {
    let d = sample();
    let bytes = encode_document(&d);
    assert_eq!(decode_document(&bytes), Some(d));
}

#[test]
fn empty_document_round_trip() {
    let d = MemberSynset {
        id: SynsetId::new(""),
        lexname: String::new(),
        definition: Vec::new(),
        example: Vec::new(),
        ili: None,
        wikidata: None,
        source: None,
        members: Vec::new(),
        part_of_speech: PartOfSpeech::s,
        rels: Vec::new(),
        sense_rels: Vec::new(),
    };
    assert_eq!(decode_document(&encode_document(&d)), Some(d));
}

#[test]
fn truncated_or_extended_bytes_are_refused() {
    let bytes = encode_document(&sample());
    assert_eq!(decode_document(&bytes[..bytes.len() - 1].to_vec()), None);
    let mut longer = bytes.clone();
    longer.push(0);
    assert_eq!(decode_document(&longer), None);
    assert_eq!(decode_document(&Vec::new()), None);
    assert!(decode_index(&vec![1, 2, 3]).is_none());
}

#[test]
fn invalid_utf8_is_refused() {
    let d = MemberSynset { id: SynsetId::new("ab"), ..sample() };
    let mut bytes = encode_document(&d);
    // the identifier comes first: eight length bytes, then its two bytes
    assert_eq!(bytes[0], 2);
    assert_eq!(&bytes[8..10], b"ab");
    bytes[8] = 0xff;
    assert_eq!(decode_document(&bytes), None);
}

#[test]
fn lengths_are_little_endian() {
    let d = MemberSynset { id: SynsetId::new(&"x".repeat(300)), ..sample() };
    let bytes = encode_document(&d);
    assert_eq!(&bytes[0..8], &[44, 1, 0, 0, 0, 0, 0, 0]);
}
