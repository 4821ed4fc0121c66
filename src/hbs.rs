//! Flat records of sense sets for rendering templates: the members as
//! senses, and every relation as one typed link.

use vstd::prelude::*;
use crate::ids::{ILIID, PartOfSpeech, SynsetId, pos_code};
use crate::lexicon::{keys_unique, lemma_lookup_unique, lookup_first};
use crate::text::concat_str;
use crate::relations::{SENSE_REL_COUNT, SYNSET_REL_COUNT, SenseRel, SynsetRel};
use crate::wordnet::{Member, MemberSynset, Pronunciation};

verus! {

/// A member of a sense set as templates see it.
#[derive(Debug, PartialEq, Clone)]
pub struct Sense {
    pub lemma: String,
    pub language: String,
    pub forms: Vec<String>,
    pub sense_key: Option<String>,
    pub subcats: Vec<String>,
    pub pronunciations: Vec<Pronunciation>,
}

/// One relation of a sense set as templates see it; sense-level relations
/// carry the headwords at both ends.
#[derive(Debug, PartialEq, Clone)]
pub struct Relation {
    pub src_word: Option<String>,
    pub trg_word: Option<String>,
    pub rel_type: String,
    pub target: String,
}

/// A sense set as templates see it.
#[derive(Debug, PartialEq, Clone)]
pub struct HBSynset {
    pub definition: String,
    pub examples: Vec<String>,
    pub lemmas: Vec<Sense>,
    pub id: SynsetId,
    pub ili: Option<ILIID>,
    pub pos: PartOfSpeech,
    pub subject: String,
    pub relations: Vec<Relation>,
}

/// `s` is the template sense of member `m`.
pub open spec fn hb_sense_of(s: Sense, m: Member) -> bool {
    &&& s.lemma@ == m.lemma@
    &&& s.language@ == "en"@
    &&& s.forms@ == m.form@
    &&& s.sense_key is Some
    &&& s.sense_key->0@ == m.sense.id@
    &&& s.subcats@ == m.sense.subcat@
    &&& s.pronunciations@ == m.pronunciation@
}

impl Sense {
    pub fn from(entry: &Member) -> (r: Sense)
        ensures
            hb_sense_of(r, *entry),
    {
        let forms = entry.form.clone();
        let subcats = entry.sense.subcat.clone();
        let pronunciations = entry.pronunciation.clone();
        assert(forms@ =~= entry.form@);
        assert(subcats@ =~= entry.sense.subcat@);
        assert(pronunciations@ =~= entry.pronunciation@);
        Sense {
            lemma: entry.lemma.clone(),
            language: "en".to_owned(),
            forms,
            sense_key: Some(entry.sense.id.to_string()),
            subcats,
            pronunciations,
        }
    }
}

/// A relation link as plain values: source and target headwords (sense-level
/// links only), type, and target sense set.
pub type LinkView = (Option<Seq<char>>, Option<Seq<char>>, Seq<char>, Seq<char>);

pub open spec fn relation_view(r: Relation) -> LinkView {
    (
        match r.src_word {
            Some(w) => Some(w@),
            None => None,
        },
        match r.trg_word {
            Some(w) => Some(w@),
            None => None,
        },
        r.rel_type@,
        r.target@,
    )
}

/// Number of sense-level kinds shown to templates.
pub const HB_SENSE_KINDS: usize = 13;

/// The sense-level kinds shown to templates, in order, with the type name
/// each is shown under.
pub open spec fn hb_sense_kind(i: int) -> (SenseRel, Seq<char>) {
    if i == 0 {
        (SenseRel::Antonym, "antonym"@)
    } else if i == 1 {
        (SenseRel::Participle, "participle"@)
    } else if i == 2 {
        (SenseRel::IsParticipleOf, "is_participle_of"@)
    } else if i == 3 {
        (SenseRel::Pertainym, "pertainym"@)
    } else if i == 4 {
        (SenseRel::IsPertainymOf, "is_pertainym_of"@)
    } else if i == 5 {
        (SenseRel::Derivation, "derivation"@)
    } else if i == 6 {
        (SenseRel::ExemplifiesSense, "exemplifies"@)
    } else if i == 7 {
        (SenseRel::Agent, "agent"@)
    } else if i == 8 {
        (SenseRel::IsAgentOf, "involved_agent"@)
    } else if i == 9 {
        (SenseRel::Instrument, "instrument"@)
    } else if i == 10 {
        (SenseRel::IsInstrumentOf, "involved_instrument"@)
    } else if i == 11 {
        (SenseRel::Location, "location"@)
    } else {
        (SenseRel::IsLocationOf, "involved_location"@)
    }
}

fn hb_sense_kind_at(i: usize) -> (r: (SenseRel, &'static str))
    requires
        i < HB_SENSE_KINDS,
    ensures
        r.0 == hb_sense_kind(i as int).0,
        r.1@ == hb_sense_kind(i as int).1,
{
    match i {
        0 => (SenseRel::Antonym, "antonym"),
        1 => (SenseRel::Participle, "participle"),
        2 => (SenseRel::IsParticipleOf, "is_participle_of"),
        3 => (SenseRel::Pertainym, "pertainym"),
        4 => (SenseRel::IsPertainymOf, "is_pertainym_of"),
        5 => (SenseRel::Derivation, "derivation"),
        6 => (SenseRel::ExemplifiesSense, "exemplifies"),
        7 => (SenseRel::Agent, "agent"),
        8 => (SenseRel::IsAgentOf, "involved_agent"),
        9 => (SenseRel::Instrument, "instrument"),
        10 => (SenseRel::IsInstrumentOf, "involved_instrument"),
        11 => (SenseRel::Location, "location"),
        _ => (SenseRel::IsLocationOf, "involved_location"),
    }
}

/// The set-to-set links of the first `n` kinds of `s`, kind by kind.
pub open spec fn synset_links(s: MemberSynset, n: int) -> Seq<LinkView>
    decreases n,
{
    if n <= 0 {
        Seq::empty()
    } else {
        synset_links(s, n - 1) + s.rels@[n - 1]@.map_values(
            |t: SynsetId| (None::<Seq<char>>, None::<Seq<char>>, SynsetRel::at(n - 1).name_spec(), t@),
        )
    }
}

/// The sense-level links of the first `n` shown kinds of `s`, kind by kind.
pub open spec fn sense_links_shown(s: MemberSynset, n: int) -> Seq<LinkView>
    decreases n,
{
    if n <= 0 {
        Seq::empty()
    } else {
        sense_links_shown(s, n - 1) + s.sense_rels@[hb_sense_kind(n - 1).0.idx()]@.map_values(
            |t: crate::wordnet::SenseRelation| (Some(t.source_lemma@), Some(t.target_lemma@), hb_sense_kind(n - 1).1, t.target_synset@),
        )
    }
}

/// All links of `s` shown to templates: every set-to-set kind, then the
/// shown sense-level kinds.
pub open spec fn hb_links(s: MemberSynset) -> Seq<LinkView> {
    synset_links(s, SYNSET_REL_COUNT as int) + sense_links_shown(s, HB_SENSE_KINDS as int)
}

/// `r` is the template record of sense set `synset`.
pub open spec fn hb_synset_of(r: HBSynset, synset: MemberSynset) -> bool {
    &&& r.lemmas@.len() == synset.members@.len()
    &&& forall|i: int| 0 <= i < r.lemmas@.len() ==> hb_sense_of(#[trigger] r.lemmas@[i], synset.members@[i])
    &&& r.relations@.map_values(|x: Relation| relation_view(x)) == hb_links(synset)
    &&& r.definition@ == if synset.definition@.len() > 0 {
        synset.definition@[0]@
    } else {
        Seq::empty()
    }
    &&& r.examples@.len() == synset.example@.len()
    &&& forall|i: int| 0 <= i < r.examples@.len() ==> (#[trigger] r.examples@[i])@ == synset.example@[i].text@
    &&& r.id == synset.id
    &&& r.ili == synset.ili
    &&& r.pos == synset.part_of_speech
    &&& r.subject == synset.lexname
}

impl HBSynset {
    pub fn from(synset: &MemberSynset) -> (r: HBSynset)
        requires
            synset.wf(),
        ensures
            hb_synset_of(r, *synset),
            r.lemmas@.len() == synset.members@.len(),
            forall|i: int| 0 <= i < r.lemmas@.len() ==> hb_sense_of(#[trigger] r.lemmas@[i], synset.members@[i]),
            r.relations@.map_values(|x: Relation| relation_view(x)) == hb_links(*synset),
            r.definition@ == if synset.definition@.len() > 0 {
                synset.definition@[0]@
            } else {
                Seq::empty()
            },
            r.examples@.len() == synset.example@.len(),
            forall|i: int| 0 <= i < r.examples@.len() ==> (#[trigger] r.examples@[i])@ == synset.example@[i].text@,
            r.id == synset.id,
            r.ili == synset.ili,
            r.pos == synset.part_of_speech,
            r.subject == synset.lexname,
    {
        let mut lemmas: Vec<Sense> = Vec::new();
        let mut i: usize = 0;
        while i < synset.members.len()
            invariant
                i <= synset.members@.len(),
                lemmas@.len() == i,
                forall|j: int| 0 <= j < i ==> hb_sense_of(#[trigger] lemmas@[j], synset.members@[j]),
            decreases synset.members@.len() - i,
        {
            lemmas.push(Sense::from(&synset.members[i]));
            i = i + 1;
        }
        let mut relations: Vec<Relation> = Vec::new();
        let mut f: usize = 0;
        while f < SYNSET_REL_COUNT
            invariant
                synset.wf(),
                f <= SYNSET_REL_COUNT,
                relations@.map_values(|x: Relation| relation_view(x)) == synset_links(*synset, f as int),
            decreases SYNSET_REL_COUNT - f,
        {
            let kind = SynsetRel::from_index(f);
            let name = kind.name();
            let list = &synset.rels[f];
            let ghost base = relations@;
            let mut j: usize = 0;
            while j < list.len()
                invariant
                    j <= list@.len(),
                    *list == synset.rels@[f as int],
                    name@ == SynsetRel::at(f as int).name_spec(),
                    base.map_values(|x: Relation| relation_view(x)) == synset_links(*synset, f as int),
                    relations@.len() == base.len() + j,
                    relations@.subrange(0, base.len() as int) == base,
                    forall|x: int| 0 <= x < j ==> relation_view(#[trigger] relations@[base.len() + x])
                        == (None::<Seq<char>>, None::<Seq<char>>, name@, list@[x]@),
                decreases list@.len() - j,
            {
                relations.push(Relation { src_word: None, trg_word: None, rel_type: name.to_owned(), target: list[j].to_string() });
                assert(relations@.subrange(0, base.len() as int) =~= base);
                j = j + 1;
            }
            proof {
                let lhs = relations@.map_values(|x: Relation| relation_view(x));
                let rhs = synset_links(*synset, f + 1);
                let tail = synset.rels@[f as int]@.map_values(
                    |t: SynsetId| (None::<Seq<char>>, None::<Seq<char>>, SynsetRel::at(f as int).name_spec(), t@),
                );
                assert(rhs == synset_links(*synset, f as int) + tail);
                assert forall|x: int| 0 <= x < lhs.len() implies lhs[x] == rhs[x] by {
                    if x < base.len() {
                        assert(relations@.subrange(0, base.len() as int)[x] == base[x]);
                        assert(base.map_values(|x: Relation| relation_view(x))[x] == relation_view(base[x]));
                    } else {
                        let y = x - base.len();
                        assert(relation_view(relations@[base.len() + y]) == (None::<Seq<char>>, None::<Seq<char>>, name@, list@[y]@));
                    }
                }
                assert(lhs =~= rhs);
            }
            f = f + 1;
        }
        let ghost mid = relations@;
        let mut h: usize = 0;
        while h < HB_SENSE_KINDS
            invariant
                synset.wf(),
                h <= HB_SENSE_KINDS,
                mid.map_values(|x: Relation| relation_view(x)) == synset_links(*synset, SYNSET_REL_COUNT as int),
                relations@.subrange(0, mid.len() as int) == mid,
                mid.len() <= relations@.len(),
                relations@.subrange(mid.len() as int, relations@.len() as int).map_values(|x: Relation| relation_view(x))
                    == sense_links_shown(*synset, h as int),
            decreases HB_SENSE_KINDS - h,
        {
            let (kind, alias) = hb_sense_kind_at(h);
            proof {
                crate::relations::lemma_sense_rel_idx(kind, kind);
            }
            let list = &synset.sense_rels[kind.index()];
            let ghost base = relations@;
            let mut j: usize = 0;
            while j < list.len()
                invariant
                    mid.len() <= base.len(),
                    base.subrange(0, mid.len() as int) == mid,
                    base.subrange(mid.len() as int, base.len() as int).map_values(|x: Relation| relation_view(x))
                        == sense_links_shown(*synset, h as int),
                    j <= list@.len(),
                    *list == synset.sense_rels@[kind.idx()],
                    alias@ == hb_sense_kind(h as int).1,
                    relations@.len() == base.len() + j,
                    relations@.subrange(0, base.len() as int) == base,
                    forall|x: int| 0 <= x < j ==> relation_view(#[trigger] relations@[base.len() + x])
                        == (Some(list@[x].source_lemma@), Some(list@[x].target_lemma@), alias@, list@[x].target_synset@),
                decreases list@.len() - j,
            {
                let t = &list[j];
                relations.push(Relation {
                    src_word: Some(t.source_lemma.clone()),
                    trg_word: Some(t.target_lemma.clone()),
                    rel_type: alias.to_owned(),
                    target: t.target_synset.to_string(),
                });
                assert(relations@.subrange(0, base.len() as int) =~= base);
                j = j + 1;
            }
            assert(relations@.subrange(0, mid.len() as int) =~= mid);
            proof {
                let prev = relations@.subrange(mid.len() as int, base.len() as int);
                let lhs = relations@.subrange(mid.len() as int, relations@.len() as int).map_values(|x: Relation| relation_view(x));
                let rhs = sense_links_shown(*synset, h + 1);
                let tail = synset.sense_rels@[hb_sense_kind(h as int).0.idx()]@.map_values(
                    |t: crate::wordnet::SenseRelation| (Some(t.source_lemma@), Some(t.target_lemma@), hb_sense_kind(h as int).1, t.target_synset@),
                );
                assert(rhs == sense_links_shown(*synset, h as int) + tail);
                assert(base.subrange(mid.len() as int, base.len() as int).map_values(|x: Relation| relation_view(x)) == sense_links_shown(*synset, h as int));
                assert forall|x: int| 0 <= x < lhs.len() implies lhs[x] == rhs[x] by {
                    let z = mid.len() + x;
                    if z < base.len() {
                        assert(relations@.subrange(0, base.len() as int)[z] == base[z]);
                        assert(base.subrange(mid.len() as int, base.len() as int)[x] == base[z]);
                        assert(base.subrange(mid.len() as int, base.len() as int).map_values(|x: Relation| relation_view(x))[x] == relation_view(base[z]));
                    } else {
                        let y = z - base.len();
                        assert(relation_view(relations@[base.len() + y]) == (Some(list@[y].source_lemma@), Some(list@[y].target_lemma@), alias@, list@[y].target_synset@));
                    }
                }
                assert(lhs =~= rhs);
            }
            h = h + 1;
        }
        assert(relations@.map_values(|x: Relation| relation_view(x)) =~= hb_links(*synset));
        let definition = if synset.definition.len() > 0 {
            synset.definition[0].clone()
        } else {
            String::new()
        };
        let mut examples: Vec<String> = Vec::new();
        let mut e: usize = 0;
        while e < synset.example.len()
            invariant
                e <= synset.example@.len(),
                examples@.len() == e,
                forall|x: int| 0 <= x < e ==> (#[trigger] examples@[x])@ == synset.example@[x].text@,
            decreases synset.example@.len() - e,
        {
            examples.push(synset.example[e].text.clone());
            e = e + 1;
        }
        HBSynset {
            definition,
            examples,
            lemmas,
            id: synset.id.clone(),
            ili: synset.ili.clone(),
            pos: synset.part_of_speech,
            subject: synset.lexname.clone(),
            relations,
        }
    }
}


/// Licence of the data, as templates show it.
pub const LICENSE: &'static str = "https://github.com/globalwordnet/english-wordnet/blob/master/LICENSE.md";

/// Address of the site, as templates show it.
pub const SITE_URL: &'static str = "https://en-word.net";

/// The data of one rendered page: the sense sets shown, and the same sense
/// sets grouped by language and by `headword-category` key.
#[derive(Debug, Clone)]
pub struct SynsetsHB {
    pub synsets: Vec<HBSynset>,
    pub entries: Vec<(String, Vec<(String, Vec<HBSynset>)>)>,
    pub index: String,
    pub name: String,
    pub license: &'static str,
    pub site: &'static str,
}

/// The key a member is grouped under on a page.
pub open spec fn hb_key(lemma: Seq<char>, pos: PartOfSpeech) -> Seq<char> {
    lemma + "-"@ + pos_code(pos)
}

/// For each member of the first `n` sense sets, in order: its key and the
/// position of its sense set.
pub open spec fn page_slots(data: Seq<&MemberSynset>, n: int) -> Seq<(Seq<char>, int)>
    decreases n,
{
    if n <= 0 {
        Seq::empty()
    } else {
        page_slots(data, n - 1) + data[n - 1].members@.map_values(
            |m: Member| (hb_key(m.lemma@, data[n - 1].part_of_speech), n - 1),
        )
    }
}

/// The sense set positions of the slots with key `k`, in order.
pub open spec fn slots_with_key(slots: Seq<(Seq<char>, int)>, k: Seq<char>) -> Seq<int>
    decreases slots.len(),
{
    if slots.len() == 0 {
        Seq::empty()
    } else {
        slots_with_key(slots.drop_last(), k) + if slots.last().0 == k {
            seq![slots.last().1]
        } else {
            Seq::empty()
        }
    }
}

/// `group` holds one record of the sense set at each of `idx`, in order.
pub open spec fn records_of(group: Seq<HBSynset>, data: Seq<&MemberSynset>, idx: Seq<int>) -> bool {
    &&& group.len() == idx.len()
    &&& forall|i: int| 0 <= i < group.len() ==> hb_synset_of(#[trigger] group[i], *data[idx[i]])
}

/// The records grouped under key `k`.
pub open spec fn group_records(es: Seq<(String, Vec<HBSynset>)>, k: Seq<char>) -> Seq<HBSynset> {
    match lookup_first(es, k) {
        Some(v) => v@,
        None => Seq::empty(),
    }
}

/// Adds record `h` at the end of the group keyed `key`.
fn add_to_group(groups: &mut Vec<(String, Vec<HBSynset>)>, key: String, h: HBSynset)
    requires
        keys_unique(old(groups)@),
    ensures
        keys_unique(final(groups)@),
        forall|k: Seq<char>| #[trigger] group_records(final(groups)@, k) == if k == key@ {
            group_records(old(groups)@, k).push(h)
        } else {
            group_records(old(groups)@, k)
        },
        final(groups)@.len() > 0,
{
    let ghost before = groups@;
    let mut i: usize = 0;
    while i < groups.len()
        invariant
            groups@ == before,
            old(groups)@ == before,
            keys_unique(before),
            i <= groups@.len(),
            forall|q: int| 0 <= q < i ==> #[trigger] groups@[q].0@ != key@,
        decreases groups@.len() - i,
    {
        if groups[i].0 == key {
            groups[i].1.push(h);
            assert(keys_unique(groups@)) by {
                assert forall|a: int, b: int| 0 <= a < groups@.len() && 0 <= b < groups@.len() && a != b implies #[trigger] groups@[a].0@ != #[trigger] groups@[b].0@ by {
                    assert(groups@[a].0 == before[a].0);
                    assert(groups@[b].0 == before[b].0);
                }
            }
            assert forall|k: Seq<char>| #[trigger] group_records(groups@, k) == if k == key@ {
                group_records(before, k).push(h)
            } else {
                group_records(before, k)
            } by {
                lemma_lookup_unique(before, k);
                lemma_lookup_unique(groups@, k);
                if k == key@ {
                    assert(lookup_first(groups@, k) == Some(groups@[i as int].1));
                    assert(lookup_first(before, k) == Some(before[i as int].1));
                    assert(group_records(groups@, k) =~= group_records(before, k).push(h));
                } else if exists|q: int| 0 <= q < before.len() && before[q].0@ == k {
                    let q = choose|q: int| 0 <= q < before.len() && before[q].0@ == k;
                    assert(q != i);
                    assert(groups@[q] == before[q]);
                    assert(lookup_first(groups@, k) == Some(groups@[q].1));
                } else {
                    assert forall|q: int| 0 <= q < groups@.len() implies #[trigger] groups@[q].0@ != k by {
                        assert(groups@[q].0 == before[q].0);
                    }
                }
            }
            return;
        }
        i = i + 1;
    }
    let mut v: Vec<HBSynset> = Vec::new();
    v.push(h);
    let ghost k0 = key@;
    groups.push((key, v));
    assert(keys_unique(groups@)) by {
        assert forall|a: int, b: int| 0 <= a < groups@.len() && 0 <= b < groups@.len() && a != b implies #[trigger] groups@[a].0@ != #[trigger] groups@[b].0@ by {
            if a < before.len() {
                assert(groups@[a] == before[a]);
            }
            if b < before.len() {
                assert(groups@[b] == before[b]);
            }
        }
    }
    assert forall|k: Seq<char>| #[trigger] group_records(groups@, k) == if k == k0 {
        group_records(before, k).push(h)
    } else {
        group_records(before, k)
    } by {
        lemma_lookup_unique(before, k);
        lemma_lookup_unique(groups@, k);
        let last = groups@.len() - 1;
        if k == k0 {
            assert(lookup_first(groups@, k) == Some(groups@[last].1));
            assert(groups@[last].1@ =~= seq![h]);
            assert(group_records(groups@, k) =~= group_records(before, k).push(h));
        } else if exists|q: int| 0 <= q < before.len() && before[q].0@ == k {
            let q = choose|q: int| 0 <= q < before.len() && before[q].0@ == k;
            assert(groups@[q] == before[q]);
            assert(lookup_first(groups@, k) == Some(groups@[q].1));
        } else {
            assert forall|q: int| 0 <= q < groups@.len() implies #[trigger] groups@[q].0@ != k by {
                if q < before.len() {
                    assert(groups@[q] == before[q]);
                }
            }
        }
    }
}

/// The data of a page showing `synset_data` for lookup `name` in index
/// `index`: one record per member of each sense set (in order), and the same
/// records grouped, under language `en`, by the member's `headword-category`
/// key.
pub fn make_synsets_hb(synset_data: Vec<&MemberSynset>, index: &str, name: &str) -> (r: SynsetsHB)
    requires
        forall|d: int| 0 <= d < synset_data@.len() ==> (#[trigger] synset_data@[d]).wf(),
    ensures
        ({
            let slots = page_slots(synset_data@, synset_data@.len() as int);
            &&& records_of(r.synsets@, synset_data@, slots.map_values(|s: (Seq<char>, int)| s.1))
            &&& if slots.len() == 0 {
                r.entries@.len() == 0
            } else {
                &&& r.entries@.len() == 1
                &&& r.entries@[0].0@ == "en"@
                &&& keys_unique(r.entries@[0].1@)
                &&& forall|k: Seq<char>| records_of(#[trigger] group_records(r.entries@[0].1@, k), synset_data@, slots_with_key(slots, k))
            }
        }),
        r.index@ == index@,
        r.name@ == name@,
        r.license == LICENSE,
        r.site == SITE_URL,
{
    let data = &synset_data;
    let mut groups: Vec<(String, Vec<HBSynset>)> = Vec::new();
    let mut synsets: Vec<HBSynset> = Vec::new();
    let mut d: usize = 0;
    while d < data.len()
        invariant
            d <= data@.len(),
            forall|x: int| 0 <= x < data@.len() ==> (#[trigger] data@[x]).wf(),
            keys_unique(groups@),
            records_of(synsets@, data@, page_slots(data@, d as int).map_values(|s: (Seq<char>, int)| s.1)),
            forall|k: Seq<char>| records_of(#[trigger] group_records(groups@, k), data@, slots_with_key(page_slots(data@, d as int), k)),
            (groups@.len() == 0) == (page_slots(data@, d as int).len() == 0),
        decreases data@.len() - d,
    {
        let synset = data[d];
        let code = synset.part_of_speech.str();
        let ghost base = page_slots(data@, d as int);
        let ghost row = synset.members@.map_values(|m: Member| (hb_key(m.lemma@, data@[d as int].part_of_speech), d as int));
        assert(page_slots(data@, d + 1) == base + row);
        let mut m: usize = 0;
        while m < synset.members.len()
            invariant
                d < data@.len(),
                *synset == *data@[d as int],
                code@ == pos_code(synset.part_of_speech),
                forall|x: int| 0 <= x < data@.len() ==> (#[trigger] data@[x]).wf(),
                row == synset.members@.map_values(|m: Member| (hb_key(m.lemma@, data@[d as int].part_of_speech), d as int)),
                m <= synset.members@.len(),
                keys_unique(groups@),
                records_of(synsets@, data@, (base + row.take(m as int)).map_values(|s: (Seq<char>, int)| s.1)),
                forall|k: Seq<char>| records_of(#[trigger] group_records(groups@, k), data@, slots_with_key(base + row.take(m as int), k)),
                (groups@.len() == 0) == ((base + row.take(m as int)).len() == 0),
            decreases synset.members@.len() - m,
        {
            let lemma = &synset.members[m].lemma;
            let key0 = concat_str(lemma.as_str(), "-");
            let key = concat_str(key0.as_str(), code);
            proof {
                reveal_strlit("-");
            }
            assert(key@ == hb_key(lemma@, synset.part_of_speech));
            let ghost slots0 = base + row.take(m as int);
            let ghost slots1 = base + row.take(m + 1);
            assert(slots1 =~= slots0.push((key@, d as int)));
            assert(slots1.drop_last() =~= slots0);
            let ghost g0 = groups@;
            let ghost s0 = synsets@;
            add_to_group(&mut groups, key, HBSynset::from(synset));
            synsets.push(HBSynset::from(synset));
            assert(slots1.map_values(|s: (Seq<char>, int)| s.1) =~= slots0.map_values(|s: (Seq<char>, int)| s.1).push(d as int));
            assert forall|i: int| 0 <= i < synsets@.len() implies hb_synset_of(#[trigger] synsets@[i], *data@[slots1.map_values(|s: (Seq<char>, int)| s.1)[i]]) by {
                if i < s0.len() {
                    assert(synsets@[i] == s0[i]);
                }
            }
            assert forall|k: Seq<char>| records_of(#[trigger] group_records(groups@, k), data@, slots_with_key(slots1, k)) by {
                let gk = group_records(groups@, k);
                if k == key@ {
                    assert(slots_with_key(slots1, k) =~= slots_with_key(slots0, k).push(d as int));
                    assert forall|i: int| 0 <= i < gk.len() implies hb_synset_of(#[trigger] gk[i], *data@[slots_with_key(slots1, k)[i]]) by {
                        if i < group_records(g0, k).len() {
                            assert(gk[i] == group_records(g0, k)[i]);
                        }
                    }
                } else {
                    assert(slots_with_key(slots1, k) =~= slots_with_key(slots0, k));
                }
            }
            m = m + 1;
        }
        assert(row.take(m as int) =~= row);
        d = d + 1;
    }
    let mut entries: Vec<(String, Vec<(String, Vec<HBSynset>)>)> = Vec::new();
    if groups.len() > 0 {
        entries.push(("en".to_owned(), groups));
        proof {
            reveal_strlit("en");
        }
    }
    SynsetsHB {
        synsets,
        entries,
        index: index.to_owned(),
        name: name.to_owned(),
        license: LICENSE,
        site: SITE_URL,
    }
}

} // verus!
