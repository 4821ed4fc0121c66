//! Member materialization: each sense set's headwords are replaced by full
//! member records drawn from the entries, giving self-contained documents.

use vstd::prelude::*;
use crate::graph::{ClosedGraph, LemmaEntry};
use crate::ids::{SynsetId, entry_no_of};
use crate::text::{lower_of, lowercase};
use crate::wordnet::{Member, MemberSense, MemberSynset, Sense, Synset, synset_same_except_rels};

verus! {

/// The bucket of a headword, given its lowercase form: its first character
/// when that is a lowercase ASCII letter, else the catch-all `0`.
pub open spec fn bucket_of(lower: Seq<char>) -> Seq<char> {
    if lower.len() > 0 && 'a' <= lower[0] && lower[0] <= 'z' {
        seq![lower[0]]
    } else {
        seq!['0']
    }
}

/// The bucket that entries of the non-empty headword `lemma` are filed under.
pub fn entry_key(lemma: &str) -> (r: String)
    requires
        lemma@.len() > 0,
    ensures
        r@ == bucket_of(lower_of(lemma@)),
{
    let lower = lowercase(lemma);
    bucket_of_lowered(lower.as_str())
}

/// The bucket of a headword whose lowercase form is `lower`.
pub fn bucket_of_lowered(lower: &str) -> (r: String)
    ensures
        r@ == bucket_of(lower@),
{
    let s = lower;
    if s.unicode_len() > 0 {
        let c = s.get_char(0);
        if 'a' <= c && c <= 'z' {
            let first = s.substring_char(0, 1);
            assert(first@ =~= seq![c]);
            return first.to_owned();
        }
    }
    let r = "0".to_owned();
    proof {
        reveal_strlit("0");
    }
    assert(r@ =~= seq!['0']);
    r
}

/// The variant index of an entry's pos key, if any.
pub open spec fn entry_no_opt(e: LemmaEntry) -> Option<u32> {
    match e.entry.poskey {
        Some(k) => entry_no_of(k@),
        None => None,
    }
}

/// `mem` is the member that headword `m`, entry `e` and sense `s` give.
pub open spec fn member_matches(mem: Member, m: Seq<char>, e: LemmaEntry, s: Sense) -> bool {
    &&& mem.lemma@ == m
    &&& mem.sense.id == s.id
    &&& mem.sense.subcat@ == s.subcat@
    &&& mem.form@ == e.entry.form@
    &&& mem.pronunciation@ == e.entry.pronunciation@
    &&& mem.poskey == e.entry.poskey
    &&& mem.entry_no == entry_no_opt(e)
}

/// The senses among `ss` (of entry `e` of headword `m`) that belong to set `id`.
pub open spec fn sources_in_senses(m: Seq<char>, e: LemmaEntry, ss: Seq<Sense>, id: Seq<char>) -> Seq<(Seq<char>, LemmaEntry, Sense)>
    decreases ss.len(),
{
    if ss.len() == 0 {
        Seq::empty()
    } else {
        sources_in_senses(m, e, ss.drop_last(), id) + if ss.last().synset@ == id {
            seq![(m, e, ss.last())]
        } else {
            Seq::empty()
        }
    }
}

/// The senses of headword `m` in set `id` across the entries `es` filed under
/// `m` in its bucket, in entry order.
pub open spec fn sources_in_entries(m: Seq<char>, es: Seq<LemmaEntry>, id: Seq<char>) -> Seq<(Seq<char>, LemmaEntry, Sense)>
    decreases es.len(),
{
    if es.len() == 0 {
        Seq::empty()
    } else {
        sources_in_entries(m, es.drop_last(), id) + if es.last().lemma@ == m && es.last().bucket@ == bucket_of(lower_of(m)) {
            sources_in_senses(m, es.last(), es.last().entry.sense@, id)
        } else {
            Seq::empty()
        }
    }
}

/// Where the members of set `id` with headwords `heads` come from: for each
/// headword in order, each of its senses in that set (an empty headword has
/// no entry, so it gives none).
pub open spec fn member_sources(heads: Seq<String>, es: Seq<LemmaEntry>, id: Seq<char>) -> Seq<(Seq<char>, LemmaEntry, Sense)>
    decreases heads.len(),
{
    if heads.len() == 0 {
        Seq::empty()
    } else {
        member_sources(heads.drop_last(), es, id) + if heads.last()@.len() > 0 {
            sources_in_entries(heads.last()@, es, id)
        } else {
            Seq::empty()
        }
    }
}

/// `ms` are exactly the members that `srcs` give, in order.
pub open spec fn members_match(ms: Seq<Member>, srcs: Seq<(Seq<char>, LemmaEntry, Sense)>) -> bool {
    &&& ms.len() == srcs.len()
    &&& forall|i: int| 0 <= i < ms.len() ==> member_matches(#[trigger] ms[i], srcs[i].0, srcs[i].1, srcs[i].2)
}

proof fn lemma_match_concat(a: Seq<Member>, sa: Seq<(Seq<char>, LemmaEntry, Sense)>, b: Seq<Member>, sb: Seq<(Seq<char>, LemmaEntry, Sense)>)
    requires
        members_match(a, sa),
        members_match(b, sb),
    ensures
        members_match(a + b, sa + sb),
{
    assert forall|i: int| 0 <= i < (a + b).len() implies member_matches(#[trigger] (a + b)[i], (sa + sb)[i].0, (sa + sb)[i].1, (sa + sb)[i].2) by {
        if i >= a.len() {
            assert(b[i - a.len()] == (a + b)[i]);
        }
    }
}

fn member_of(lemma: &String, e: &LemmaEntry, s: &Sense) -> (r: Member)
    ensures
        member_matches(r, lemma@, *e, *s),
{
    let entry_no = match &e.entry.poskey {
        Some(k) => k.entry_no(),
        None => None,
    };
    let form = e.entry.form.clone();
    let pronunciation = e.entry.pronunciation.clone();
    let subcat = s.subcat.clone();
    assert(form@ =~= e.entry.form@);
    assert(pronunciation@ =~= e.entry.pronunciation@);
    assert(subcat@ =~= s.subcat@);
    Member {
        lemma: lemma.clone(),
        sense: MemberSense { id: s.id.clone(), subcat },
        form,
        pronunciation,
        poskey: e.entry.poskey.clone(),
        entry_no,
    }
}

/// Appends the members that headword `lemma` has in set `id` through the
/// entries `es`.
fn push_head_members(members: &mut Vec<Member>, lemma: &String, es: &Vec<LemmaEntry>, id: &SynsetId)
    requires
        lemma@.len() > 0,
    ensures
        members_match(
            final(members)@.subrange(old(members)@.len() as int, final(members)@.len() as int),
            sources_in_entries(lemma@, es@, id@),
        ),
        final(members)@.subrange(0, old(members)@.len() as int) == old(members)@,
        old(members)@.len() <= final(members)@.len(),
{
    let ghost start = members@.len();
    let key = entry_key(lemma.as_str());
    let mut a: usize = 0;
    while a < es.len()
        invariant
            start <= members@.len(),
            key@ == bucket_of(lower_of(lemma@)),
            a <= es@.len(),
            members@.subrange(0, start as int) == old(members)@,
            members_match(members@.subrange(start as int, members@.len() as int), sources_in_entries(lemma@, es@.take(a as int), id@)),
        decreases es@.len() - a,
    {
        let e = &es[a];
        assert(es@.take(a + 1).drop_last() =~= es@.take(a as int));
        assert(es@.take(a + 1).last() == *e);
        if e.lemma == *lemma && e.bucket == key {
            let ghost mid = members@.len();
            let ghost pre = sources_in_entries(lemma@, es@.take(a as int), id@);
            let mut b: usize = 0;
            while b < e.entry.sense.len()
                invariant
                    start <= mid <= members@.len(),
                    b <= e.entry.sense@.len(),
                    members@.subrange(0, start as int) == old(members)@,
                    members_match(members@.subrange(start as int, mid as int), pre),
                    members_match(members@.subrange(mid as int, members@.len() as int), sources_in_senses(lemma@, *e, e.entry.sense@.take(b as int), id@)),
                decreases e.entry.sense@.len() - b,
            {
                let s = &e.entry.sense[b];
                assert(e.entry.sense@.take(b + 1).drop_last() =~= e.entry.sense@.take(b as int));
                assert(e.entry.sense@.take(b + 1).last() == *s);
                let ghost old_m = members@;
                if s.synset.same(id) {
                    let mem = member_of(lemma, e, s);
                    members.push(mem);
                    assert(members@.subrange(start as int, mid as int) =~= old_m.subrange(start as int, mid as int));
                    assert(members@.subrange(0, start as int) =~= old_m.subrange(0, start as int));
                    assert(members@.subrange(mid as int, members@.len() as int) =~= old_m.subrange(mid as int, old_m.len() as int) + seq![mem]);
                    proof {
                        lemma_match_concat(old_m.subrange(mid as int, old_m.len() as int), sources_in_senses(lemma@, *e, e.entry.sense@.take(b as int), id@), seq![mem], seq![(lemma@, *e, *s)]);
                    }
                } else {
                    assert(sources_in_senses(lemma@, *e, e.entry.sense@.take(b + 1), id@) =~= sources_in_senses(lemma@, *e, e.entry.sense@.take(b as int), id@));
                }
                b = b + 1;
            }
            assert(e.entry.sense@.take(b as int) =~= e.entry.sense@);
            let ghost all = members@.subrange(start as int, members@.len() as int);
            assert(all =~= members@.subrange(start as int, mid as int) + members@.subrange(mid as int, members@.len() as int));
            proof {
                lemma_match_concat(members@.subrange(start as int, mid as int), pre, members@.subrange(mid as int, members@.len() as int), sources_in_senses(lemma@, *e, e.entry.sense@, id@));
            }
        } else {
            assert(sources_in_entries(lemma@, es@.take(a + 1), id@) =~= sources_in_entries(lemma@, es@.take(a as int), id@));
        }
        a = a + 1;
    }
    assert(es@.take(a as int) =~= es@);
}

/// `d` is the document of sense set `s` given entries `es`: the data of `s`
/// carried over unchanged, and the members that its headwords' entries give.
pub open spec fn materialized(d: MemberSynset, s: Synset, es: Seq<LemmaEntry>) -> bool {
    &&& d.id == s.id
    &&& d.lexname == s.lexname
    &&& d.definition == s.definition
    &&& d.example == s.example
    &&& d.ili == s.ili
    &&& d.wikidata == s.wikidata
    &&& d.source == s.source
    &&& d.part_of_speech == s.part_of_speech
    &&& d.rels == s.rels
    &&& d.sense_rels == s.sense_rels
    &&& members_match(d.members@, member_sources(s.members@, es, s.id@))
}

/// The document of one sense set: its data moved over, its headwords replaced
/// by the members that their entries give (headwords with no sense in the set
/// give none).
pub fn synset_with_members(synset: Synset, entries: &Vec<LemmaEntry>) -> (r: MemberSynset)
    ensures
        materialized(r, synset, entries@),
{
    let mut members: Vec<Member> = Vec::new();
    let mut i: usize = 0;
    while i < synset.members.len()
        invariant
            i <= synset.members@.len(),
            members_match(members@, member_sources(synset.members@.take(i as int), entries@, synset.id@)),
        decreases synset.members@.len() - i,
    {
        let ghost before = members@;
        assert(synset.members@.take(i + 1).drop_last() =~= synset.members@.take(i as int));
        assert(synset.members@.take(i + 1).last() == synset.members@[i as int]);
        if synset.members[i].as_str().unicode_len() > 0 {
            push_head_members(&mut members, &synset.members[i], entries, &synset.id);
            assert(members@ =~= members@.subrange(0, before.len() as int) + members@.subrange(before.len() as int, members@.len() as int));
            proof {
                lemma_match_concat(before, member_sources(synset.members@.take(i as int), entries@, synset.id@), members@.subrange(before.len() as int, members@.len() as int), sources_in_entries(synset.members@[i as int]@, entries@, synset.id@));
            }
        } else {
            assert(member_sources(synset.members@.take(i + 1), entries@, synset.id@) =~= member_sources(synset.members@.take(i as int), entries@, synset.id@));
        }
        i = i + 1;
    }
    assert(synset.members@.take(i as int) =~= synset.members@);
    MemberSynset {
        members,
        id: synset.id,
        lexname: synset.lexname,
        definition: synset.definition,
        example: synset.example,
        ili: synset.ili,
        wikidata: synset.wikidata,
        source: synset.source,
        part_of_speech: synset.part_of_speech,
        rels: synset.rels,
        sense_rels: synset.sense_rels,
    }
}


/// The documents of all sense sets of a closed graph, in graph order.
pub fn materialize(closed: ClosedGraph) -> (r: Vec<MemberSynset>)
    ensures
        r@.len() == closed.inner().synsets_spec().len(),
        forall|q: int| 0 <= q < r@.len() ==> materialized(#[trigger] r@[q], closed.inner().synsets_spec()[q], closed.inner().entries_spec()),
{
    let (entries, mut synsets) = closed.into_graph().into_parts();
    let ghost g0 = synsets@;
    let ghost n = g0.len();
    let mut reversed: Vec<MemberSynset> = Vec::new();
    while synsets.len() > 0
        invariant
            synsets@ == g0.take(synsets@.len() as int),
            synsets@.len() <= n,
            n == g0.len(),
            reversed@.len() == n - synsets@.len(),
            forall|t: int| 0 <= t < reversed@.len() ==> materialized(#[trigger] reversed@[t], g0[n - 1 - t], entries@),
        decreases synsets@.len(),
    {
        let ghost len = synsets@.len();
        let s = synsets.pop().unwrap();
        assert(s == g0[len - 1]);
        assert(synsets@ =~= g0.take(len - 1));
        let d = synset_with_members(s, &entries);
        reversed.push(d);
    }
    let mut out: Vec<MemberSynset> = Vec::new();
    while reversed.len() > 0
        invariant
            n == g0.len(),
            reversed@.len() + out@.len() == n,
            forall|t: int| 0 <= t < reversed@.len() ==> materialized(#[trigger] reversed@[t], g0[n - 1 - t], entries@),
            forall|o: int| 0 <= o < out@.len() ==> materialized(#[trigger] out@[o], g0[o], entries@),
        decreases reversed@.len(),
    {
        let ghost len = reversed@.len();
        let d = reversed.pop().unwrap();
        assert(materialized(d, g0[n - 1 - (len - 1)], entries@));
        out.push(d);
    }
    out
}

/// Every source of a member is a sense of an entry of the graph, filed under
/// that member's headword, and owned by the document's sense set.
pub open spec fn source_ok(src: (Seq<char>, LemmaEntry, Sense), es: Seq<LemmaEntry>, id: Seq<char>) -> bool {
    &&& es.contains(src.1)
    &&& src.1.entry.sense@.contains(src.2)
    &&& src.1.lemma@ == src.0
    &&& src.2.synset@ == id
}

proof fn lemma_sources_in_senses_ok(m: Seq<char>, e: LemmaEntry, ss: Seq<Sense>, id: Seq<char>)
    ensures
        forall|i: int| 0 <= i < sources_in_senses(m, e, ss, id).len() ==> {
            let src = #[trigger] sources_in_senses(m, e, ss, id)[i];
            &&& src.0 == m
            &&& src.1 == e
            &&& ss.contains(src.2)
            &&& src.2.synset@ == id
        },
    decreases ss.len(),
{
    if ss.len() > 0 {
        lemma_sources_in_senses_ok(m, e, ss.drop_last(), id);
        let pre = sources_in_senses(m, e, ss.drop_last(), id);
        assert forall|i: int| 0 <= i < sources_in_senses(m, e, ss, id).len() implies {
            let src = #[trigger] sources_in_senses(m, e, ss, id)[i];
            &&& src.0 == m
            &&& src.1 == e
            &&& ss.contains(src.2)
            &&& src.2.synset@ == id
        } by {
            if i < pre.len() {
                let j = choose|j: int| 0 <= j < ss.drop_last().len() && ss.drop_last()[j] == pre[i].2;
                assert(ss[j] == pre[i].2);
            } else {
                assert(ss[ss.len() - 1] == ss.last());
            }
        }
    }
}

proof fn lemma_sources_in_entries_ok(m: Seq<char>, es: Seq<LemmaEntry>, id: Seq<char>)
    ensures
        forall|i: int| 0 <= i < sources_in_entries(m, es, id).len() ==> source_ok(#[trigger] sources_in_entries(m, es, id)[i], es, id),
    decreases es.len(),
{
    if es.len() > 0 {
        lemma_sources_in_entries_ok(m, es.drop_last(), id);
        let pre = sources_in_entries(m, es.drop_last(), id);
        let e = es.last();
        lemma_sources_in_senses_ok(m, e, e.entry.sense@, id);
        assert forall|i: int| 0 <= i < sources_in_entries(m, es, id).len() implies source_ok(#[trigger] sources_in_entries(m, es, id)[i], es, id) by {
            if i < pre.len() {
                let j = choose|j: int| 0 <= j < es.drop_last().len() && es.drop_last()[j] == pre[i].1;
                assert(es[j] == pre[i].1);
            } else {
                assert(es[es.len() - 1] == e);
                let k = i - pre.len();
                assert(sources_in_entries(m, es, id)[i] == sources_in_senses(m, e, e.entry.sense@, id)[k]);
            }
        }
    }
}

proof fn lemma_member_sources_ok(heads: Seq<String>, es: Seq<LemmaEntry>, id: Seq<char>)
    ensures
        forall|i: int| 0 <= i < member_sources(heads, es, id).len() ==> source_ok(#[trigger] member_sources(heads, es, id)[i], es, id),
    decreases heads.len(),
{
    if heads.len() > 0 {
        lemma_member_sources_ok(heads.drop_last(), es, id);
        lemma_sources_in_entries_ok(heads.last()@, es, id);
        let pre = member_sources(heads.drop_last(), es, id);
        assert forall|i: int| 0 <= i < member_sources(heads, es, id).len() implies source_ok(#[trigger] member_sources(heads, es, id)[i], es, id) by {
            if i >= pre.len() && heads.last()@.len() > 0 {
                assert(member_sources(heads, es, id)[i] == sources_in_entries(heads.last()@, es, id)[i - pre.len()]);
            }
        }
    }
}

/// Some entry of `es`, filed under headword `lemma`, has a sense with
/// identifier `sid` owned by the sense set `id`.
pub open spec fn has_owning_sense(es: Seq<LemmaEntry>, lemma: Seq<char>, sid: crate::ids::SenseId, id: Seq<char>) -> bool {
    exists|e: LemmaEntry, sense: Sense| {
        &&& #[trigger] es.contains(e)
        &&& #[trigger] e.entry.sense@.contains(sense)
        &&& e.lemma@ == lemma
        &&& sense.id == sid
        &&& sense.synset@ == id
    }
}

/// Every member of a materialized document comes from a sense, of an entry of
/// its headword, whose owning sense set is the document's own.
pub proof fn lemma_members_belong(d: MemberSynset, s: Synset, es: Seq<LemmaEntry>)
    requires
        materialized(d, s, es),
    ensures
        forall|i: int| 0 <= i < d.members@.len() ==> has_owning_sense(es, (#[trigger] d.members@[i]).lemma@, d.members@[i].sense.id, d.id@),
{
    lemma_member_sources_ok(s.members@, es, s.id@);
    let srcs = member_sources(s.members@, es, s.id@);
    assert forall|i: int| 0 <= i < d.members@.len() implies has_owning_sense(es, (#[trigger] d.members@[i]).lemma@, d.members@[i].sense.id, d.id@) by {
        assert(source_ok(srcs[i], es, s.id@));
        assert(member_matches(d.members@[i], srcs[i].0, srcs[i].1, srcs[i].2));
        let e = srcs[i].1;
        let sense = srcs[i].2;
        assert(es.contains(e) && e.entry.sense@.contains(sense));
    }
}

} // verus!