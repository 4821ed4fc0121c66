//! Encoding of the stored documents and of the auxiliary indices, and the
//! laws that make the store reproduce the graph after a restart.

use vstd::prelude::*;
use crate::codec::{Codec, holds_at};
use crate::ids::{ILIID, PartOfSpeech, PosKey, SenseId, SynsetId};
use crate::lexicon::{Lexicon, group_of, keys_unique, ids_with_prefix, keys_where, lookup_last, lower_prefix, plain_prefix};
use crate::wordnet::{Example, Member, MemberSense, MemberSynset, Pronunciation, SenseRelation};

verus! {

impl DeepView for SynsetId {
    type V = Seq<char>;

    open spec fn deep_view(&self) -> Seq<char> {
        self.0@
    }
}

impl Codec for SynsetId {
    open spec fn enc(v: Seq<char>) -> Seq<u8> {
        <String as Codec>::enc(v)
    }

    open spec fn dec(b: Seq<u8>, pos: int) -> Option<(Seq<char>, int)> {
        <String as Codec>::dec(b, pos)
    }

    open spec fn fits(v: Seq<char>) -> bool {
        <String as Codec>::fits(v)
    }

    proof fn lemma_round_trip(v: Seq<char>, b: Seq<u8>, pos: int) {
        <String as Codec>::lemma_round_trip(v, b, pos);
    }

    fn write(&self, out: &mut Vec<u8>) {
        self.0.write(out);
    }

    fn read(b: &Vec<u8>, pos: usize) -> (r: Option<(SynsetId, usize)>) {
        match String::read(b, pos) {
            Some((s, p)) => Some((SynsetId(s), p)),
            None => None,
        }
    }
}

impl DeepView for SenseId {
    type V = Seq<char>;

    open spec fn deep_view(&self) -> Seq<char> {
        self.0@
    }
}

impl Codec for SenseId {
    open spec fn enc(v: Seq<char>) -> Seq<u8> {
        <String as Codec>::enc(v)
    }

    open spec fn dec(b: Seq<u8>, pos: int) -> Option<(Seq<char>, int)> {
        <String as Codec>::dec(b, pos)
    }

    open spec fn fits(v: Seq<char>) -> bool {
        <String as Codec>::fits(v)
    }

    proof fn lemma_round_trip(v: Seq<char>, b: Seq<u8>, pos: int) {
        <String as Codec>::lemma_round_trip(v, b, pos);
    }

    fn write(&self, out: &mut Vec<u8>) {
        self.0.write(out);
    }

    fn read(b: &Vec<u8>, pos: usize) -> (r: Option<(SenseId, usize)>) {
        match String::read(b, pos) {
            Some((s, p)) => Some((SenseId(s), p)),
            None => None,
        }
    }
}

impl DeepView for ILIID {
    type V = Seq<char>;

    open spec fn deep_view(&self) -> Seq<char> {
        self.0@
    }
}

impl Codec for ILIID {
    open spec fn enc(v: Seq<char>) -> Seq<u8> {
        <String as Codec>::enc(v)
    }

    open spec fn dec(b: Seq<u8>, pos: int) -> Option<(Seq<char>, int)> {
        <String as Codec>::dec(b, pos)
    }

    open spec fn fits(v: Seq<char>) -> bool {
        <String as Codec>::fits(v)
    }

    proof fn lemma_round_trip(v: Seq<char>, b: Seq<u8>, pos: int) {
        <String as Codec>::lemma_round_trip(v, b, pos);
    }

    fn write(&self, out: &mut Vec<u8>) {
        self.0.write(out);
    }

    fn read(b: &Vec<u8>, pos: usize) -> (r: Option<(ILIID, usize)>) {
        match String::read(b, pos) {
            Some((s, p)) => Some((ILIID(s), p)),
            None => None,
        }
    }
}

impl DeepView for PosKey {
    type V = Seq<char>;

    open spec fn deep_view(&self) -> Seq<char> {
        self.0@
    }
}

impl Codec for PosKey {
    open spec fn enc(v: Seq<char>) -> Seq<u8> {
        <String as Codec>::enc(v)
    }

    open spec fn dec(b: Seq<u8>, pos: int) -> Option<(Seq<char>, int)> {
        <String as Codec>::dec(b, pos)
    }

    open spec fn fits(v: Seq<char>) -> bool {
        <String as Codec>::fits(v)
    }

    proof fn lemma_round_trip(v: Seq<char>, b: Seq<u8>, pos: int) {
        <String as Codec>::lemma_round_trip(v, b, pos);
    }

    fn write(&self, out: &mut Vec<u8>) {
        self.0.write(out);
    }

    fn read(b: &Vec<u8>, pos: usize) -> (r: Option<(PosKey, usize)>) {
        match String::read(b, pos) {
            Some((s, p)) => Some((PosKey(s), p)),
            None => None,
        }
    }
}

impl DeepView for Example {
    type V = (Seq<char>, Option<Seq<char>>);

    open spec fn deep_view(&self) -> (Seq<char>, Option<Seq<char>>) {
        (self.text@, match self.source { Some(s) => Some(s@), None => None })
    }
}

impl Codec for Example {
    open spec fn enc(v: (Seq<char>, Option<Seq<char>>)) -> Seq<u8> {
        <(String, Option<String>) as Codec>::enc(v)
    }

    open spec fn dec(b: Seq<u8>, pos: int) -> Option<((Seq<char>, Option<Seq<char>>), int)> {
        <(String, Option<String>) as Codec>::dec(b, pos)
    }

    open spec fn fits(v: (Seq<char>, Option<Seq<char>>)) -> bool {
        <(String, Option<String>) as Codec>::fits(v)
    }

    proof fn lemma_round_trip(v: (Seq<char>, Option<Seq<char>>), b: Seq<u8>, pos: int) {
        <(String, Option<String>) as Codec>::lemma_round_trip(v, b, pos);
    }

    fn write(&self, out: &mut Vec<u8>) {
        self.text.write(out);
        self.source.write(out);
        assert(out@ =~= old(out)@ + Self::enc(self.deep_view()));
    }

    fn read(b: &Vec<u8>, pos: usize) -> (r: Option<(Example, usize)>) {
        let (text, p0) = match <String as Codec>::read(b, pos) {
            Some(x) => x,
            None => {
                return None;
            },
        };
        let (source, p1) = match <Option<String> as Codec>::read(b, p0) {
            Some(x) => x,
            None => {
                return None;
            },
        };
        Some((Example { text, source }, p1))
    }
}

impl DeepView for Pronunciation {
    type V = (Seq<char>, Option<Seq<char>>);

    open spec fn deep_view(&self) -> (Seq<char>, Option<Seq<char>>) {
        (self.value@, match self.variety { Some(s) => Some(s@), None => None })
    }
}

impl Codec for Pronunciation {
    open spec fn enc(v: (Seq<char>, Option<Seq<char>>)) -> Seq<u8> {
        <(String, Option<String>) as Codec>::enc(v)
    }

    open spec fn dec(b: Seq<u8>, pos: int) -> Option<((Seq<char>, Option<Seq<char>>), int)> {
        <(String, Option<String>) as Codec>::dec(b, pos)
    }

    open spec fn fits(v: (Seq<char>, Option<Seq<char>>)) -> bool {
        <(String, Option<String>) as Codec>::fits(v)
    }

    proof fn lemma_round_trip(v: (Seq<char>, Option<Seq<char>>), b: Seq<u8>, pos: int) {
        <(String, Option<String>) as Codec>::lemma_round_trip(v, b, pos);
    }

    fn write(&self, out: &mut Vec<u8>) {
        self.value.write(out);
        self.variety.write(out);
        assert(out@ =~= old(out)@ + Self::enc(self.deep_view()));
    }

    fn read(b: &Vec<u8>, pos: usize) -> (r: Option<(Pronunciation, usize)>) {
        let (value, p0) = match <String as Codec>::read(b, pos) {
            Some(x) => x,
            None => {
                return None;
            },
        };
        let (variety, p1) = match <Option<String> as Codec>::read(b, p0) {
            Some(x) => x,
            None => {
                return None;
            },
        };
        Some((Pronunciation { value, variety }, p1))
    }
}

impl DeepView for SenseRelation {
    type V = (Seq<char>, Seq<char>, Seq<char>);

    open spec fn deep_view(&self) -> (Seq<char>, Seq<char>, Seq<char>) {
        (self.target_synset@, self.source_lemma@, self.target_lemma@)
    }
}

impl Codec for SenseRelation {
    open spec fn enc(v: (Seq<char>, Seq<char>, Seq<char>)) -> Seq<u8> {
        <(SynsetId, String, String) as Codec>::enc(v)
    }

    open spec fn dec(b: Seq<u8>, pos: int) -> Option<((Seq<char>, Seq<char>, Seq<char>), int)> {
        <(SynsetId, String, String) as Codec>::dec(b, pos)
    }

    open spec fn fits(v: (Seq<char>, Seq<char>, Seq<char>)) -> bool {
        <(SynsetId, String, String) as Codec>::fits(v)
    }

    proof fn lemma_round_trip(v: (Seq<char>, Seq<char>, Seq<char>), b: Seq<u8>, pos: int) {
        <(SynsetId, String, String) as Codec>::lemma_round_trip(v, b, pos);
    }

    fn write(&self, out: &mut Vec<u8>) {
        self.target_synset.write(out);
        self.source_lemma.write(out);
        self.target_lemma.write(out);
        assert(out@ =~= old(out)@ + Self::enc(self.deep_view()));
    }

    fn read(b: &Vec<u8>, pos: usize) -> (r: Option<(SenseRelation, usize)>) {
        let (target_synset, p0) = match <SynsetId as Codec>::read(b, pos) {
            Some(x) => x,
            None => {
                return None;
            },
        };
        let (source_lemma, p1) = match <String as Codec>::read(b, p0) {
            Some(x) => x,
            None => {
                return None;
            },
        };
        let (target_lemma, p2) = match <String as Codec>::read(b, p1) {
            Some(x) => x,
            None => {
                return None;
            },
        };
        Some((SenseRelation { target_synset, source_lemma, target_lemma }, p2))
    }
}

impl DeepView for MemberSense {
    type V = (Seq<char>, Seq<Seq<char>>);

    open spec fn deep_view(&self) -> (Seq<char>, Seq<Seq<char>>) {
        (self.id@, self.subcat.deep_view())
    }
}

impl Codec for MemberSense {
    open spec fn enc(v: (Seq<char>, Seq<Seq<char>>)) -> Seq<u8> {
        <(SenseId, Vec<String>) as Codec>::enc(v)
    }

    open spec fn dec(b: Seq<u8>, pos: int) -> Option<((Seq<char>, Seq<Seq<char>>), int)> {
        <(SenseId, Vec<String>) as Codec>::dec(b, pos)
    }

    open spec fn fits(v: (Seq<char>, Seq<Seq<char>>)) -> bool {
        <(SenseId, Vec<String>) as Codec>::fits(v)
    }

    proof fn lemma_round_trip(v: (Seq<char>, Seq<Seq<char>>), b: Seq<u8>, pos: int) {
        <(SenseId, Vec<String>) as Codec>::lemma_round_trip(v, b, pos);
    }

    fn write(&self, out: &mut Vec<u8>) {
        self.id.write(out);
        self.subcat.write(out);
        assert(out@ =~= old(out)@ + Self::enc(self.deep_view()));
    }

    fn read(b: &Vec<u8>, pos: usize) -> (r: Option<(MemberSense, usize)>) {
        let (id, p0) = match <SenseId as Codec>::read(b, pos) {
            Some(x) => x,
            None => {
                return None;
            },
        };
        let (subcat, p1) = match <Vec<String> as Codec>::read(b, p0) {
            Some(x) => x,
            None => {
                return None;
            },
        };
        Some((MemberSense { id, subcat }, p1))
    }
}

impl DeepView for Member {
    type V = ((Seq<char>, (Seq<char>, Seq<Seq<char>>), Seq<Seq<char>>), (Seq<(Seq<char>, Option<Seq<char>>)>, Option<Seq<char>>, Option<u32>));

    open spec fn deep_view(&self) -> ((Seq<char>, (Seq<char>, Seq<Seq<char>>), Seq<Seq<char>>), (Seq<(Seq<char>, Option<Seq<char>>)>, Option<Seq<char>>, Option<u32>)) {
        ((self.lemma@, self.sense.deep_view(), self.form.deep_view()), (self.pronunciation.deep_view(), self.poskey.deep_view(), self.entry_no))
    }
}

impl Codec for Member {
    open spec fn enc(v: ((Seq<char>, (Seq<char>, Seq<Seq<char>>), Seq<Seq<char>>), (Seq<(Seq<char>, Option<Seq<char>>)>, Option<Seq<char>>, Option<u32>))) -> Seq<u8> {
        <((String, MemberSense, Vec<String>), (Vec<Pronunciation>, Option<PosKey>, Option<u32>)) as Codec>::enc(v)
    }

    open spec fn dec(b: Seq<u8>, pos: int) -> Option<(((Seq<char>, (Seq<char>, Seq<Seq<char>>), Seq<Seq<char>>), (Seq<(Seq<char>, Option<Seq<char>>)>, Option<Seq<char>>, Option<u32>)), int)> {
        <((String, MemberSense, Vec<String>), (Vec<Pronunciation>, Option<PosKey>, Option<u32>)) as Codec>::dec(b, pos)
    }

    open spec fn fits(v: ((Seq<char>, (Seq<char>, Seq<Seq<char>>), Seq<Seq<char>>), (Seq<(Seq<char>, Option<Seq<char>>)>, Option<Seq<char>>, Option<u32>))) -> bool {
        <((String, MemberSense, Vec<String>), (Vec<Pronunciation>, Option<PosKey>, Option<u32>)) as Codec>::fits(v)
    }

    proof fn lemma_round_trip(v: ((Seq<char>, (Seq<char>, Seq<Seq<char>>), Seq<Seq<char>>), (Seq<(Seq<char>, Option<Seq<char>>)>, Option<Seq<char>>, Option<u32>)), b: Seq<u8>, pos: int) {
        <((String, MemberSense, Vec<String>), (Vec<Pronunciation>, Option<PosKey>, Option<u32>)) as Codec>::lemma_round_trip(v, b, pos);
    }

    fn write(&self, out: &mut Vec<u8>) {
        self.lemma.write(out);
        self.sense.write(out);
        self.form.write(out);
        self.pronunciation.write(out);
        self.poskey.write(out);
        self.entry_no.write(out);
        assert(out@ =~= old(out)@ + Self::enc(self.deep_view()));
    }

    fn read(b: &Vec<u8>, pos: usize) -> (r: Option<(Member, usize)>) {
        match <((String, MemberSense, Vec<String>), (Vec<Pronunciation>, Option<PosKey>, Option<u32>)) as Codec>::read(b, pos) {
            Some((((lemma, sense, form), (pronunciation, poskey, entry_no)), p)) => Some((Member { lemma, sense, form, pronunciation, poskey, entry_no }, p)),
            None => None,
        }
    }
}

impl DeepView for MemberSynset {
    type V = (((Seq<char>, Seq<char>, Seq<Seq<char>>), (Seq<(Seq<char>, Option<Seq<char>>)>, Option<Seq<char>>, Option<Seq<char>>), (Option<Seq<char>>, Seq<((Seq<char>, (Seq<char>, Seq<Seq<char>>), Seq<Seq<char>>), (Seq<(Seq<char>, Option<Seq<char>>)>, Option<Seq<char>>, Option<u32>))>, PartOfSpeech)), (Seq<Seq<Seq<char>>>, Seq<Seq<(Seq<char>, Seq<char>, Seq<char>)>>));

    open spec fn deep_view(&self) -> (((Seq<char>, Seq<char>, Seq<Seq<char>>), (Seq<(Seq<char>, Option<Seq<char>>)>, Option<Seq<char>>, Option<Seq<char>>), (Option<Seq<char>>, Seq<((Seq<char>, (Seq<char>, Seq<Seq<char>>), Seq<Seq<char>>), (Seq<(Seq<char>, Option<Seq<char>>)>, Option<Seq<char>>, Option<u32>))>, PartOfSpeech)), (Seq<Seq<Seq<char>>>, Seq<Seq<(Seq<char>, Seq<char>, Seq<char>)>>)) {
        (((self.id@, self.lexname@, self.definition.deep_view()), (self.example.deep_view(), self.ili.deep_view(), self.wikidata.deep_view()), (self.source.deep_view(), self.members.deep_view(), self.part_of_speech)), (self.rels.deep_view(), self.sense_rels.deep_view()))
    }
}

impl Codec for MemberSynset {
    open spec fn enc(v: (((Seq<char>, Seq<char>, Seq<Seq<char>>), (Seq<(Seq<char>, Option<Seq<char>>)>, Option<Seq<char>>, Option<Seq<char>>), (Option<Seq<char>>, Seq<((Seq<char>, (Seq<char>, Seq<Seq<char>>), Seq<Seq<char>>), (Seq<(Seq<char>, Option<Seq<char>>)>, Option<Seq<char>>, Option<u32>))>, PartOfSpeech)), (Seq<Seq<Seq<char>>>, Seq<Seq<(Seq<char>, Seq<char>, Seq<char>)>>))) -> Seq<u8> {
        <(((SynsetId, String, Vec<String>), (Vec<Example>, Option<ILIID>, Option<String>), (Option<String>, Vec<Member>, PartOfSpeech)), (Vec<Vec<SynsetId>>, Vec<Vec<SenseRelation>>)) as Codec>::enc(v)
    }

    open spec fn dec(b: Seq<u8>, pos: int) -> Option<((((Seq<char>, Seq<char>, Seq<Seq<char>>), (Seq<(Seq<char>, Option<Seq<char>>)>, Option<Seq<char>>, Option<Seq<char>>), (Option<Seq<char>>, Seq<((Seq<char>, (Seq<char>, Seq<Seq<char>>), Seq<Seq<char>>), (Seq<(Seq<char>, Option<Seq<char>>)>, Option<Seq<char>>, Option<u32>))>, PartOfSpeech)), (Seq<Seq<Seq<char>>>, Seq<Seq<(Seq<char>, Seq<char>, Seq<char>)>>)), int)> {
        <(((SynsetId, String, Vec<String>), (Vec<Example>, Option<ILIID>, Option<String>), (Option<String>, Vec<Member>, PartOfSpeech)), (Vec<Vec<SynsetId>>, Vec<Vec<SenseRelation>>)) as Codec>::dec(b, pos)
    }

    open spec fn fits(v: (((Seq<char>, Seq<char>, Seq<Seq<char>>), (Seq<(Seq<char>, Option<Seq<char>>)>, Option<Seq<char>>, Option<Seq<char>>), (Option<Seq<char>>, Seq<((Seq<char>, (Seq<char>, Seq<Seq<char>>), Seq<Seq<char>>), (Seq<(Seq<char>, Option<Seq<char>>)>, Option<Seq<char>>, Option<u32>))>, PartOfSpeech)), (Seq<Seq<Seq<char>>>, Seq<Seq<(Seq<char>, Seq<char>, Seq<char>)>>))) -> bool {
        <(((SynsetId, String, Vec<String>), (Vec<Example>, Option<ILIID>, Option<String>), (Option<String>, Vec<Member>, PartOfSpeech)), (Vec<Vec<SynsetId>>, Vec<Vec<SenseRelation>>)) as Codec>::fits(v)
    }

    proof fn lemma_round_trip(v: (((Seq<char>, Seq<char>, Seq<Seq<char>>), (Seq<(Seq<char>, Option<Seq<char>>)>, Option<Seq<char>>, Option<Seq<char>>), (Option<Seq<char>>, Seq<((Seq<char>, (Seq<char>, Seq<Seq<char>>), Seq<Seq<char>>), (Seq<(Seq<char>, Option<Seq<char>>)>, Option<Seq<char>>, Option<u32>))>, PartOfSpeech)), (Seq<Seq<Seq<char>>>, Seq<Seq<(Seq<char>, Seq<char>, Seq<char>)>>)), b: Seq<u8>, pos: int) {
        <(((SynsetId, String, Vec<String>), (Vec<Example>, Option<ILIID>, Option<String>), (Option<String>, Vec<Member>, PartOfSpeech)), (Vec<Vec<SynsetId>>, Vec<Vec<SenseRelation>>)) as Codec>::lemma_round_trip(v, b, pos);
    }

    #[verifier::rlimit(100)]
    fn write(&self, out: &mut Vec<u8>) {
        let ghost o0 = out@;
        self.id.write(out);
        self.lexname.write(out);
        self.definition.write(out);
        let ghost o1 = out@;
        assert(o1 =~= o0 + <(SynsetId, String, Vec<String>) as Codec>::enc((self.id@, self.lexname@, self.definition.deep_view())));
        self.example.write(out);
        self.ili.write(out);
        self.wikidata.write(out);
        let ghost o2 = out@;
        assert(o2 =~= o1 + <(Vec<Example>, Option<ILIID>, Option<String>) as Codec>::enc((self.example.deep_view(), self.ili.deep_view(), self.wikidata.deep_view())));
        self.source.write(out);
        self.members.write(out);
        self.part_of_speech.write(out);
        let ghost o3 = out@;
        assert(o3 =~= o2 + <(Option<String>, Vec<Member>, PartOfSpeech) as Codec>::enc((self.source.deep_view(), self.members.deep_view(), self.part_of_speech)));
        self.rels.write(out);
        self.sense_rels.write(out);
        let ghost o4 = out@;
        assert(o4 =~= o3 + <(Vec<Vec<SynsetId>>, Vec<Vec<SenseRelation>>) as Codec>::enc((self.rels.deep_view(), self.sense_rels.deep_view())));
        assert(out@ =~= old(out)@ + Self::enc(self.deep_view()));
    }

    fn read(b: &Vec<u8>, pos: usize) -> (r: Option<(MemberSynset, usize)>) {
        match <(((SynsetId, String, Vec<String>), (Vec<Example>, Option<ILIID>, Option<String>), (Option<String>, Vec<Member>, PartOfSpeech)), (Vec<Vec<SynsetId>>, Vec<Vec<SenseRelation>>)) as Codec>::read(b, pos) {
            Some(((((id, lexname, definition), (example, ili, wikidata), (source, members, part_of_speech)), (rels, sense_rels)), p)) => Some((MemberSynset { id, lexname, definition, example, ili, wikidata, source, members, part_of_speech, rels, sense_rels }, p)),
            None => None,
        }
    }
}

/// The deep views of the items of a sequence.
pub open spec fn deep_seq<T: DeepView>(s: Seq<T>) -> Seq<T::V> {
    Seq::new(s.len(), |i: int| s[i].deep_view())
}

impl DeepView for Lexicon {
    type V = (Seq<(Seq<char>, Seq<Seq<char>>)>, Seq<(Seq<char>, Seq<char>)>, Seq<Seq<char>>);

    open spec fn deep_view(&self) -> (Seq<(Seq<char>, Seq<Seq<char>>)>, Seq<(Seq<char>, Seq<char>)>, Seq<Seq<char>>) {
        (deep_seq(self.entries_spec()), deep_seq(self.ili_spec()), deep_seq(self.ids_spec()))
    }
}

/// The value that `b` encodes, when it encodes one value and nothing more.
pub open spec fn decode_whole<T: Codec>(b: Seq<u8>) -> Option<T::V> {
    match T::dec(b, 0) {
        Some((v, p)) => if p == b.len() {
            Some(v)
        } else {
            None
        },
        None => None,
    }
}

/// Decoding an encoded value gives it back, field for field.
pub proof fn lemma_whole_round_trip<T: Codec>(v: T::V)
    requires
        T::fits(v),
    ensures
        decode_whole::<T>(T::enc(v)) == Some(v),
{
    let b = T::enc(v);
    assert(b.subrange(0, b.len() as int) =~= b);
    assert(holds_at(b, 0, b));
    T::lemma_round_trip(v, b, 0);
}

fn encode_value<T: Codec>(x: &T) -> (r: Vec<u8>)
    ensures
        r@ == T::enc(x.deep_view()),
        T::fits(x.deep_view()),
{
    let mut out: Vec<u8> = Vec::new();
    x.write(&mut out);
    assert(out@ =~= T::enc(x.deep_view()));
    out
}

fn decode_value<T: Codec>(b: &Vec<u8>) -> (r: Option<T>)
    ensures
        match decode_whole::<T>(b@) {
            Some(v) => r matches Some(x) && x.deep_view() == v,
            None => r is None,
        },
{
    match T::read(b, 0) {
        Some((x, p)) => if p == b.len() {
            Some(x)
        } else {
            None
        },
        None => None,
    }
}

/// The stored form of a document.
pub fn encode_document(d: &MemberSynset) -> (r: Vec<u8>)
    ensures
        r@ == MemberSynset::enc(d.deep_view()),
        MemberSynset::fits(d.deep_view()),
{
    encode_value(d)
}

/// The document that stored bytes hold; none if they hold anything else.
pub fn decode_document(b: &Vec<u8>) -> (r: Option<MemberSynset>)
    ensures
        match decode_whole::<MemberSynset>(b@) {
            Some(v) => r matches Some(d) && d.deep_view() == v,
            None => r is None,
        },
{
    decode_value(b)
}

/// Decoding the stored form of a document gives back the document, field for
/// field.
pub proof fn lemma_document_round_trip(d: MemberSynset)
    requires
        MemberSynset::fits(d.deep_view()),
    ensures
        decode_whole::<MemberSynset>(MemberSynset::enc(d.deep_view())) == Some(d.deep_view()),
{
    lemma_whole_round_trip::<MemberSynset>(d.deep_view());
}

/// No two items of a list of keyed views share a key.
pub open spec fn view_keys_distinct<V>(s: Seq<(Seq<char>, V)>) -> bool {
    forall|a: int, b: int| 0 <= a < s.len() && 0 <= b < s.len() && a != b ==> #[trigger] s[a].0 != #[trigger] s[b].0
}

proof fn lemma_keys_distinct_view<V: DeepView>(s: Seq<(String, V)>)
    ensures
        keys_unique(s) <==> view_keys_distinct(deep_seq(s)),
{
    let d = deep_seq(s);
    assert forall|a: int| 0 <= a < s.len() implies #[trigger] d[a].0 == s[a].0@ by {}
    if keys_unique(s) {
        assert forall|a: int, b: int| 0 <= a < d.len() && 0 <= b < d.len() && a != b implies #[trigger] d[a].0 != #[trigger] d[b].0 by {
            assert(d[a].0 == s[a].0@ && d[b].0 == s[b].0@);
        }
    }
    if view_keys_distinct(d) {
        assert forall|a: int, b: int| 0 <= a < s.len() && 0 <= b < s.len() && a != b implies #[trigger] s[a].0@ != #[trigger] s[b].0@ by {
            assert(d[a].0 == s[a].0@ && d[b].0 == s[b].0@);
        }
    }
}

/// The stored form of the auxiliary indices: the headword list, the
/// external-id list and the list of all identifiers, one after another.
pub fn encode_index(lexicon: &Lexicon) -> (r: Vec<u8>)
    ensures
        r@ == <(Vec<(String, Vec<SynsetId>)>, Vec<(String, SynsetId)>, Vec<SynsetId>) as Codec>::enc(lexicon.deep_view()),
        <(Vec<(String, Vec<SynsetId>)>, Vec<(String, SynsetId)>, Vec<SynsetId>) as Codec>::fits(lexicon.deep_view()),
{
    let mut out: Vec<u8> = Vec::new();
    lexicon.entries().write(&mut out);
    lexicon.synsets_by_ili().write(&mut out);
    lexicon.synset_ids().write(&mut out);
    assert(out@ =~= <(Vec<(String, Vec<SynsetId>)>, Vec<(String, SynsetId)>, Vec<SynsetId>) as Codec>::enc(lexicon.deep_view()));
    out
}

/// The auxiliary indices that stored bytes hold; none if they hold anything
/// else, or list a headword or an external id twice.
pub fn decode_index(b: &Vec<u8>) -> (r: Option<Lexicon>)
    ensures
        match decode_whole::<(Vec<(String, Vec<SynsetId>)>, Vec<(String, SynsetId)>, Vec<SynsetId>)>(b@) {
            Some(v) => if view_keys_distinct(v.0) && view_keys_distinct(v.1) {
                r matches Some(l) && l.deep_view() == v && l.wf()
            } else {
                r is None
            },
            None => r is None,
        },
{
    match decode_value::<(Vec<(String, Vec<SynsetId>)>, Vec<(String, SynsetId)>, Vec<SynsetId>)>(b) {
        Some((entries, synsets_by_ili, synset_ids)) => {
            proof {
                lemma_keys_distinct_view(entries@);
                lemma_keys_distinct_view(synsets_by_ili@);
            }
            Lexicon::from_parts(entries, synsets_by_ili, synset_ids)
        },
        None => None,
    }
}

/// The identifiers of a list, as strings.
pub open spec fn id_views(v: Seq<SynsetId>) -> Seq<Seq<char>> {
    v.map_values(|x: SynsetId| x@)
}

/// Two keyed lists with the same keys and deeply equal values, in order.
pub open spec fn same_keyed<V: DeepView>(a: Seq<(String, V)>, b: Seq<(String, V)>) -> bool {
    &&& a.len() == b.len()
    &&& forall|i: int| 0 <= i < a.len() ==> (#[trigger] a[i]).0@ == b[i].0@ && a[i].1.deep_view() == b[i].1.deep_view()
}

proof fn lemma_same_keyed<V: DeepView>(a: Seq<(String, V)>, b: Seq<(String, V)>)
    requires
        deep_seq(a) == deep_seq(b),
    ensures
        same_keyed(a, b),
{
    assert(a.len() == deep_seq(b).len());
    assert forall|i: int| 0 <= i < a.len() implies (#[trigger] a[i]).0@ == b[i].0@ && a[i].1.deep_view() == b[i].1.deep_view() by {
        assert(deep_seq(a)[i] == a[i].deep_view());
        assert(deep_seq(b)[i] == b[i].deep_view());
    }
}

proof fn lemma_lookup_same<V: DeepView>(a: Seq<(String, V)>, b: Seq<(String, V)>, k: Seq<char>)
    requires
        same_keyed(a, b),
    ensures
        lookup_last(a, k) is Some <==> lookup_last(b, k) is Some,
        lookup_last(a, k) is Some ==> lookup_last(a, k)->0.deep_view() == lookup_last(b, k)->0.deep_view(),
    decreases a.len(),
{
    if a.len() > 0 {
        let ra = a.drop_last();
        let rb = b.drop_last();
        assert(a.last().0@ == b.last().0@);
        assert forall|i: int| 0 <= i < ra.len() implies (#[trigger] ra[i]).0@ == rb[i].0@ && ra[i].1.deep_view() == rb[i].1.deep_view() by {
            assert(ra[i] == a[i]);
            assert(rb[i] == b[i]);
        }
        lemma_lookup_same(ra, rb, k);
    }
}

proof fn lemma_keys_where_same<V: DeepView>(a: Seq<(String, V)>, b: Seq<(String, V)>, keep: spec_fn(Seq<char>) -> bool)
    requires
        same_keyed(a, b),
    ensures
        keys_where(a, keep) == keys_where(b, keep),
    decreases a.len(),
{
    if a.len() > 0 {
        let ra = a.drop_last();
        let rb = b.drop_last();
        assert forall|i: int| 0 <= i < ra.len() implies (#[trigger] ra[i]).0@ == rb[i].0@ && ra[i].1.deep_view() == rb[i].1.deep_view() by {
            assert(ra[i] == a[i]);
            assert(rb[i] == b[i]);
        }
        lemma_keys_where_same(ra, rb, keep);
        assert(a.last().0@ == b.last().0@);
    }
}

proof fn lemma_ids_with_prefix_same(a: Seq<SynsetId>, b: Seq<SynsetId>, p: Seq<char>)
    requires
        id_views(a) == id_views(b),
    ensures
        ids_with_prefix(a, p) == ids_with_prefix(b, p),
    decreases a.len(),
{
    assert(a.len() == id_views(b).len());
    if a.len() > 0 {
        assert(id_views(a.drop_last()) =~= id_views(a).drop_last());
        assert(id_views(b.drop_last()) =~= id_views(b).drop_last());
        lemma_ids_with_prefix_same(a.drop_last(), b.drop_last(), p);
        assert(id_views(a)[a.len() - 1] == id_views(b)[a.len() - 1]);
    }
}

/// Two lexicons with the same deep view answer every query the same.
proof fn lemma_same_answers(before: Lexicon, after: Lexicon)
    requires
        before.deep_view() == after.deep_view(),
    ensures
        forall|h: Seq<char>| #[trigger] id_views(group_of(before.entries_spec(), h)) == id_views(group_of(after.entries_spec(), h)),
        forall|x: Seq<char>| (#[trigger] lookup_last(before.ili_spec(), x)) is Some
            <==> lookup_last(after.ili_spec(), x) is Some,
        forall|x: Seq<char>| (#[trigger] lookup_last(before.ili_spec(), x)) is Some
            ==> lookup_last(before.ili_spec(), x)->0@ == lookup_last(after.ili_spec(), x)->0@,
        forall|p: Seq<char>| #[trigger] keys_where(before.entries_spec(), lower_prefix(p)) == keys_where(after.entries_spec(), lower_prefix(p)),
        forall|p: Seq<char>| #[trigger] keys_where(before.ili_spec(), plain_prefix(p)) == keys_where(after.ili_spec(), plain_prefix(p)),
        forall|p: Seq<char>| #[trigger] ids_with_prefix(before.ids_spec(), p) == ids_with_prefix(after.ids_spec(), p),
{
    lemma_same_keyed(before.entries_spec(), after.entries_spec());
    lemma_same_keyed(before.ili_spec(), after.ili_spec());
    assert(id_views(before.ids_spec()) =~= id_views(after.ids_spec())) by {
        assert(deep_seq(before.ids_spec()) == deep_seq(after.ids_spec()));
        assert(before.ids_spec().len() == deep_seq(after.ids_spec()).len());
        assert forall|i: int| 0 <= i < before.ids_spec().len() implies id_views(before.ids_spec())[i] == id_views(after.ids_spec())[i] by {
            assert(deep_seq(before.ids_spec())[i] == before.ids_spec()[i].deep_view());
            assert(deep_seq(after.ids_spec())[i] == after.ids_spec()[i].deep_view());
        }
    }
    assert forall|h: Seq<char>| #[trigger] id_views(group_of(before.entries_spec(), h)) == id_views(group_of(after.entries_spec(), h)) by {
        lemma_lookup_same(before.entries_spec(), after.entries_spec(), h);
        match lookup_last(before.entries_spec(), h) {
            Some(va) => {
                let vb = lookup_last(after.entries_spec(), h)->0;
                assert(va.deep_view() == vb.deep_view());
                assert forall|i: int| 0 <= i < va@.len() implies id_views(va@)[i] == id_views(vb@)[i] by {
                    assert(va.deep_view()[i] == va@[i].deep_view());
                    assert(vb.deep_view()[i] == vb@[i].deep_view());
                }
                assert(id_views(va@) =~= id_views(vb@));
            },
            None => {},
        }
    }
    assert forall|x: Seq<char>| (#[trigger] lookup_last(before.ili_spec(), x)) is Some
        ==> lookup_last(before.ili_spec(), x)->0@ == lookup_last(after.ili_spec(), x)->0@ by {
        lemma_lookup_same(before.ili_spec(), after.ili_spec(), x);
    }
    assert forall|x: Seq<char>| (#[trigger] lookup_last(before.ili_spec(), x)) is Some
        <==> lookup_last(after.ili_spec(), x) is Some by {
        lemma_lookup_same(before.ili_spec(), after.ili_spec(), x);
    }
    assert forall|p: Seq<char>| #[trigger] keys_where(before.entries_spec(), lower_prefix(p)) == keys_where(after.entries_spec(), lower_prefix(p)) by {
        lemma_keys_where_same(before.entries_spec(), after.entries_spec(), lower_prefix(p));
    }
    assert forall|p: Seq<char>| #[trigger] keys_where(before.ili_spec(), plain_prefix(p)) == keys_where(after.ili_spec(), plain_prefix(p)) by {
        lemma_keys_where_same(before.ili_spec(), after.ili_spec(), plain_prefix(p));
    }
    assert forall|p: Seq<char>| #[trigger] ids_with_prefix(before.ids_spec(), p) == ids_with_prefix(after.ids_spec(), p) by {
        lemma_ids_with_prefix_same(before.ids_spec(), after.ids_spec(), p);
    }
}

/// After a restart that reads the indices back from their stored form, every
/// query gives what it gave before: the same sense sets for every headword
/// and every external id, and the same answers to every prefix search.
pub proof fn lemma_restart_same_answers(before: Lexicon, after: Lexicon)
    requires
        decode_whole::<(Vec<(String, Vec<SynsetId>)>, Vec<(String, SynsetId)>, Vec<SynsetId>)>(<(Vec<(String, Vec<SynsetId>)>, Vec<(String, SynsetId)>, Vec<SynsetId>) as Codec>::enc(before.deep_view())) == Some(after.deep_view()),
        <(Vec<(String, Vec<SynsetId>)>, Vec<(String, SynsetId)>, Vec<SynsetId>) as Codec>::fits(before.deep_view()),
    ensures
        forall|h: Seq<char>| #[trigger] id_views(group_of(before.entries_spec(), h)) == id_views(group_of(after.entries_spec(), h)),
        forall|x: Seq<char>| (#[trigger] lookup_last(before.ili_spec(), x)) is Some
            <==> lookup_last(after.ili_spec(), x) is Some,
        forall|x: Seq<char>| (#[trigger] lookup_last(before.ili_spec(), x)) is Some
            ==> lookup_last(before.ili_spec(), x)->0@ == lookup_last(after.ili_spec(), x)->0@,
        forall|p: Seq<char>| #[trigger] keys_where(before.entries_spec(), lower_prefix(p)) == keys_where(after.entries_spec(), lower_prefix(p)),
        forall|p: Seq<char>| #[trigger] keys_where(before.ili_spec(), plain_prefix(p)) == keys_where(after.ili_spec(), plain_prefix(p)),
        forall|p: Seq<char>| #[trigger] ids_with_prefix(before.ids_spec(), p) == ids_with_prefix(after.ids_spec(), p),
{
    lemma_whole_round_trip::<(Vec<(String, Vec<SynsetId>)>, Vec<(String, SynsetId)>, Vec<SynsetId>)>(before.deep_view());
    lemma_same_answers(before, after);
}

} // verus!
