//! The mutable graph of the ingestion pipeline: entries with their headwords,
//! and sense sets in an arena addressed by position.

use vstd::prelude::*;
use crate::closure::{SynsetLocator, all_wf, closed_synset_list, close_synset_rels, ids_unique};
use crate::relations::{SenseRel, SynsetRel};
use crate::sense_closure::{all_senses, close_sense_rels, closed_sense_list, id_views_of};
use crate::ids::{PosKey, SynsetId};
use crate::text::{ends_with, is_prefix, is_suffix, starts_with, substring};
use crate::wordnet::{Entries, Entry, Synset, Synsets, synset_rel, synset_same_except_rels, synset_sense_rel};

verus! {

/// A lexical entry together with its headword and the bucket it was filed in.
#[derive(Debug, PartialEq, Clone)]
pub struct LemmaEntry {
    pub lemma: String,
    pub bucket: String,
    pub entry: Entry,
}

/// The whole graph while it is still mutable: the entries, and the sense
/// sets in an arena with an index of their identifiers.
pub struct Graph {
    entries: Vec<LemmaEntry>,
    synsets: Vec<Synset>,
    locator: SynsetLocator,
}

/// What a source file holds, by its name.
#[derive(Debug, PartialEq, Eq)]
pub enum FileKind {
    /// Lexical entries of the bucket named by the character after `entries-`.
    Entries(String),
    /// Sense sets of the category named by the file's stem.
    Synsets(String),
    /// Not part of the graph: frame metadata, or not a source file at all.
    Ignored,
}

/// The name of a file of lexical entries.
pub open spec fn is_entries_file(name: Seq<char>) -> bool {
    is_prefix("entries-"@, name) && is_suffix(".yaml"@, name) && name.len() > 8
}

/// What the file named `name` holds: entry files are `entries-<key>.yaml`,
/// every other `.yaml` file but `frames.yaml` holds the sense sets of the
/// category named by its stem.
pub fn classify_file(name: &str) -> (r: FileKind)
    ensures
        match r {
            FileKind::Entries(key) => is_entries_file(name@) && key@ == name@.subrange(8, 9),
            FileKind::Synsets(lexname) => !is_entries_file(name@) && is_suffix(".yaml"@, name@)
                && name@ != "frames.yaml"@ && lexname@ == name@.subrange(0, name@.len() - 5),
            FileKind::Ignored => !is_entries_file(name@) && (!is_suffix(".yaml"@, name@) || name@ == "frames.yaml"@),
        },
{
    let yaml = ends_with(name, ".yaml");
    let n = name.unicode_len();
    if starts_with(name, "entries-") && yaml && n > 8 {
        return FileKind::Entries(substring(name, 8, 9));
    }
    if yaml && name.to_owned() != "frames.yaml".to_owned() {
        proof {
            reveal_strlit(".yaml");
        }
        return FileKind::Synsets(substring(name, 0, n - 5));
    }
    FileKind::Ignored
}

impl Graph {
    /// The entries, in the order they were filed.
    pub closed spec fn entries_spec(&self) -> Seq<LemmaEntry> {
        self.entries@
    }

    /// The sense sets, in the order they were added.
    pub closed spec fn synsets_spec(&self) -> Seq<Synset> {
        self.synsets@
    }

    /// Sense sets have distinct identifiers and full relation tables, and the
    /// index knows every identifier.
    pub closed spec fn wf(&self) -> bool {
        all_wf(self.synsets@) && ids_unique(self.synsets@) && self.locator.covers(self.synsets@)
    }

    pub fn entries(&self) -> (r: &Vec<LemmaEntry>)
        ensures
            r@ == self.entries_spec(),
    {
        &self.entries
    }

    pub fn synsets(&self) -> (r: &Vec<Synset>)
        ensures
            r@ == self.synsets_spec(),
    {
        &self.synsets
    }

    /// A graph with no entries and no sense sets.
    pub fn new() -> (r: Graph)
        ensures
            r.wf(),
            r.entries_spec().len() == 0,
            r.synsets_spec().len() == 0,
    {
        Graph { entries: Vec::new(), synsets: Vec::new(), locator: SynsetLocator::empty() }
    }

    /// The entries and the sense sets, handed on.
    pub fn into_parts(self) -> (r: (Vec<LemmaEntry>, Vec<Synset>))
        ensures
            r.0@ == self.entries_spec(),
            r.1@ == self.synsets_spec(),
    {
        (self.entries, self.synsets)
    }

    /// Files one entry of headword `lemma` under pos key `poskey` in bucket
    /// `bucket`; the entry takes the pos key it is filed under.
    pub fn add_entry(&mut self, lemma: String, bucket: String, poskey: PosKey, entry: Entry)
        requires
            old(self).wf(),
        ensures
            final(self).wf(),
            final(self).synsets_spec() == old(self).synsets_spec(),
            final(self).entries_spec().len() == old(self).entries_spec().len() + 1,
            final(self).entries_spec().subrange(0, old(self).entries_spec().len() as int) == old(self).entries_spec(),
            ({
                let e = final(self).entries_spec().last();
                &&& e.lemma == lemma
                &&& e.bucket == bucket
                &&& e.entry.sense == entry.sense
                &&& e.entry.form == entry.form
                &&& e.entry.pronunciation == entry.pronunciation
                &&& e.entry.poskey == Some(poskey)
            }),
    {
        let mut entry = entry;
        entry.poskey = Some(poskey);
        self.entries.push(LemmaEntry { lemma, bucket, entry });
        assert(self.entries@.subrange(0, old(self).entries_spec().len() as int) =~= old(self).entries_spec());
    }

    /// Adds sense set `synset` of category `lexname` under identifier `id`.
    /// Refused (and the graph left as it was) when the identifier is taken or
    /// the set's relation tables do not hold one list per kind.
    pub fn add_synset(&mut self, id: SynsetId, lexname: String, synset: Synset) -> (added: bool)
        requires
            old(self).wf(),
        ensures
            final(self).wf(),
            final(self).entries_spec() == old(self).entries_spec(),
            added == (synset.wf() && forall|q: int| 0 <= q < old(self).synsets_spec().len() ==> #[trigger] old(self).synsets_spec()[q].id@ != id@),
            added ==> final(self).synsets_spec().len() == old(self).synsets_spec().len() + 1
                && final(self).synsets_spec().subrange(0, old(self).synsets_spec().len() as int) == old(self).synsets_spec()
                && final(self).synsets_spec().last().id == id
                && final(self).synsets_spec().last().lexname == lexname
                && synset_same_except_rels(
                    final(self).synsets_spec().last(),
                    Synset { id, lexname, ..synset },
                )
                && final(self).synsets_spec().last().rels == synset.rels
                && final(self).synsets_spec().last().sense_rels == synset.sense_rels,
            !added ==> final(self).synsets_spec() == old(self).synsets_spec(),
    {
        if synset.rels.len() != crate::relations::SYNSET_REL_COUNT || synset.sense_rels.len() != crate::relations::SENSE_REL_COUNT {
            return false;
        }
        match self.locator.locate(&self.synsets, &id) {
            Some(_) => false,
            None => {
                let mut s = synset;
                s.id = id.clone();
                s.lexname = lexname;
                let ghost before = self.synsets@;
                let ghost sg = s;
                self.synsets.push(s);
                self.locator.insert(&id, Ghost(before), Ghost(sg));
                assert(before.push(sg) =~= self.synsets@);
                assert(self.synsets@.subrange(0, before.len() as int) =~= before);
                assert(ids_unique(self.synsets@)) by {
                    assert forall|a: int, b: int| 0 <= a < self.synsets@.len() && 0 <= b < self.synsets@.len() && a != b implies #[trigger] self.synsets@[a].id@ != #[trigger] self.synsets@[b].id@ by {
                        if a < before.len() {
                            assert(self.synsets@[a] == before[a]);
                        }
                        if b < before.len() {
                            assert(self.synsets@[b] == before[b]);
                        }
                    }
                }
                assert(all_wf(self.synsets@)) by {
                    assert forall|a: int| 0 <= a < self.synsets@.len() implies (#[trigger] self.synsets@[a]).wf() by {
                        if a < before.len() {
                            assert(self.synsets@[a] == before[a]);
                        }
                    }
                }
                true
            },
        }
    }
}


/// Set `i` of a file can be added once the sets before it are: its relation
/// tables are well formed and its identifier is new to the graph `g` and to
/// the sets listed before it.
pub open spec fn addable(g: Seq<Synset>, ss: Seq<(SynsetId, Synset)>, i: int) -> bool {
    &&& ss[i].1.wf()
    &&& forall|q: int| 0 <= q < g.len() ==> #[trigger] g[q].id@ != ss[i].0@
    &&& forall|j: int| 0 <= j < i ==> #[trigger] ss[j].0@ != ss[i].0@
}

/// `after` is `g` followed by the first `n` sets of the file, each under its
/// listed identifier and category `lexname`.
pub open spec fn added_after(after: Seq<Synset>, g: Seq<Synset>, ss: Seq<(SynsetId, Synset)>, lexname: String, n: int) -> bool {
    &&& after.len() == g.len() + n
    &&& after.subrange(0, g.len() as int) == g
    &&& forall|i: int| 0 <= i < n ==> {
        let s = #[trigger] after[g.len() + i];
        &&& s.id == ss[i].0
        &&& s.lexname == lexname
        &&& synset_same_except_rels(s, Synset { id: ss[i].0, lexname, ..ss[i].1 })
        &&& s.rels == ss[i].1.rels
        &&& s.sense_rels == ss[i].1.sense_rels
    }
}

/// The records that one headword's entries give when filed in `bucket`:
/// each entry takes the pos key it is listed under.
pub open spec fn filed_group(lemma: String, bucket: String, group: Seq<(PosKey, Entry)>) -> Seq<LemmaEntry> {
    group.map_values(|pe: (PosKey, Entry)| LemmaEntry { lemma, bucket, entry: Entry { poskey: Some(pe.0), ..pe.1 } })
}

/// The records that a file of entries gives when filed in `bucket`, headword
/// by headword.
pub open spec fn filed(bucket: String, es: Seq<(String, Vec<(PosKey, Entry)>)>) -> Seq<LemmaEntry>
    decreases es.len(),
{
    if es.len() == 0 {
        Seq::empty()
    } else {
        filed(bucket, es.drop_last()) + filed_group(es.last().0, bucket, es.last().1@)
    }
}

/// The elements of `v` in reverse order, so that popping them hands them
/// out front to back.
fn reversed<T>(v: Vec<T>) -> (r: Vec<T>)
    ensures
        r@ == v@.reverse(),
{
    let ghost v0 = v@;
    let mut v = v;
    let mut r: Vec<T> = Vec::new();
    while v.len() > 0
        invariant
            v@ == v0.take(v@.len() as int),
            v@.len() <= v0.len(),
            r@ == v0.subrange(v@.len() as int, v0.len() as int).reverse(),
        decreases v@.len(),
    {
        let ghost n = v@.len();
        let x = v.pop().unwrap();
        r.push(x);
        assert(v@ =~= v0.take(n - 1));
        assert(r@ =~= v0.subrange(n - 1, v0.len() as int).reverse());
    }
    assert(v0.subrange(0, v0.len() as int) =~= v0);
    r
}

impl Graph {
    /// Files every entry of a file of entries in `bucket`, headword by
    /// headword, each under the pos key it is listed under.
    pub fn add_entries(&mut self, bucket: String, entries: Entries)
        requires
            old(self).wf(),
        ensures
            final(self).wf(),
            final(self).synsets_spec() == old(self).synsets_spec(),
            final(self).entries_spec() == old(self).entries_spec() + filed(bucket, entries.0@),
    {
        let ghost es = entries.0@;
        let ghost start = self.entries@;
        let total = entries.0.len();
        let mut rest = reversed(entries.0);
        let mut done: usize = 0;
        while rest.len() > 0
            invariant
                self.wf(),
                self.synsets@ == old(self).synsets@,
                start == old(self).entries@,
                rest@ == es.subrange(done as int, es.len() as int).reverse(),
                done <= es.len(),
                total == es.len(),
                self.entries@ == start + filed(bucket, es.take(done as int)),
            decreases rest@.len(),
        {
            assert(done < total);
            let (lemma, group) = rest.pop().unwrap();
            assert(es[done as int] == (lemma, group));
            assert(es.take(done + 1).drop_last() =~= es.take(done as int));
            let ghost g = group@;
            let ghost mid = self.entries@;
            let count = group.len();
            let mut items = reversed(group);
            let mut k: usize = 0;
            while items.len() > 0
                invariant
                    self.wf(),
                    self.synsets@ == old(self).synsets@,
                    items@ == g.subrange(k as int, g.len() as int).reverse(),
                    k <= g.len(),
                    count == g.len(),
                    self.entries@ == mid + filed_group(lemma, bucket, g.take(k as int)),
                decreases items@.len(),
            {
                assert(k < count);
                let (pk, e) = items.pop().unwrap();
                assert(g[k as int] == (pk, e));
                let mut e = e;
                e.poskey = Some(pk);
                self.entries.push(LemmaEntry { lemma: lemma.clone(), bucket: bucket.clone(), entry: e });
                assert(filed_group(lemma, bucket, g.take(k + 1)) =~= filed_group(lemma, bucket, g.take(k as int)).push(
                    LemmaEntry { lemma, bucket, entry: e },
                ));
                k = k + 1;
                assert(self.entries@ =~= mid + filed_group(lemma, bucket, g.take(k as int)));
                assert(items@ =~= g.subrange(k as int, g.len() as int).reverse());
            }
            assert(g.take(k as int) =~= g);
            assert(filed(bucket, es.take(done + 1)) == filed(bucket, es.take(done as int)) + filed_group(lemma, bucket, g));
            done = done + 1;
            assert(self.entries@ =~= start + filed(bucket, es.take(done as int)));
            assert(rest@ =~= es.subrange(done as int, es.len() as int).reverse());
        }
        assert(es.take(done as int) =~= es);
    }

    /// Adds every sense set of a file of category `lexname`, in order, each
    /// under the identifier it is listed under. Succeeds when every set can be
    /// added; otherwise stops at the first set that cannot (identifier taken,
    /// by the graph or by an earlier set of the file, or malformed relation
    /// tables) and returns its identifier: the sets before it stay added, the
    /// sets from it on are not.
    pub fn add_synsets(&mut self, lexname: String, synsets: Synsets) -> (r: Result<(), SynsetId>)
        requires
            old(self).wf(),
        ensures
            final(self).wf(),
            final(self).entries_spec() == old(self).entries_spec(),
            match r {
                Ok(()) => {
                    &&& forall|i: int| 0 <= i < synsets.0@.len() ==> #[trigger] addable(old(self).synsets_spec(), synsets.0@, i)
                    &&& added_after(final(self).synsets_spec(), old(self).synsets_spec(), synsets.0@, lexname, synsets.0@.len() as int)
                },
                Err(id) => exists|i: int| {
                    &&& 0 <= i < synsets.0@.len()
                    &&& !#[trigger] addable(old(self).synsets_spec(), synsets.0@, i)
                    &&& forall|j: int| 0 <= j < i ==> #[trigger] addable(old(self).synsets_spec(), synsets.0@, j)
                    &&& synsets.0@[i].0 == id
                    &&& added_after(final(self).synsets_spec(), old(self).synsets_spec(), synsets.0@, lexname, i)
                },
            },
    {
        let ghost ss = synsets.0@;
        let ghost g0 = self.synsets@;
        let ghost n0 = self.synsets@.len();
        let total = synsets.0.len();
        let mut rest = reversed(synsets.0);
        let mut done: usize = 0;
        assert(self.synsets@.subrange(0, n0 as int) =~= g0);
        while rest.len() > 0
            invariant
                self.wf(),
                self.entries@ == old(self).entries@,
                g0 == old(self).synsets@,
                n0 == g0.len(),
                rest@ == ss.subrange(done as int, ss.len() as int).reverse(),
                done <= ss.len(),
                total == ss.len(),
                ss == synsets.0@,
                forall|i: int| 0 <= i < done ==> #[trigger] addable(g0, ss, i),
                added_after(self.synsets@, g0, ss, lexname, done as int),
            decreases rest@.len(),
        {
            assert(done < total);
            let (id, synset) = rest.pop().unwrap();
            assert(ss[done as int] == (id, synset));
            let ghost before = self.synsets@;
            proof {
                assert forall|j: int| 0 <= j < done implies #[trigger] before[n0 + j].id == ss[j].0 by {}
                assert((forall|q: int| 0 <= q < before.len() ==> #[trigger] before[q].id@ != id@) <==> (
                    (forall|q: int| 0 <= q < g0.len() ==> #[trigger] g0[q].id@ != id@)
                    && (forall|j: int| 0 <= j < done ==> #[trigger] ss[j].0@ != id@))) by {
                    if forall|q: int| 0 <= q < before.len() ==> #[trigger] before[q].id@ != id@ {
                        assert forall|q: int| 0 <= q < g0.len() implies #[trigger] g0[q].id@ != id@ by {
                            assert(before.subrange(0, n0 as int)[q] == before[q]);
                        }
                        assert forall|j: int| 0 <= j < done implies #[trigger] ss[j].0@ != id@ by {
                            assert(before[n0 + j].id == ss[j].0);
                        }
                    }
                    if (forall|q: int| 0 <= q < g0.len() ==> #[trigger] g0[q].id@ != id@)
                        && (forall|j: int| 0 <= j < done ==> #[trigger] ss[j].0@ != id@) {
                        assert forall|q: int| 0 <= q < before.len() implies #[trigger] before[q].id@ != id@ by {
                            if q < n0 {
                                assert(before.subrange(0, n0 as int)[q] == before[q]);
                            } else {
                                assert(before[n0 + (q - n0)].id == ss[q - n0].0);
                            }
                        }
                    }
                }
            }
            let keep = id.clone();
            if !self.add_synset(id, lexname.clone(), synset) {
                assert(self.synsets@ == before);
                assert(ss[done as int].0 == keep);
                assert(!addable(g0, ss, done as int));
                assert(added_after(self.synsets@, g0, ss, lexname, done as int));
                assert(ss == synsets.0@ && g0 == old(self).synsets_spec());
                return Err(keep);
            }
            assert(addable(g0, ss, done as int));
            assert forall|i: int| 0 <= i < done + 1 implies {
                let s = #[trigger] self.synsets@[n0 + i];
                &&& s.id == ss[i].0
                &&& s.lexname == lexname
                &&& synset_same_except_rels(s, Synset { id: ss[i].0, lexname, ..ss[i].1 })
                &&& s.rels == ss[i].1.rels
                &&& s.sense_rels == ss[i].1.sense_rels
            } by {
                if i < done {
                    assert(self.synsets@[n0 + i] == before[n0 + i]);
                }
            }
            assert(self.synsets@.subrange(0, n0 as int) =~= before.subrange(0, n0 as int));
            done = done + 1;
            assert(rest@ =~= ss.subrange(done as int, ss.len() as int).reverse());
        }
        Ok(())
    }
}

/// `after` is `before` with every inverse edge derived: the entries and the
/// sense sets stay, in the same order, with the same data, and each relation
/// list is what it was followed by exactly what the authored edges give it.
pub open spec fn closure_of(before: Graph, after: Graph) -> bool {
    let fs = all_senses(before.entries_spec());
    &&& after.entries_spec() == before.entries_spec()
    &&& after.synsets_spec().len() == before.synsets_spec().len()
    &&& after.wf()
    &&& forall|q: int| 0 <= q < before.synsets_spec().len() ==> {
        &&& synset_same_except_rels(before.synsets_spec()[q], #[trigger] after.synsets_spec()[q])
        &&& forall|x: SynsetRel| #[trigger] synset_rel(after.synsets_spec()[q], x)
            == closed_synset_list(before.synsets_spec(), x, synset_rel(before.synsets_spec()[q], x), before.synsets_spec()[q].id@)
        &&& forall|x: SenseRel| #[trigger] synset_sense_rel(after.synsets_spec()[q], x)
            == closed_sense_list(fs, id_views_of(before.synsets_spec()), x, synset_sense_rel(before.synsets_spec()[q], x), before.synsets_spec()[q].id@)
    }
}

/// A graph whose inverse edges have been derived. It can only be made by
/// `add_reverse_links`, which consumes the open graph, so closure runs once.
pub struct ClosedGraph {
    graph: Graph,
}

impl ClosedGraph {
    pub closed spec fn inner(&self) -> Graph {
        self.graph
    }

    /// The closed graph, for reading.
    pub fn graph(&self) -> (r: &Graph)
        ensures
            *r == self.inner(),
    {
        &self.graph
    }

    /// The closed graph, handed on to materialization.
    pub fn into_graph(self) -> (r: Graph)
        ensures
            r == self.inner(),
    {
        self.graph
    }
}

/// Derives every inverse edge of the graph: set-to-set inverses for the eight
/// paired kinds, and both triples of every sense relation whose target
/// resolves.
pub fn add_reverse_links(graph: Graph) -> (r: ClosedGraph)
    requires
        graph.wf(),
    ensures
        closure_of(graph, r.inner()),
{
    let ghost g0 = graph;
    let mut g = graph;
    let loc = g.locator;
    close_synset_rels(&mut g.synsets, &loc);
    let ghost g1 = g.synsets@;
    proof {
        assert forall|q: int| 0 <= q < g0.synsets@.len() implies (#[trigger] g0.synsets@[q]).id == g1[q].id by {
            assert(synset_same_except_rels(g0.synsets@[q], g1[q]));
        }
        loc.lemma_same_ids(g0.synsets@, g1);
    }
    assert(id_views_of(g1) =~= id_views_of(g0.synsets@)) by {
        assert forall|q: int| 0 <= q < g1.len() implies #[trigger] id_views_of(g1)[q] == id_views_of(g0.synsets@)[q] by {
            assert(synset_same_except_rels(g0.synsets@[q], g1[q]));
        }
    }
    close_sense_rels(&mut g.synsets, &g.entries, &loc);
    proof {
        assert forall|q: int| 0 <= q < g0.synsets@.len() implies (#[trigger] g0.synsets@[q]).id == g.synsets@[q].id by {
            assert(synset_same_except_rels(g0.synsets@[q], g1[q]));
            assert(synset_same_except_rels(g1[q], g.synsets@[q]));
        }
        loc.lemma_same_ids(g0.synsets@, g.synsets@);
    }
    assert forall|q: int| 0 <= q < g0.synsets@.len() implies {
        &&& synset_same_except_rels(g0.synsets@[q], #[trigger] g.synsets@[q])
        &&& forall|x: SynsetRel| #[trigger] synset_rel(g.synsets@[q], x)
            == closed_synset_list(g0.synsets@, x, synset_rel(g0.synsets@[q], x), g0.synsets@[q].id@)
        &&& forall|x: SenseRel| #[trigger] synset_sense_rel(g.synsets@[q], x)
            == closed_sense_list(all_senses(g0.entries@), id_views_of(g0.synsets@), x, synset_sense_rel(g0.synsets@[q], x), g0.synsets@[q].id@)
    } by {
        assert(synset_same_except_rels(g0.synsets@[q], g1[q]));
        assert(synset_same_except_rels(g1[q], g.synsets@[q]));
        assert forall|x: SynsetRel| #[trigger] synset_rel(g.synsets@[q], x)
            == closed_synset_list(g0.synsets@, x, synset_rel(g0.synsets@[q], x), g0.synsets@[q].id@) by {
            assert(synset_rel(g.synsets@[q], x) == synset_rel(g1[q], x));
        }
    }
    ClosedGraph { graph: Graph { entries: g.entries, synsets: g.synsets, locator: loc } }
}

} // verus!
