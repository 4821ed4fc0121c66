//! Closure of sense-level relations: every authored sense relation whose
//! target resolves is lifted to both sense sets involved.

use vstd::prelude::*;
use crate::closure::{SynsetLocator, all_wf, ids_unique};
use crate::key_index::{KeyIndex, key_views};
use crate::graph::LemmaEntry;
use crate::ids::SenseId;
use crate::relations::{SENSE_REL_COUNT, SenseRel, lemma_sense_rel_idx};
use crate::wordnet::{Sense, SenseRelation, Synset, sense_links, synset_same_except_rels, synset_sense_rel};

verus! {

/// The senses of the first `n` entries, each with its headword, in entry order.
pub open spec fn flat_senses(es: Seq<LemmaEntry>, n: int) -> Seq<(String, Sense)>
    decreases n,
{
    if n <= 0 {
        Seq::empty()
    } else {
        flat_senses(es, n - 1) + es[n - 1].entry.sense@.map_values(|s: Sense| (es[n - 1].lemma, s))
    }
}

/// All senses of the graph with their headwords.
pub open spec fn all_senses(es: Seq<LemmaEntry>) -> Seq<(String, Sense)> {
    flat_senses(es, es.len() as int)
}

/// Position of the last of the first `n` senses whose identifier is `t`.
pub open spec fn resolve_upto(fs: Seq<(String, Sense)>, t: Seq<char>, n: int) -> Option<int>
    decreases n,
{
    if n <= 0 {
        None
    } else if fs[n - 1].1.id@ == t {
        Some(n - 1)
    } else {
        resolve_upto(fs, t, n - 1)
    }
}

/// Where sense identifier `t` resolves: the sense that carries it.
pub open spec fn resolve(fs: Seq<(String, Sense)>, t: Seq<char>) -> Option<int> {
    resolve_upto(fs, t, fs.len() as int)
}

/// The triple that an edge from `src` to the sense at `r` adds to its source set.
pub open spec fn forward_triple(fs: Seq<(String, Sense)>, src: (String, Sense), r: int) -> SenseRelation {
    SenseRelation { target_synset: fs[r].1.synset, source_lemma: src.0, target_lemma: fs[r].0 }
}

/// The triple that an edge from `src` to the sense at `r` adds to its target
/// set: the source set, headwords swapped.
pub open spec fn inverse_triple(fs: Seq<(String, Sense)>, src: (String, Sense), r: int) -> SenseRelation {
    SenseRelation { target_synset: src.1.synset, source_lemma: fs[r].0, target_lemma: src.0 }
}

/// What one authored edge of kind `k`, from sense `src` to sense id `target`,
/// adds to the list of kind `x` of the sense set with identifier `q`, in a
/// graph whose sense sets have identifiers `ids`: nothing if the target does
/// not resolve; else the forward triple on the source set, then the inverse
/// triple on the target set, the latter only if the source set exists.
pub open spec fn sense_contrib(
    fs: Seq<(String, Sense)>,
    ids: Seq<Seq<char>>,
    k: SenseRel,
    x: SenseRel,
    q: Seq<char>,
    src: (String, Sense),
    target: SenseId,
) -> Seq<SenseRelation> {
    match resolve(fs, target@) {
        None => Seq::empty(),
        Some(r) => (if x == k && src.1.synset@ == q {
            seq![forward_triple(fs, src, r)]
        } else {
            Seq::empty()
        }) + (if k.inverse_spec() == Some(x) && fs[r].1.synset@ == q && ids.contains(src.1.synset@) {
            seq![inverse_triple(fs, src, r)]
        } else {
            Seq::empty()
        }),
    }
}

/// What the edges of kind `k` authored on `src` towards `targets` add.
pub open spec fn contribs_of(
    fs: Seq<(String, Sense)>,
    ids: Seq<Seq<char>>,
    k: SenseRel,
    x: SenseRel,
    q: Seq<char>,
    src: (String, Sense),
    targets: Seq<SenseId>,
) -> Seq<SenseRelation>
    decreases targets.len(),
{
    if targets.len() == 0 {
        Seq::empty()
    } else {
        contribs_of(fs, ids, k, x, q, src, targets.drop_last()) + sense_contrib(fs, ids, k, x, q, src, targets.last())
    }
}

/// What the edges of kind `k` authored on the first `n` senses add to the list
/// of kind `x` of the sense set with identifier `q`.
pub open spec fn sense_added(fs: Seq<(String, Sense)>, ids: Seq<Seq<char>>, k: SenseRel, x: SenseRel, q: Seq<char>, n: int) -> Seq<SenseRelation>
    decreases n,
{
    if n <= 0 {
        Seq::empty()
    } else {
        sense_added(fs, ids, k, x, q, n - 1) + contribs_of(fs, ids, k, x, q, fs[n - 1], sense_links(fs[n - 1].1, k))
    }
}

/// The authored kind whose closure writes the list of kind `x`.
pub open spec fn sense_writer(x: SenseRel) -> SenseRel {
    match x {
        SenseRel::IsParticipleOf => SenseRel::Participle,
        SenseRel::IsPertainymOf => SenseRel::Pertainym,
        SenseRel::IsExemplifiedBySense => SenseRel::ExemplifiesSense,
        SenseRel::IsAgentOf => SenseRel::Agent,
        SenseRel::IsMaterialOf => SenseRel::Material,
        SenseRel::IsEventOf => SenseRel::Event,
        SenseRel::IsInstrumentOf => SenseRel::Instrument,
        SenseRel::IsLocationOf => SenseRel::Location,
        SenseRel::IsByMeansOf => SenseRel::ByMeansOf,
        SenseRel::IsUndergoerOf => SenseRel::Undergoer,
        SenseRel::IsPropertyOf => SenseRel::Property,
        SenseRel::IsResultOf => SenseRel::Result,
        SenseRel::IsStateOf => SenseRel::State,
        SenseRel::IsUsedBy => SenseRel::Uses,
        SenseRel::IsDestinationOf => SenseRel::Destination,
        SenseRel::IsBodyPartOf => SenseRel::BodyPart,
        SenseRel::IsVehicleOf => SenseRel::Vehicle,
        _ => x,
    }
}

pub proof fn lemma_sense_writer(x: SenseRel, k: SenseRel)
    ensures
        sense_writer(x).inverse_spec() is Some,
        k.inverse_spec() is Some ==> ((x == k || k.inverse_spec() == Some(x)) <==> sense_writer(x) == k),
{
}

/// The identifiers of sense sets, in order.
pub open spec fn id_views_of(g: Seq<Synset>) -> Seq<Seq<char>> {
    g.map_values(|s: Synset| s.id@)
}

/// The sense-level list of kind `x` of the sense set with identifier `q`
/// after closure: what was there, then what the edges of its writing kind add.
pub open spec fn closed_sense_list(fs: Seq<(String, Sense)>, ids: Seq<Seq<char>>, x: SenseRel, before: Seq<SenseRelation>, q: Seq<char>) -> Seq<SenseRelation> {
    before + sense_added(fs, ids, sense_writer(x), x, q, fs.len() as int)
}

/// Position of each sense of the graph: its entry, and its place in that entry.
fn sense_positions(es: &Vec<LemmaEntry>) -> (r: Vec<(usize, usize)>)
    ensures
        r@.len() == all_senses(es@).len(),
        forall|f: int| 0 <= f < r@.len() ==> {
            let (a, b) = #[trigger] r@[f];
            &&& a < es@.len()
            &&& b < es@[a as int].entry.sense@.len()
            &&& all_senses(es@)[f] == (es@[a as int].lemma, es@[a as int].entry.sense@[b as int])
        },
{
    let mut r: Vec<(usize, usize)> = Vec::new();
    let mut a: usize = 0;
    while a < es.len()
        invariant
            a <= es@.len(),
            r@.len() == flat_senses(es@, a as int).len(),
            forall|f: int| 0 <= f < r@.len() ==> {
                let (a2, b2) = #[trigger] r@[f];
                &&& a2 < es@.len()
                &&& b2 < es@[a2 as int].entry.sense@.len()
                &&& flat_senses(es@, a as int)[f] == (es@[a2 as int].lemma, es@[a2 as int].entry.sense@[b2 as int])
            },
        decreases es@.len() - a,
    {
        let ghost prev = flat_senses(es@, a as int);
        let ghost row = es@[a as int].entry.sense@.map_values(|s: Sense| (es@[a as int].lemma, s));
        assert(flat_senses(es@, a + 1) == prev + row);
        let n = es[a].entry.sense.len();
        let mut b: usize = 0;
        while b < n
            invariant
                a < es@.len(),
                n == es@[a as int].entry.sense@.len(),
                b <= n,
                row == es@[a as int].entry.sense@.map_values(|s: Sense| (es@[a as int].lemma, s)),
                r@.len() == prev.len() + b,
                forall|f: int| 0 <= f < r@.len() ==> {
                    let (a2, b2) = #[trigger] r@[f];
                    &&& a2 < es@.len()
                    &&& b2 < es@[a2 as int].entry.sense@.len()
                    &&& (prev + row)[f] == (es@[a2 as int].lemma, es@[a2 as int].entry.sense@[b2 as int])
                },
            decreases n - b,
        {
            r.push((a, b));
            b = b + 1;
        }
        a = a + 1;
    }
    r
}

proof fn lemma_resolve_last(fs: Seq<(String, Sense)>, t: Seq<char>, n: int, i: int)
    requires
        0 <= i < n <= fs.len(),
        fs[i].1.id@ == t,
        forall|j: int| i < j < n ==> #[trigger] fs[j].1.id@ != t,
    ensures
        resolve_upto(fs, t, n) == Some(i),
    decreases n,
{
    if n - 1 > i {
        lemma_resolve_last(fs, t, n - 1, i);
    }
}

proof fn lemma_resolve_none(fs: Seq<(String, Sense)>, t: Seq<char>, n: int)
    requires
        0 <= n <= fs.len(),
        forall|j: int| 0 <= j < n ==> #[trigger] fs[j].1.id@ != t,
    ensures
        resolve_upto(fs, t, n) is None,
    decreases n,
{
    if n > 0 {
        lemma_resolve_none(fs, t, n - 1);
    }
}

/// A hash index over the identifiers of the flattened senses.
pub struct SenseLocator {
    keys: Vec<String>,
    index: KeyIndex,
}

impl SenseLocator {
    /// The locator knows the identifier of every sense of `fs`.
    pub closed spec fn covers(&self, fs: Seq<(String, Sense)>) -> bool {
        &&& self.index.wf(key_views(self.keys@))
        &&& self.keys@.len() == fs.len()
        &&& forall|f: int| 0 <= f < fs.len() ==> (#[trigger] self.keys@[f])@ == fs[f].1.id@
    }

    /// Indexes the identifiers of the senses of `es`, in flattened order.
    fn new(es: &Vec<LemmaEntry>, pos: &Vec<(usize, usize)>) -> (r: SenseLocator)
        requires
            positions_match(es@, pos@),
        ensures
            r.covers(all_senses(es@)),
    {
        let ghost fs = all_senses(es@);
        let mut keys: Vec<String> = Vec::new();
        let mut f: usize = 0;
        while f < pos.len()
            invariant
                positions_match(es@, pos@),
                fs == all_senses(es@),
                f <= pos@.len(),
                keys@.len() == f,
                forall|x: int| 0 <= x < f ==> (#[trigger] keys@[x])@ == fs[x].1.id@,
            decreases pos@.len() - f,
        {
            let (a, b) = pos[f];
            assert(fs[f as int] == (es@[a as int].lemma, es@[a as int].entry.sense@[b as int]));
            keys.push(es[a].entry.sense[b].id.0.clone());
            f = f + 1;
        }
        let index = KeyIndex::build(&keys);
        SenseLocator { keys, index }
    }

    /// Position (in the flattened senses) of the sense that identifier `t`
    /// resolves to.
    fn resolve(&self, es: &Vec<LemmaEntry>, t: &SenseId) -> (r: Option<usize>)
        requires
            self.covers(all_senses(es@)),
        ensures
            match resolve(all_senses(es@), t@) {
                Some(f) => r == Some(f as usize),
                None => r is None,
            },
            r matches Some(f) ==> f < all_senses(es@).len() && all_senses(es@)[f as int].1.id@ == t@
                && resolve(all_senses(es@), t@) == Some(f as int),
    {
        let ghost fs = all_senses(es@);
        let r = self.index.find_last(&self.keys, &t.0);
        match r {
            Some(i) => {
                proof {
                    assert(self.keys@[i as int]@ == fs[i as int].1.id@);
                    assert forall|j: int| i < j < fs.len() implies #[trigger] fs[j].1.id@ != t@ by {
                        assert(self.keys@[j]@ == fs[j].1.id@);
                    }
                    lemma_resolve_last(fs, t@, fs.len() as int, i as int);
                }
            },
            None => {
                proof {
                    assert forall|j: int| 0 <= j < fs.len() implies #[trigger] fs[j].1.id@ != t@ by {
                        assert(self.keys@[j]@ == fs[j].1.id@);
                    }
                    lemma_resolve_none(fs, t@, fs.len() as int);
                }
            },
        }
        r
    }
}

/// Appends `triple` to the list of kind `x` of the sense set named `id`, if
/// there is one.
fn push_sense_rel(synsets: &mut Vec<Synset>, loc: &SynsetLocator, id: &crate::ids::SynsetId, x: SenseRel, triple: SenseRelation)
    requires
        loc.covers(old(synsets)@),
        all_wf(old(synsets)@),
        ids_unique(old(synsets)@),
    ensures
        final(synsets)@.len() == old(synsets)@.len(),
        all_wf(final(synsets)@),
        ids_unique(final(synsets)@),
        forall|q: int| 0 <= q < old(synsets)@.len() ==> {
            &&& synset_same_except_rels(old(synsets)@[q], #[trigger] final(synsets)@[q])
            &&& final(synsets)@[q].rels == old(synsets)@[q].rels
            &&& forall|y: SenseRel| #[trigger] synset_sense_rel(final(synsets)@[q], y)
                == synset_sense_rel(old(synsets)@[q], y) + if y == x && old(synsets)@[q].id@ == id@ {
                    seq![triple]
                } else {
                    Seq::empty()
                }
        },
{
    let ghost g0 = synsets@;
    match loc.locate(synsets, id) {
        Some(p) => {
            let xi = x.index();
            synsets[p].sense_rels[xi].push(triple);
            assert forall|q: int| 0 <= q < g0.len() implies {
                &&& synset_same_except_rels(g0[q], #[trigger] synsets@[q])
                &&& synsets@[q].rels == g0[q].rels
                &&& forall|y: SenseRel| #[trigger] synset_sense_rel(synsets@[q], y)
                    == synset_sense_rel(g0[q], y) + if y == x && g0[q].id@ == id@ {
                        seq![triple]
                    } else {
                        Seq::empty()
                    }
            } by {
                assert forall|y: SenseRel| #[trigger] synset_sense_rel(synsets@[q], y)
                    == synset_sense_rel(g0[q], y) + if y == x && g0[q].id@ == id@ {
                        seq![triple]
                    } else {
                        Seq::empty()
                    } by {
                    lemma_sense_rel_idx(y, x);
                    if q != p as int {
                        assert(g0[q].id@ != g0[p as int].id@);
                    }
                    assert(synset_sense_rel(synsets@[q], y) =~= synset_sense_rel(g0[q], y) + if y == x && g0[q].id@ == id@ {
                        seq![triple]
                    } else {
                        Seq::empty()
                    });
                }
            }
            assert(ids_unique(synsets@)) by {
                assert forall|a: int, b: int| 0 <= a < g0.len() && 0 <= b < g0.len() && a != b implies #[trigger] synsets@[a].id@ != #[trigger] synsets@[b].id@ by {
                    assert(synsets@[a].id == g0[a].id);
                    assert(synsets@[b].id == g0[b].id);
                }
            }
            assert(all_wf(synsets@)) by {
                assert forall|a: int| 0 <= a < g0.len() implies (#[trigger] synsets@[a]).wf() by {
                    assert(g0[a].wf());
                }
            }
        },
        None => {
            assert forall|q: int| 0 <= q < g0.len() implies (#[trigger] synsets@[q]).wf() && forall|y: SenseRel| #[trigger] synset_sense_rel(synsets@[q], y)
                == synset_sense_rel(g0[q], y) + if y == x && g0[q].id@ == id@ {
                    seq![triple]
                } else {
                    Seq::empty()
                } by {
                assert forall|y: SenseRel| #[trigger] synset_sense_rel(synsets@[q], y)
                    == synset_sense_rel(g0[q], y) + if y == x && g0[q].id@ == id@ {
                        seq![triple]
                    } else {
                        Seq::empty()
                    } by {
                    assert(synset_sense_rel(synsets@[q], y) =~= synset_sense_rel(g0[q], y) + Seq::empty());
                }
            }
        },
    }
}

/// The positions computed by `sense_positions` point at the flattened senses.
pub open spec fn positions_match(es: Seq<LemmaEntry>, pos: Seq<(usize, usize)>) -> bool {
    &&& pos.len() == all_senses(es).len()
    &&& forall|f: int| 0 <= f < pos.len() ==> {
        let (a, b) = #[trigger] pos[f];
        &&& a < es.len()
        &&& b < es[a as int].entry.sense@.len()
        &&& all_senses(es)[f] == (es[a as int].lemma, es[a as int].entry.sense@[b as int])
    }
}

/// Lifts every authored sense relation of kind `k` whose target resolves:
/// the forward triple to the source's set, the inverse one to the target's.
#[verifier::rlimit(40)]
fn close_sense_kind(
    synsets: &mut Vec<Synset>,
    es: &Vec<LemmaEntry>,
    pos: &Vec<(usize, usize)>,
    senses: &SenseLocator,
    loc: &SynsetLocator,
    k: SenseRel,
    ik: SenseRel,
)
    requires
        positions_match(es@, pos@),
        senses.covers(all_senses(es@)),
        loc.covers(old(synsets)@),
        all_wf(old(synsets)@),
        ids_unique(old(synsets)@),
        k.inverse_spec() == Some(ik),
    ensures
        final(synsets)@.len() == old(synsets)@.len(),
        all_wf(final(synsets)@),
        ids_unique(final(synsets)@),
        forall|q: int| 0 <= q < old(synsets)@.len() ==> {
            &&& synset_same_except_rels(old(synsets)@[q], #[trigger] final(synsets)@[q])
            &&& final(synsets)@[q].rels == old(synsets)@[q].rels
            &&& forall|x: SenseRel| #[trigger] synset_sense_rel(final(synsets)@[q], x)
                == synset_sense_rel(old(synsets)@[q], x) + sense_added(all_senses(es@), id_views_of(old(synsets)@), k, x, old(synsets)@[q].id@, all_senses(es@).len() as int)
        },
{
    let ghost fs = all_senses(es@);
    let ghost g0 = synsets@;
    let ghost ids = id_views_of(g0);
    let n = synsets.len();
    let ki = k.index();
    let nf = pos.len();
    let mut f: usize = 0;
    while f < nf
        invariant
            positions_match(es@, pos@),
            senses.covers(fs),
            loc.covers(g0),
            ids == id_views_of(g0),
            fs == all_senses(es@),
            nf == fs.len(),
            f <= nf,
            ki == k.idx(),
            k.inverse_spec() == Some(ik),
            n == g0.len(),
            synsets@.len() == n,
            all_wf(synsets@),
            ids_unique(synsets@),
            forall|q: int| 0 <= q < n ==> {
                &&& synset_same_except_rels(g0[q], #[trigger] synsets@[q])
                &&& synsets@[q].rels == g0[q].rels
                &&& forall|x: SenseRel| #[trigger] synset_sense_rel(synsets@[q], x)
                    == synset_sense_rel(g0[q], x) + sense_added(fs, ids, k, x, g0[q].id@, f as int)
            },
        decreases nf - f,
    {
        let (a, b) = pos[f];
        let sense = &es[a].entry.sense[b];
        assert(fs[f as int] == (es@[a as int].lemma, *sense));
        let ghost links = sense_links(*sense, k);
        let m = if ki < sense.links.len() {
            sense.links[ki].len()
        } else {
            0
        };
        let mut j: usize = 0;
        while j < m
            invariant
                positions_match(es@, pos@),
                senses.covers(fs),
                loc.covers(g0),
                ids == id_views_of(g0),
                fs == all_senses(es@),
                nf == fs.len(),
                f < nf,
                ki == k.idx(),
                k.inverse_spec() == Some(ik),
                a < es@.len(),
                b < es@[a as int].entry.sense@.len(),
                *sense == es@[a as int].entry.sense@[b as int],
                fs[f as int] == (es@[a as int].lemma, *sense),
                links == sense_links(*sense, k),
                m == links.len(),
                j <= m,
                n == g0.len(),
                synsets@.len() == n,
                all_wf(synsets@),
                ids_unique(synsets@),
                forall|q: int| 0 <= q < n ==> {
                    &&& synset_same_except_rels(g0[q], #[trigger] synsets@[q])
                    &&& synsets@[q].rels == g0[q].rels
                    &&& forall|x: SenseRel| #[trigger] synset_sense_rel(synsets@[q], x)
                        == synset_sense_rel(g0[q], x) + sense_added(fs, ids, k, x, g0[q].id@, f as int)
                            + contribs_of(fs, ids, k, x, g0[q].id@, fs[f as int], links.take(j as int))
                },
            decreases m - j,
        {
            let target = &sense.links[ki][j];
            assert(*target == links[j as int]);
            assert(links.take(j + 1).drop_last() =~= links.take(j as int));
            let ghost c0 = synsets@;
            match senses.resolve(es, target) {
                Some(r) => {
                    let (ra, rb) = pos[r];
                    let tsense = &es[ra].entry.sense[rb];
                    assert(fs[r as int] == (es@[ra as int].lemma, *tsense));
                    assert(resolve(fs, links[j as int]@) == Some(r as int));
                    let fwd = SenseRelation {
                        target_synset: tsense.synset.clone(),
                        source_lemma: es[a].lemma.clone(),
                        target_lemma: es[ra].lemma.clone(),
                    };
                    let inv = SenseRelation {
                        target_synset: sense.synset.clone(),
                        source_lemma: es[ra].lemma.clone(),
                        target_lemma: es[a].lemma.clone(),
                    };
                    assert(fwd == forward_triple(fs, fs[f as int], r as int));
                    assert(inv == inverse_triple(fs, fs[f as int], r as int));
                    proof {
                        assert forall|q: int| 0 <= q < n implies (#[trigger] g0[q]).id == c0[q].id by {
                            assert(synset_same_except_rels(g0[q], c0[q]));
                        }
                        loc.lemma_same_ids(g0, c0);
                    }
                    push_sense_rel(synsets, loc, &sense.synset, k, fwd);
                    let ghost c1 = synsets@;
                    proof {
                        assert forall|q: int| 0 <= q < n implies (#[trigger] g0[q]).id == c1[q].id by {
                            assert(synset_same_except_rels(g0[q], c0[q]));
                            assert(synset_same_except_rels(c0[q], c1[q]));
                        }
                        loc.lemma_same_ids(g0, c1);
                    }
                    let src_found = match loc.locate(synsets, &sense.synset) {
                        Some(_) => true,
                        None => false,
                    };
                    proof {
                        if src_found {
                            let p = choose|p: int| 0 <= p < n && #[trigger] c1[p].id@ == sense.synset@;
                            assert(synset_same_except_rels(g0[p], c0[p]));
                            assert(synset_same_except_rels(c0[p], c1[p]));
                            assert(ids[p] == g0[p].id@);
                        } else {
                            assert forall|i: int| 0 <= i < ids.len() implies ids[i] != sense.synset@ by {
                                assert(synset_same_except_rels(g0[i], c0[i]));
                                assert(synset_same_except_rels(c0[i], c1[i]));
                                assert(c1[i].id@ != sense.synset@);
                            }
                        }
                    }
                    assert(src_found == ids.contains(sense.synset@));
                    if src_found {
                        push_sense_rel(synsets, loc, &tsense.synset, ik, inv);
                    }
                    assert forall|q: int| 0 <= q < n implies {
                        &&& synset_same_except_rels(g0[q], #[trigger] synsets@[q])
                        &&& synsets@[q].rels == g0[q].rels
                        &&& forall|x: SenseRel| #[trigger] synset_sense_rel(synsets@[q], x)
                            == synset_sense_rel(g0[q], x) + sense_added(fs, ids, k, x, g0[q].id@, f as int)
                                + contribs_of(fs, ids, k, x, g0[q].id@, fs[f as int], links.take(j + 1))
                    } by {
                        assert(synset_same_except_rels(c0[q], c1[q]));
                        assert(synset_same_except_rels(c1[q], synsets@[q]));
                        assert forall|x: SenseRel| #[trigger] synset_sense_rel(synsets@[q], x)
                            == synset_sense_rel(g0[q], x) + sense_added(fs, ids, k, x, g0[q].id@, f as int)
                                + contribs_of(fs, ids, k, x, g0[q].id@, fs[f as int], links.take(j + 1)) by {
                            assert(synset_sense_rel(c1[q], x) == synset_sense_rel(c0[q], x) + if x == k && c0[q].id@ == sense.synset@ {
                                seq![fwd]
                            } else {
                                Seq::empty()
                            });
                            assert(synset_sense_rel(synsets@[q], x) == synset_sense_rel(c1[q], x) + if src_found && x == ik && c1[q].id@ == tsense.synset@ {
                                seq![inv]
                            } else {
                                Seq::empty()
                            });
                            assert(sense_contrib(fs, ids, k, x, g0[q].id@, fs[f as int], links[j as int]) == (if x == k && sense.synset@ == g0[q].id@ {
                                seq![fwd]
                            } else {
                                Seq::empty()
                            }) + (if k.inverse_spec() == Some(x) && tsense.synset@ == g0[q].id@ && ids.contains(sense.synset@) {
                                seq![inv]
                            } else {
                                Seq::empty()
                            }));
                            assert(synset_sense_rel(synsets@[q], x) =~= synset_sense_rel(g0[q], x) + sense_added(fs, ids, k, x, g0[q].id@, f as int)
                                + contribs_of(fs, ids, k, x, g0[q].id@, fs[f as int], links.take(j + 1)));
                        }
                    }
                },
                None => {
                    assert forall|q: int| 0 <= q < n implies (#[trigger] synsets@[q]).wf() && forall|x: SenseRel| #[trigger] synset_sense_rel(synsets@[q], x)
                        == synset_sense_rel(g0[q], x) + sense_added(fs, ids, k, x, g0[q].id@, f as int)
                            + contribs_of(fs, ids, k, x, g0[q].id@, fs[f as int], links.take(j + 1)) by {
                        assert forall|x: SenseRel| #[trigger] synset_sense_rel(synsets@[q], x)
                            == synset_sense_rel(g0[q], x) + sense_added(fs, ids, k, x, g0[q].id@, f as int)
                                + contribs_of(fs, ids, k, x, g0[q].id@, fs[f as int], links.take(j + 1)) by {
                            assert(synset_sense_rel(synsets@[q], x) =~= synset_sense_rel(g0[q], x) + sense_added(fs, ids, k, x, g0[q].id@, f as int)
                                + contribs_of(fs, ids, k, x, g0[q].id@, fs[f as int], links.take(j + 1)));
                        }
                    }
                },
            }
            j = j + 1;
        }
        assert(links.take(m as int) =~= links);
        assert forall|q: int| 0 <= q < n implies (#[trigger] synsets@[q]).wf() && forall|x: SenseRel| #[trigger] synset_sense_rel(synsets@[q], x)
            == synset_sense_rel(g0[q], x) + sense_added(fs, ids, k, x, g0[q].id@, f + 1) by {
            assert forall|x: SenseRel| #[trigger] synset_sense_rel(synsets@[q], x)
                == synset_sense_rel(g0[q], x) + sense_added(fs, ids, k, x, g0[q].id@, f + 1) by {
                assert(synset_sense_rel(g0[q], x) + sense_added(fs, ids, k, x, g0[q].id@, f as int)
                    + contribs_of(fs, ids, k, x, g0[q].id@, fs[f as int], links) =~= synset_sense_rel(g0[q], x) + sense_added(fs, ids, k, x, g0[q].id@, f + 1));
            }
        }
        f = f + 1;
    }
}


proof fn lemma_contribs_other(
    fs: Seq<(String, Sense)>,
    ids: Seq<Seq<char>>,
    k: SenseRel,
    x: SenseRel,
    q: Seq<char>,
    src: (String, Sense),
    targets: Seq<SenseId>,
)
    requires
        x != k,
        k.inverse_spec() != Some(x),
    ensures
        contribs_of(fs, ids, k, x, q, src, targets) == Seq::<SenseRelation>::empty(),
    decreases targets.len(),
{
    if targets.len() > 0 {
        lemma_contribs_other(fs, ids, k, x, q, src, targets.drop_last());
        assert(sense_contrib(fs, ids, k, x, q, src, targets.last()) =~= Seq::<SenseRelation>::empty());
        assert(contribs_of(fs, ids, k, x, q, src, targets) =~= Seq::<SenseRelation>::empty());
    }
}

/// The edges of a kind add nothing to the lists of kinds they do not write.
proof fn lemma_sense_added_other(fs: Seq<(String, Sense)>, ids: Seq<Seq<char>>, k: SenseRel, x: SenseRel, q: Seq<char>, n: int)
    requires
        x != k,
        k.inverse_spec() != Some(x),
    ensures
        sense_added(fs, ids, k, x, q, n) == Seq::<SenseRelation>::empty(),
    decreases n,
{
    if n > 0 {
        lemma_sense_added_other(fs, ids, k, x, q, n - 1);
        lemma_contribs_other(fs, ids, k, x, q, fs[n - 1], sense_links(fs[n - 1].1, k));
        assert(sense_added(fs, ids, k, x, q, n) =~= Seq::<SenseRelation>::empty());
    }
}

/// The list of kind `x` of sense set `q` once the kinds before position `f`
/// are closed.
pub open spec fn sense_list_at_stage(fs: Seq<(String, Sense)>, ids: Seq<Seq<char>>, x: SenseRel, before: Seq<SenseRelation>, q: Seq<char>, f: int) -> Seq<SenseRelation> {
    if sense_writer(x).idx() < f {
        closed_sense_list(fs, ids, x, before, q)
    } else {
        before
    }
}

/// Lifts every authored sense relation whose target resolves, for all kinds:
/// each sense-level list gains exactly what the edges of its writing kind add.
pub fn close_sense_rels(synsets: &mut Vec<Synset>, es: &Vec<LemmaEntry>, loc: &SynsetLocator)
    requires
        loc.covers(old(synsets)@),
        all_wf(old(synsets)@),
        ids_unique(old(synsets)@),
    ensures
        final(synsets)@.len() == old(synsets)@.len(),
        all_wf(final(synsets)@),
        ids_unique(final(synsets)@),
        forall|q: int| 0 <= q < old(synsets)@.len() ==> {
            &&& synset_same_except_rels(old(synsets)@[q], #[trigger] final(synsets)@[q])
            &&& final(synsets)@[q].rels == old(synsets)@[q].rels
            &&& forall|x: SenseRel| #[trigger] synset_sense_rel(final(synsets)@[q], x)
                == closed_sense_list(all_senses(es@), id_views_of(old(synsets)@), x, synset_sense_rel(old(synsets)@[q], x), old(synsets)@[q].id@)
        },
{
    let ghost fs = all_senses(es@);
    let ghost g0 = synsets@;
    let ghost ids = id_views_of(g0);
    let n = synsets.len();
    let pos = sense_positions(es);
    let senses = SenseLocator::new(es, &pos);
    let mut f: usize = 0;
    while f < SENSE_REL_COUNT
        invariant
            positions_match(es@, pos@),
            senses.covers(fs),
            loc.covers(g0),
            ids == id_views_of(g0),
            fs == all_senses(es@),
            f <= SENSE_REL_COUNT,
            n == g0.len(),
            synsets@.len() == n,
            all_wf(synsets@),
            ids_unique(synsets@),
            forall|q: int| 0 <= q < n ==> {
                &&& synset_same_except_rels(g0[q], #[trigger] synsets@[q])
                &&& synsets@[q].rels == g0[q].rels
                &&& forall|x: SenseRel| #[trigger] synset_sense_rel(synsets@[q], x)
                    == sense_list_at_stage(fs, ids, x, synset_sense_rel(g0[q], x), g0[q].id@, f as int)
            },
        decreases SENSE_REL_COUNT - f,
    {
        let k = SenseRel::from_index(f);
        let ghost g1 = synsets@;
        match k.inverse() {
            Some(ik) => {
                proof {
                    assert forall|q: int| 0 <= q < n implies (#[trigger] g0[q]).id == g1[q].id by {
                        assert(synset_same_except_rels(g0[q], g1[q]));
                    }
                    loc.lemma_same_ids(g0, g1);
                }
                assert(id_views_of(g1) =~= ids) by {
                    assert(g1.len() == n);
                    assert forall|q: int| 0 <= q < n implies #[trigger] id_views_of(g1)[q] == ids[q] by {
                        assert(synset_same_except_rels(g0[q], g1[q]));
                        assert(id_views_of(g1)[q] == g1[q].id@);
                        assert(ids[q] == g0[q].id@);
                    }
                }
                close_sense_kind(synsets, es, &pos, &senses, loc, k, ik);
                assert forall|q: int| 0 <= q < n implies (#[trigger] synsets@[q]).wf() && forall|x: SenseRel| #[trigger] synset_sense_rel(synsets@[q], x)
                    == sense_list_at_stage(fs, ids, x, synset_sense_rel(g0[q], x), g0[q].id@, f + 1) by {
                    assert(synset_same_except_rels(g1[q], synsets@[q]));
                    assert forall|x: SenseRel| #[trigger] synset_sense_rel(synsets@[q], x)
                        == sense_list_at_stage(fs, ids, x, synset_sense_rel(g0[q], x), g0[q].id@, f + 1) by {
                        lemma_sense_writer(x, k);
                        lemma_sense_rel_idx(sense_writer(x), k);
                        if sense_writer(x) != k {
                            lemma_sense_added_other(fs, ids, k, x, g0[q].id@, fs.len() as int);
                            assert(synset_sense_rel(synsets@[q], x) =~= synset_sense_rel(g1[q], x));
                        }
                    }
                }
            },
            None => {
                assert forall|q: int| 0 <= q < n implies (#[trigger] synsets@[q]).wf() && forall|x: SenseRel| #[trigger] synset_sense_rel(synsets@[q], x)
                    == sense_list_at_stage(fs, ids, x, synset_sense_rel(g0[q], x), g0[q].id@, f + 1) by {
                    assert forall|x: SenseRel| #[trigger] synset_sense_rel(synsets@[q], x)
                        == sense_list_at_stage(fs, ids, x, synset_sense_rel(g0[q], x), g0[q].id@, f + 1) by {
                        lemma_sense_writer(x, k);
                        lemma_sense_rel_idx(sense_writer(x), k);
                    }
                }
            },
        }
        f = f + 1;
    }
    assert forall|q: int| 0 <= q < n implies (#[trigger] synsets@[q]).wf() && forall|x: SenseRel| #[trigger] synset_sense_rel(synsets@[q], x)
        == closed_sense_list(fs, ids, x, synset_sense_rel(g0[q], x), g0[q].id@) by {
        assert forall|x: SenseRel| #[trigger] synset_sense_rel(synsets@[q], x)
            == closed_sense_list(fs, ids, x, synset_sense_rel(g0[q], x), g0[q].id@) by {
            lemma_sense_rel_idx(sense_writer(x), x);
        }
    }
}

} // verus!
