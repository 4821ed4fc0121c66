//! Relation closure: derives every inverse edge from the edges authored in
//! the source data, on the whole graph at once.

use vstd::prelude::*;
use crate::ids::SynsetId;
use crate::key_index::{KeyIndex, key_views};
use crate::relations::{SYNSET_REL_COUNT, SynsetRel, lemma_synset_rel_idx};
use crate::wordnet::{Synset, synset_rel, synset_same_except_rels};

verus! {

/// No two sense sets share an identifier.
pub open spec fn ids_unique(g: Seq<Synset>) -> bool {
    forall|a: int, b: int| 0 <= a < g.len() && 0 <= b < g.len() && a != b ==> #[trigger] g[a].id@ != #[trigger] g[b].id@
}

/// Every sense set holds one list per relation kind.
pub open spec fn all_wf(g: Seq<Synset>) -> bool {
    forall|a: int| 0 <= a < g.len() ==> (#[trigger] g[a]).wf()
}

/// One copy of `src` for each entry of `targets` that names `t`.
pub open spec fn hits(targets: Seq<SynsetId>, t: Seq<char>, src: SynsetId) -> Seq<SynsetId>
    decreases targets.len(),
{
    if targets.len() == 0 {
        Seq::empty()
    } else {
        hits(targets.drop_last(), t, src) + if targets.last()@ == t {
            seq![src]
        } else {
            Seq::empty()
        }
    }
}

/// The sources of the authored edges of kind `k` into `t`, from the first `n`
/// sense sets of `g`, in graph order, one per edge.
pub open spec fn inverse_sources(g: Seq<Synset>, k: SynsetRel, t: Seq<char>, n: int) -> Seq<SynsetId>
    decreases n,
{
    if n <= 0 {
        Seq::empty()
    } else {
        inverse_sources(g, k, t, n - 1) + hits(synset_rel(g[n - 1], k), t, g[n - 1].id)
    }
}

/// The authored kind whose inverse is stored under `x`, if any.
pub open spec fn authored_of(x: SynsetRel) -> Option<SynsetRel> {
    match x {
        SynsetRel::Hyponym => Some(SynsetRel::Hypernym),
        SynsetRel::InstanceHyponym => Some(SynsetRel::InstanceHypernym),
        SynsetRel::HoloMember => Some(SynsetRel::MeroMember),
        SynsetRel::HoloPart => Some(SynsetRel::MeroPart),
        SynsetRel::HoloSubstance => Some(SynsetRel::MeroSubstance),
        SynsetRel::IsCausedBy => Some(SynsetRel::Causes),
        SynsetRel::IsExemplifiedBy => Some(SynsetRel::Exemplifies),
        SynsetRel::IsEntailedBy => Some(SynsetRel::Entails),
        _ => None,
    }
}

proof fn lemma_authored_of(x: SynsetRel, k: SynsetRel)
    ensures
        authored_of(x) == Some(k) <==> k.inverse_spec() == Some(x),
{
}

/// The set-to-set list of kind `x` of the sense set with identifier `t`
/// after closure of `g`: what was there, then one entry per authored edge
/// whose inverse `x` holds.
pub open spec fn closed_synset_list(g: Seq<Synset>, x: SynsetRel, before: Seq<SynsetId>, t: Seq<char>) -> Seq<SynsetId> {
    match authored_of(x) {
        Some(k) => before + inverse_sources(g, k, t, g.len() as int),
        None => before,
    }
}

/// A hash index over the identifiers of the sense sets of the arena.
pub struct SynsetLocator {
    keys: Vec<String>,
    index: KeyIndex,
}

impl SynsetLocator {
    /// The locator knows the identifier at every position of `g`.
    pub closed spec fn covers(&self, g: Seq<Synset>) -> bool {
        &&& self.index.wf(key_views(self.keys@))
        &&& self.keys@.len() == g.len()
        &&& forall|q: int| 0 <= q < g.len() ==> (#[trigger] self.keys@[q])@ == g[q].id@
    }

    /// Indexes the identifiers of `synsets`.
    pub fn new(synsets: &Vec<Synset>) -> (r: SynsetLocator)
        ensures
            r.covers(synsets@),
    {
        let mut keys: Vec<String> = Vec::new();
        let mut i: usize = 0;
        while i < synsets.len()
            invariant
                i <= synsets@.len(),
                keys@.len() == i,
                forall|q: int| 0 <= q < i ==> (#[trigger] keys@[q])@ == synsets@[q].id@,
            decreases synsets@.len() - i,
        {
            keys.push(synsets[i].id.0.clone());
            i = i + 1;
        }
        let index = KeyIndex::build(&keys);
        SynsetLocator { keys, index }
    }

    /// A locator of no sense sets.
    pub fn empty() -> (r: SynsetLocator)
        ensures
            r.covers(Seq::empty()),
    {
        let keys: Vec<String> = Vec::new();
        let index = KeyIndex::build(&keys);
        SynsetLocator { keys, index }
    }

    /// Covers one more sense set, appended to the arena.
    pub fn insert(&mut self, id: &SynsetId, Ghost(g): Ghost<Seq<Synset>>, Ghost(s): Ghost<Synset>)
        requires
            old(self).covers(g),
            s.id@ == id@,
        ensures
            final(self).covers(g.push(s)),
    {
        self.index.insert(&mut self.keys, id.0.clone());
        assert forall|q: int| 0 <= q < g.len() + 1 implies (#[trigger] self.keys@[q])@ == g.push(s)[q].id@ by {
            if q < g.len() {
                assert(self.keys@[q] == old(self).keys@[q]);
            }
        }
    }

    /// A locator for `g1` serves any arena with the same identifiers.
    pub proof fn lemma_same_ids(&self, g1: Seq<Synset>, g2: Seq<Synset>)
        requires
            self.covers(g1),
            g1.len() == g2.len(),
            forall|q: int| 0 <= q < g1.len() ==> (#[trigger] g1[q]).id == g2[q].id,
        ensures
            self.covers(g2),
    {
        assert forall|q: int| 0 <= q < g2.len() implies (#[trigger] self.keys@[q])@ == g2[q].id@ by {
            assert(g1[q].id == g2[q].id);
        }
    }

    /// Position of the sense set with identifier `id`, if there is one.
    pub fn locate(&self, synsets: &Vec<Synset>, id: &SynsetId) -> (r: Option<usize>)
        requires
            self.covers(synsets@),
            ids_unique(synsets@),
        ensures
            match r {
                Some(p) => p < synsets@.len() && synsets@[p as int].id@ == id@,
                None => forall|q: int| 0 <= q < synsets@.len() ==> #[trigger] synsets@[q].id@ != id@,
            },
    {
        let r = self.index.find_last(&self.keys, &id.0);
        match r {
            Some(p) => {
                assert(self.keys@[p as int]@ == synsets@[p as int].id@);
            },
            None => {
                assert forall|q: int| 0 <= q < synsets@.len() implies #[trigger] synsets@[q].id@ != id@ by {
                    assert(self.keys@[q]@ == synsets@[q].id@);
                }
            },
        }
        r
    }
}

/// Appends, for every authored edge of kind `k` from a sense set `A` to a
/// sense set `B`, the identifier of `A` to `B`'s list of kind `ik`.
fn close_synset_kind(synsets: &mut Vec<Synset>, loc: &SynsetLocator, k: SynsetRel, ik: SynsetRel)
    requires
        loc.covers(old(synsets)@),
        all_wf(old(synsets)@),
        ids_unique(old(synsets)@),
        k != ik,
    ensures
        final(synsets)@.len() == old(synsets)@.len(),
        all_wf(final(synsets)@),
        forall|q: int| 0 <= q < old(synsets)@.len() ==> {
            &&& synset_same_except_rels(old(synsets)@[q], #[trigger] final(synsets)@[q])
            &&& final(synsets)@[q].sense_rels == old(synsets)@[q].sense_rels
            &&& synset_rel(final(synsets)@[q], ik) == synset_rel(old(synsets)@[q], ik)
                + inverse_sources(old(synsets)@, k, old(synsets)@[q].id@, old(synsets)@.len() as int)
            &&& forall|x: SynsetRel| x != ik ==> #[trigger] synset_rel(final(synsets)@[q], x)
                == synset_rel(old(synsets)@[q], x)
        },
{
    let ghost g0 = synsets@;
    let n = synsets.len();
    let ki = k.index();
    let mut i: usize = 0;
    while i < n
        invariant
            loc.covers(g0),
            n == g0.len(),
            synsets@.len() == n,
            i <= n,
            ki == k.idx(),
            k != ik,
            all_wf(g0),
            ids_unique(g0),
            all_wf(synsets@),
            forall|q: int| 0 <= q < n ==> {
                &&& synset_same_except_rels(g0[q], #[trigger] synsets@[q])
                &&& synsets@[q].sense_rels == g0[q].sense_rels
                &&& synset_rel(synsets@[q], ik) == synset_rel(g0[q], ik) + inverse_sources(g0, k, g0[q].id@, i as int)
                &&& forall|x: SynsetRel| x != ik ==> #[trigger] synset_rel(synsets@[q], x) == synset_rel(g0[q], x)
            },
        decreases n - i,
    {
        let m = synsets[i].rels[ki].len();
        let ghost row = synset_rel(g0[i as int], k);
        let ghost src0 = g0[i as int].id;
        assert(synset_rel(synsets@[i as int], k) == row);
        let mut j: usize = 0;
        while j < m
            invariant
                loc.covers(g0),
                n == g0.len(),
                synsets@.len() == n,
                i < n,
                j <= m,
                m == row.len(),
                ki == k.idx(),
                k != ik,
                row == synset_rel(g0[i as int], k),
                src0 == g0[i as int].id,
                all_wf(g0),
                ids_unique(g0),
                all_wf(synsets@),
                forall|q: int| 0 <= q < n ==> {
                    &&& synset_same_except_rels(g0[q], #[trigger] synsets@[q])
                    &&& synsets@[q].sense_rels == g0[q].sense_rels
                    &&& synset_rel(synsets@[q], ik) == synset_rel(g0[q], ik) + inverse_sources(g0, k, g0[q].id@, i as int)
                        + hits(row.take(j as int), g0[q].id@, src0)
                    &&& forall|x: SynsetRel| x != ik ==> #[trigger] synset_rel(synsets@[q], x) == synset_rel(g0[q], x)
                },
            decreases m - j,
        {
            assert(synset_rel(synsets@[i as int], k) == row);
            let t = synsets[i].rels[ki][j].clone();
            assert(t == row[j as int]);
            let ghost before = synsets@;
            assert(row.take(j + 1).drop_last() =~= row.take(j as int));
            proof {
                assert forall|q: int| 0 <= q < n implies (#[trigger] g0[q]).id == synsets@[q].id by {
                    assert(synset_same_except_rels(g0[q], synsets@[q]));
                }
                loc.lemma_same_ids(g0, synsets@);
                assert(ids_unique(synsets@)) by {
                    assert forall|a: int, b: int| 0 <= a < n && 0 <= b < n && a != b implies #[trigger] synsets@[a].id@ != #[trigger] synsets@[b].id@ by {
                        assert(synset_same_except_rels(g0[a], synsets@[a]));
                        assert(synset_same_except_rels(g0[b], synsets@[b]));
                    }
                }
            }
            match loc.locate(synsets, &t) {
                Some(p) => {
                    let src = synsets[i].id.clone();
                    synsets[p].add_rel(ik, src);
                    assert forall|q: int| 0 <= q < n implies {
                        &&& synset_same_except_rels(g0[q], #[trigger] synsets@[q])
                        &&& synsets@[q].sense_rels == g0[q].sense_rels
                        &&& synset_rel(synsets@[q], ik) == synset_rel(g0[q], ik) + inverse_sources(g0, k, g0[q].id@, i as int)
                            + hits(row.take(j + 1), g0[q].id@, src0)
                        &&& forall|x: SynsetRel| x != ik ==> #[trigger] synset_rel(synsets@[q], x) == synset_rel(g0[q], x)
                    } by {
                        if q == p {
                            assert(synset_rel(synsets@[q], ik) =~= synset_rel(g0[q], ik) + inverse_sources(g0, k, g0[q].id@, i as int)
                                + hits(row.take(j + 1), g0[q].id@, src0));
                        } else {
                            assert(synsets@[q] == before[q]);
                            assert(g0[q].id@ != t@);
                        }
                    }
                },
                None => {
                    assert forall|q: int| 0 <= q < n implies synset_rel(synsets@[q], ik) == synset_rel(g0[q], ik)
                        + inverse_sources(g0, k, g0[q].id@, i as int) + hits(row.take(j + 1), g0[q].id@, src0) by {
                        assert(synsets@[q].id@ != t@);
                    }
                },
            }
            j = j + 1;
        }
        assert(row.take(m as int) =~= row);
        assert forall|q: int| 0 <= q < n implies synset_rel(synsets@[q], ik) == synset_rel(g0[q], ik)
            + inverse_sources(g0, k, g0[q].id@, i + 1) by {
            assert(synset_rel(g0[q], ik) + inverse_sources(g0, k, g0[q].id@, i as int) + hits(row, g0[q].id@, src0)
                =~= synset_rel(g0[q], ik) + inverse_sources(g0, k, g0[q].id@, i + 1));
        }
        i = i + 1;
    }
}


proof fn lemma_inverse_sources_frame(g1: Seq<Synset>, g2: Seq<Synset>, k: SynsetRel, t: Seq<char>, n: int)
    requires
        0 <= n <= g1.len(),
        n <= g2.len(),
        forall|q: int| 0 <= q < n ==> (#[trigger] g1[q]).id == g2[q].id && synset_rel(g1[q], k) == synset_rel(g2[q], k),
    ensures
        inverse_sources(g1, k, t, n) == inverse_sources(g2, k, t, n),
    decreases n,
{
    if n > 0 {
        assert forall|q: int| 0 <= q < n - 1 implies (#[trigger] g1[q]).id == g2[q].id && synset_rel(g1[q], k) == synset_rel(g2[q], k) by {
            assert(g1[q].id == g2[q].id && synset_rel(g1[q], k) == synset_rel(g2[q], k));
        }
        lemma_inverse_sources_frame(g1, g2, k, t, n - 1);
        assert(g1[n - 1].id == g2[n - 1].id);
    }
}

/// Closes every set-to-set kind that has an inverse: each list of an
/// inverse kind gains one entry per authored edge into its sense set, and
/// every other list is left as it was.
pub fn close_synset_rels(synsets: &mut Vec<Synset>, loc: &SynsetLocator)
    requires
        loc.covers(old(synsets)@),
        all_wf(old(synsets)@),
        ids_unique(old(synsets)@),
    ensures
        final(synsets)@.len() == old(synsets)@.len(),
        all_wf(final(synsets)@),
        forall|q: int| 0 <= q < old(synsets)@.len() ==> {
            &&& synset_same_except_rels(old(synsets)@[q], #[trigger] final(synsets)@[q])
            &&& final(synsets)@[q].sense_rels == old(synsets)@[q].sense_rels
            &&& forall|x: SynsetRel| #[trigger] synset_rel(final(synsets)@[q], x)
                == closed_synset_list(old(synsets)@, x, synset_rel(old(synsets)@[q], x), old(synsets)@[q].id@)
        },
{
    let ghost g0 = synsets@;
    let n = synsets.len();
    let mut f: usize = 0;
    while f < SYNSET_REL_COUNT
        invariant
            loc.covers(g0),
            n == g0.len(),
            synsets@.len() == n,
            f <= SYNSET_REL_COUNT,
            all_wf(g0),
            ids_unique(g0),
            all_wf(synsets@),
            forall|q: int| 0 <= q < n ==> {
                &&& synset_same_except_rels(g0[q], #[trigger] synsets@[q])
                &&& synsets@[q].sense_rels == g0[q].sense_rels
                &&& forall|x: SynsetRel| #[trigger] synset_rel(synsets@[q], x) == match authored_of(x) {
                    Some(k) => if k.idx() < f {
                        synset_rel(g0[q], x) + inverse_sources(g0, k, g0[q].id@, n as int)
                    } else {
                        synset_rel(g0[q], x)
                    },
                    None => synset_rel(g0[q], x),
                }
            },
        decreases SYNSET_REL_COUNT - f,
    {
        let k = SynsetRel::from_index(f);
        match k.inverse() {
            Some(ik) => {
                let ghost g1 = synsets@;
                assert(ids_unique(g1)) by {
                    assert forall|a: int, b: int| 0 <= a < n && 0 <= b < n && a != b implies #[trigger] g1[a].id@ != #[trigger] g1[b].id@ by {
                        assert(synset_same_except_rels(g0[a], g1[a]));
                        assert(synset_same_except_rels(g0[b], g1[b]));
                    }
                }
                proof {
                    assert forall|q: int| 0 <= q < n implies (#[trigger] g0[q]).id == g1[q].id by {
                        assert(synset_same_except_rels(g0[q], g1[q]));
                    }
                    loc.lemma_same_ids(g0, g1);
                }
                close_synset_kind(synsets, loc, k, ik);
                assert forall|q: int| 0 <= q < n implies {
                    &&& synset_same_except_rels(g0[q], #[trigger] synsets@[q])
                    &&& synsets@[q].sense_rels == g0[q].sense_rels
                    &&& forall|x: SynsetRel| #[trigger] synset_rel(synsets@[q], x) == match authored_of(x) {
                        Some(k) => if k.idx() < f + 1 {
                            synset_rel(g0[q], x) + inverse_sources(g0, k, g0[q].id@, n as int)
                        } else {
                            synset_rel(g0[q], x)
                        },
                        None => synset_rel(g0[q], x),
                    }
                } by {
                    assert(synset_same_except_rels(g1[q], synsets@[q]));
                    assert(g1[q].id == g0[q].id);
                    assert forall|x: SynsetRel| #[trigger] synset_rel(synsets@[q], x) == match authored_of(x) {
                        Some(k) => if k.idx() < f + 1 {
                            synset_rel(g0[q], x) + inverse_sources(g0, k, g0[q].id@, n as int)
                        } else {
                            synset_rel(g0[q], x)
                        },
                        None => synset_rel(g0[q], x),
                    } by {
                        lemma_synset_rel_idx(k, k);
                        lemma_authored_of(x, k);
                        match authored_of(x) {
                            Some(k2) => {
                                lemma_synset_rel_idx(k2, k);
                                if x == ik {
                                    assert forall|q2: int| 0 <= q2 < n implies (#[trigger] g1[q2]).id == g0[q2].id
                                        && synset_rel(g1[q2], k) == synset_rel(g0[q2], k) by {
                                        assert(synset_same_except_rels(g0[q2], g1[q2]));
                                        assert(authored_of(k) is None);
                                    }
                                    lemma_inverse_sources_frame(g1, g0, k, g0[q].id@, n as int);
                                }
                            },
                            None => {},
                        }
                    }
                }
            },
            None => {
                assert forall|q: int| 0 <= q < n implies (#[trigger] synsets@[q]).wf() && forall|x: SynsetRel| #[trigger] synset_rel(synsets@[q], x) == match authored_of(x) {
                    Some(k) => if k.idx() < f + 1 {
                        synset_rel(g0[q], x) + inverse_sources(g0, k, g0[q].id@, n as int)
                    } else {
                        synset_rel(g0[q], x)
                    },
                    None => synset_rel(g0[q], x),
                } by {
                    assert forall|x: SynsetRel| #[trigger] synset_rel(synsets@[q], x) == match authored_of(x) {
                        Some(k) => if k.idx() < f + 1 {
                            synset_rel(g0[q], x) + inverse_sources(g0, k, g0[q].id@, n as int)
                        } else {
                            synset_rel(g0[q], x)
                        },
                        None => synset_rel(g0[q], x),
                    } by {
                        match authored_of(x) {
                            Some(k2) => {
                                lemma_authored_of(x, k2);
                                lemma_synset_rel_idx(k2, k);
                            },
                            None => {},
                        }
                    }
                }
            },
        }
        f = f + 1;
    }
    assert forall|q: int| 0 <= q < n implies (#[trigger] synsets@[q]).wf() && forall|x: SynsetRel| #[trigger] synset_rel(synsets@[q], x)
        == closed_synset_list(g0, x, synset_rel(g0[q], x), g0[q].id@) by {
        assert forall|x: SynsetRel| #[trigger] synset_rel(synsets@[q], x)
            == closed_synset_list(g0, x, synset_rel(g0[q], x), g0[q].id@) by {
            match authored_of(x) {
                Some(k2) => {
                    lemma_synset_rel_idx(k2, k2);
                },
                None => {},
            }
        }
    }
}

} // verus!
