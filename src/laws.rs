//! Properties of the pipeline as a whole, stated over the contracts of its
//! steps and proved from them.

use vstd::prelude::*;
use crate::closure::{authored_of, hits, inverse_sources};
use crate::graph::{Graph, closure_of};
use crate::ids::SynsetId;
use crate::relations::{SenseRel, SynsetRel};
use crate::sense_closure::{
    all_senses, contribs_of, forward_triple, id_views_of, inverse_triple, resolve, sense_added, sense_contrib,
    sense_writer, lemma_sense_writer,
};
use crate::wordnet::{Sense, SenseRelation, sense_links, synset_rel, synset_sense_rel};

verus! {

proof fn lemma_contains_left<A>(a: Seq<A>, b: Seq<A>, e: A)
    requires
        a.contains(e),
    ensures
        (a + b).contains(e),
{
    let i = choose|i: int| 0 <= i < a.len() && a[i] == e;
    assert((a + b)[i] == e);
}

proof fn lemma_contains_right<A>(a: Seq<A>, b: Seq<A>, e: A)
    requires
        b.contains(e),
    ensures
        (a + b).contains(e),
{
    let i = choose|i: int| 0 <= i < b.len() && b[i] == e;
    assert((a + b)[a.len() + i] == e);
}

proof fn lemma_hits_contains(targets: Seq<SynsetId>, t: Seq<char>, src: SynsetId, m: int)
    requires
        0 <= m < targets.len(),
        targets[m]@ == t,
    ensures
        hits(targets, t, src).contains(src),
    decreases targets.len(),
{
    if m == targets.len() - 1 {
        assert(seq![src][0] == src);
        lemma_contains_right(hits(targets.drop_last(), t, src), seq![src], src);
    } else {
        lemma_hits_contains(targets.drop_last(), t, src, m);
        lemma_contains_left(
            hits(targets.drop_last(), t, src),
            if targets.last()@ == t { seq![src] } else { Seq::empty() },
            src,
        );
    }
}

proof fn lemma_sources_contains(g: Seq<crate::wordnet::Synset>, k: SynsetRel, t: Seq<char>, n: int, a: int, m: int)
    requires
        0 <= a < n <= g.len(),
        0 <= m < synset_rel(g[a], k).len(),
        synset_rel(g[a], k)[m]@ == t,
    ensures
        inverse_sources(g, k, t, n).contains(g[a].id),
    decreases n,
{
    if a == n - 1 {
        lemma_hits_contains(synset_rel(g[a], k), t, g[a].id, m);
        lemma_contains_right(inverse_sources(g, k, t, n - 1), hits(synset_rel(g[a], k), t, g[a].id), g[a].id);
    } else {
        lemma_sources_contains(g, k, t, n - 1, a, m);
        lemma_contains_left(inverse_sources(g, k, t, n - 1), hits(synset_rel(g[n - 1], k), t, g[n - 1].id), g[a].id);
    }
}

/// After closure, for every authored set-to-set edge of a paired kind `k` from
/// sense set `a` to sense set `b`, the list of `b` of the inverse kind holds
/// the identifier of `a`.
pub proof fn lemma_inverse_edge(before: Graph, after: Graph, k: SynsetRel, a: int, b: int, m: int)
    requires
        closure_of(before, after),
        k.inverse_spec() is Some,
        0 <= a < before.synsets_spec().len(),
        0 <= b < before.synsets_spec().len(),
        0 <= m < synset_rel(before.synsets_spec()[a], k).len(),
        synset_rel(before.synsets_spec()[a], k)[m]@ == before.synsets_spec()[b].id@,
    ensures
        synset_rel(after.synsets_spec()[b], k.inverse_spec()->0).contains(before.synsets_spec()[a].id),
{
    let ik = k.inverse_spec()->0;
    assert(authored_of(ik) == Some(k));
    let g = before.synsets_spec();
    assert(synset_rel(after.synsets_spec()[b], ik) == synset_rel(g[b], ik) + inverse_sources(g, k, g[b].id@, g.len() as int));
    lemma_sources_contains(g, k, g[b].id@, g.len() as int, a, m);
    lemma_contains_right(synset_rel(g[b], ik), inverse_sources(g, k, g[b].id@, g.len() as int), g[a].id);
}

/// Closure leaves alone every set-to-set list that is not the inverse of one
/// of the eight paired kinds (hypernym, instance hypernym, the three meronym
/// kinds, causes, exemplifies, entails).
pub proof fn lemma_unpaired_lists_unchanged(before: Graph, after: Graph, x: SynsetRel, q: int)
    requires
        closure_of(before, after),
        0 <= q < before.synsets_spec().len(),
        forall|k: SynsetRel| #[trigger] k.inverse_spec() != Some(x),
    ensures
        synset_rel(after.synsets_spec()[q], x) == synset_rel(before.synsets_spec()[q], x),
{
    match authored_of(x) {
        Some(k) => {
            assert(k.inverse_spec() == Some(x));
        },
        None => {},
    }
}

/// Whether an identifier spells `t`.
pub open spec fn names(t: Seq<char>) -> spec_fn(SynsetId) -> bool {
    |x: SynsetId| x@ == t
}

/// The number of authored edges of kind `k` into `t` from the first `n` sense
/// sets.
pub open spec fn edge_count(g: Seq<crate::wordnet::Synset>, k: SynsetRel, t: Seq<char>, n: int) -> nat
    decreases n,
{
    if n <= 0 {
        0
    } else {
        edge_count(g, k, t, n - 1) + synset_rel(g[n - 1], k).filter(names(t)).len()
    }
}

proof fn lemma_hits_len(targets: Seq<SynsetId>, t: Seq<char>, src: SynsetId)
    ensures
        hits(targets, t, src).len() == targets.filter(names(t)).len(),
    decreases targets.len(),
{
    let p = names(t);
    reveal(Seq::filter);
    if targets.len() > 0 {
        lemma_hits_len(targets.drop_last(), t, src);
        assert(targets.filter(p) == if p(targets.last()) {
            targets.drop_last().filter(p).push(targets.last())
        } else {
            targets.drop_last().filter(p)
        });
    }
}

proof fn lemma_sources_len(g: Seq<crate::wordnet::Synset>, k: SynsetRel, t: Seq<char>, n: int)
    ensures
        inverse_sources(g, k, t, n).len() == edge_count(g, k, t, n),
    decreases n,
{
    if n > 0 {
        lemma_sources_len(g, k, t, n - 1);
        lemma_hits_len(synset_rel(g[n - 1], k), t, g[n - 1].id);
    }
}

/// Closure adds exactly one inverse entry per authored edge, no more: each
/// inverse list grows by the number of edges of its paired kind into its set.
pub proof fn lemma_one_inverse_per_edge(before: Graph, after: Graph, k: SynsetRel, q: int)
    requires
        closure_of(before, after),
        k.inverse_spec() is Some,
        0 <= q < before.synsets_spec().len(),
    ensures
        synset_rel(after.synsets_spec()[q], k.inverse_spec()->0).len()
            == synset_rel(before.synsets_spec()[q], k.inverse_spec()->0).len()
                + edge_count(before.synsets_spec(), k, before.synsets_spec()[q].id@, before.synsets_spec().len() as int),
{
    let ik = k.inverse_spec()->0;
    assert(authored_of(ik) == Some(k));
    lemma_sources_len(before.synsets_spec(), k, before.synsets_spec()[q].id@, before.synsets_spec().len() as int);
}

proof fn lemma_contribs_contains(
    fs: Seq<(String, Sense)>,
    ids: Seq<Seq<char>>,
    k: SenseRel,
    x: SenseRel,
    q: Seq<char>,
    src: (String, Sense),
    targets: Seq<crate::ids::SenseId>,
    m: int,
    e: SenseRelation,
)
    requires
        0 <= m < targets.len(),
        sense_contrib(fs, ids, k, x, q, src, targets[m]).contains(e),
    ensures
        contribs_of(fs, ids, k, x, q, src, targets).contains(e),
    decreases targets.len(),
{
    if m == targets.len() - 1 {
        lemma_contains_right(contribs_of(fs, ids, k, x, q, src, targets.drop_last()), sense_contrib(fs, ids, k, x, q, src, targets.last()), e);
    } else {
        lemma_contribs_contains(fs, ids, k, x, q, src, targets.drop_last(), m, e);
        lemma_contains_left(contribs_of(fs, ids, k, x, q, src, targets.drop_last()), sense_contrib(fs, ids, k, x, q, src, targets.last()), e);
    }
}

proof fn lemma_added_contains(fs: Seq<(String, Sense)>, ids: Seq<Seq<char>>, k: SenseRel, x: SenseRel, q: Seq<char>, n: int, f: int, m: int, e: SenseRelation)
    requires
        0 <= f < n <= fs.len(),
        0 <= m < sense_links(fs[f].1, k).len(),
        sense_contrib(fs, ids, k, x, q, fs[f], sense_links(fs[f].1, k)[m]).contains(e),
    ensures
        sense_added(fs, ids, k, x, q, n).contains(e),
    decreases n,
{
    if f == n - 1 {
        lemma_contribs_contains(fs, ids, k, x, q, fs[f], sense_links(fs[f].1, k), m, e);
        lemma_contains_right(sense_added(fs, ids, k, x, q, n - 1), contribs_of(fs, ids, k, x, q, fs[f], sense_links(fs[f].1, k)), e);
    } else {
        lemma_added_contains(fs, ids, k, x, q, n - 1, f, m, e);
        lemma_contains_left(sense_added(fs, ids, k, x, q, n - 1), contribs_of(fs, ids, k, x, q, fs[n - 1], sense_links(fs[n - 1].1, k)), e);
    }
}

/// For every authored sense relation of kind `k` whose target resolves (to
/// the sense at `r`), closure puts the forward triple on the source's set and
/// the inverse triple, headwords swapped, on the target's set.
pub proof fn lemma_sense_edge(before: Graph, after: Graph, k: SenseRel, f: int, m: int, r: int, qs: int, qt: int)
    requires
        closure_of(before, after),
        k.inverse_spec() is Some,
        0 <= f < all_senses(before.entries_spec()).len(),
        0 <= m < sense_links(all_senses(before.entries_spec())[f].1, k).len(),
        resolve(all_senses(before.entries_spec()), sense_links(all_senses(before.entries_spec())[f].1, k)[m]@) == Some(r),
        0 <= qs < before.synsets_spec().len(),
        before.synsets_spec()[qs].id@ == all_senses(before.entries_spec())[f].1.synset@,
        0 <= qt < before.synsets_spec().len(),
        before.synsets_spec()[qt].id@ == all_senses(before.entries_spec())[r].1.synset@,
    ensures
        synset_sense_rel(after.synsets_spec()[qs], k).contains(
            forward_triple(all_senses(before.entries_spec()), all_senses(before.entries_spec())[f], r),
        ),
        synset_sense_rel(after.synsets_spec()[qt], k.inverse_spec()->0).contains(
            inverse_triple(all_senses(before.entries_spec()), all_senses(before.entries_spec())[f], r),
        ),
{
    let fs = all_senses(before.entries_spec());
    let ids = id_views_of(before.synsets_spec());
    let ik = k.inverse_spec()->0;
    let src = fs[f];
    let target = sense_links(src.1, k)[m];
    let g = before.synsets_spec();
    assert(sense_writer(k) == k);
    assert(sense_writer(ik) == k);
    let fwd = forward_triple(fs, src, r);
    let inv = inverse_triple(fs, src, r);
    let c1 = sense_contrib(fs, ids, k, k, g[qs].id@, src, target);
    assert(c1[0] == fwd);
    lemma_added_contains(fs, ids, k, k, g[qs].id@, fs.len() as int, f, m, fwd);
    lemma_contains_right(synset_sense_rel(g[qs], k), sense_added(fs, ids, k, k, g[qs].id@, fs.len() as int), fwd);
    assert(ids[qs] == g[qs].id@);
    assert(ids.contains(src.1.synset@));
    let c2 = sense_contrib(fs, ids, k, ik, g[qt].id@, src, target);
    assert(c2[c2.len() - 1] == inv);
    lemma_added_contains(fs, ids, k, ik, g[qt].id@, fs.len() as int, f, m, inv);
    lemma_contains_right(synset_sense_rel(g[qt], ik), sense_added(fs, ids, k, ik, g[qt].id@, fs.len() as int), inv);
}

/// A sense relation whose target does not resolve adds no triple to any list
/// of any sense set.
pub proof fn lemma_unresolved_edge(
    fs: Seq<(String, Sense)>,
    ids: Seq<Seq<char>>,
    k: SenseRel,
    x: SenseRel,
    q: Seq<char>,
    src: (String, Sense),
    target: crate::ids::SenseId,
)
    requires
        resolve(fs, target@) is None,
    ensures
        sense_contrib(fs, ids, k, x, q, src, target).len() == 0,
{
}

/// A sense relation authored on a sense whose own sense set does not exist
/// adds no triple to the list of any existing sense set: neither the forward
/// triple nor, on the target's set, the inverse one.
pub proof fn lemma_dangling_source(
    fs: Seq<(String, Sense)>,
    ids: Seq<Seq<char>>,
    k: SenseRel,
    x: SenseRel,
    q: Seq<char>,
    src: (String, Sense),
    target: crate::ids::SenseId,
)
    requires
        !ids.contains(src.1.synset@),
        ids.contains(q),
    ensures
        sense_contrib(fs, ids, k, x, q, src, target).len() == 0,
{
}


/// The graph authors exactly one sense relation of kind `k`: on the sense at
/// position `f`, towards sense id `t`.
pub open spec fn single_edge(fs: Seq<(String, Sense)>, k: SenseRel, f: int, t: crate::ids::SenseId) -> bool {
    &&& 0 <= f < fs.len()
    &&& sense_links(fs[f].1, k) == seq![t]
    &&& forall|g: int| 0 <= g < fs.len() && g != f ==> (#[trigger] sense_links(fs[g].1, k)).len() == 0
}

proof fn lemma_added_single(
    fs: Seq<(String, Sense)>,
    ids: Seq<Seq<char>>,
    k: SenseRel,
    x: SenseRel,
    q: Seq<char>,
    n: int,
    f: int,
    t: crate::ids::SenseId,
)
    requires
        single_edge(fs, k, f, t),
        0 <= n <= fs.len(),
    ensures
        sense_added(fs, ids, k, x, q, n) == if f < n {
            sense_contrib(fs, ids, k, x, q, fs[f], t)
        } else {
            Seq::empty()
        },
    decreases n,
{
    if n > 0 {
        lemma_added_single(fs, ids, k, x, q, n - 1, f, t);
        let links = sense_links(fs[n - 1].1, k);
        if n - 1 == f {
            assert(links.drop_last() =~= Seq::<crate::ids::SenseId>::empty());
            assert(contribs_of(fs, ids, k, x, q, fs[n - 1], links.drop_last()) == Seq::<SenseRelation>::empty());
            assert(contribs_of(fs, ids, k, x, q, fs[n - 1], links) =~= sense_contrib(fs, ids, k, x, q, fs[f], t));
            assert(sense_added(fs, ids, k, x, q, n) =~= sense_contrib(fs, ids, k, x, q, fs[f], t));
        } else {
            assert(links.len() == 0);
            assert(sense_added(fs, ids, k, x, q, n) =~= sense_added(fs, ids, k, x, q, n - 1));
        }
    }
}

/// When the graph authors exactly one relation of an asymmetric kind `k`
/// (inverse kind `ik`), from a sense of set `qs` to a sense of set `qt`,
/// closure appends exactly the forward triple to `qs`'s list of kind `k` and
/// exactly the inverse triple, headwords swapped, to `qt`'s list of kind `ik`.
pub proof fn lemma_single_sense_edge(
    before: Graph,
    after: Graph,
    k: SenseRel,
    ik: SenseRel,
    f: int,
    t: crate::ids::SenseId,
    r: int,
    qs: int,
    qt: int,
)
    requires
        closure_of(before, after),
        k.inverse_spec() == Some(ik),
        ik != k,
        single_edge(all_senses(before.entries_spec()), k, f, t),
        resolve(all_senses(before.entries_spec()), t@) == Some(r),
        0 <= qs < before.synsets_spec().len(),
        before.synsets_spec()[qs].id@ == all_senses(before.entries_spec())[f].1.synset@,
        0 <= qt < before.synsets_spec().len(),
        before.synsets_spec()[qt].id@ == all_senses(before.entries_spec())[r].1.synset@,
    ensures
        synset_sense_rel(after.synsets_spec()[qs], k) == synset_sense_rel(before.synsets_spec()[qs], k).push(
            forward_triple(all_senses(before.entries_spec()), all_senses(before.entries_spec())[f], r),
        ),
        synset_sense_rel(after.synsets_spec()[qt], ik) == synset_sense_rel(before.synsets_spec()[qt], ik).push(
            inverse_triple(all_senses(before.entries_spec()), all_senses(before.entries_spec())[f], r),
        ),
{
    let fs = all_senses(before.entries_spec());
    let ids = id_views_of(before.synsets_spec());
    let g = before.synsets_spec();
    lemma_sense_writer(k, k);
    lemma_sense_writer(ik, k);
    assert(ids[qs] == g[qs].id@);
    assert(ids.contains(fs[f].1.synset@));
    lemma_added_single(fs, ids, k, k, g[qs].id@, fs.len() as int, f, t);
    lemma_added_single(fs, ids, k, ik, g[qt].id@, fs.len() as int, f, t);
    assert(sense_contrib(fs, ids, k, k, g[qs].id@, fs[f], t) =~= seq![forward_triple(fs, fs[f], r)]);
    assert(sense_contrib(fs, ids, k, ik, g[qt].id@, fs[f], t) =~= seq![inverse_triple(fs, fs[f], r)]);
}

} // verus!
