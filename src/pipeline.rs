//! The write path in one step: closure of the ingested graph, then its
//! indices and its documents.

use vstd::prelude::*;
use crate::graph::{Graph, add_reverse_links, closure_of};
use crate::lexicon::{Lexicon, group_of, headword_ids, ids_of, ili_target, keys_unique, lookup_last};
use crate::members::{materialize, materialized};
use crate::wordnet::MemberSynset;

verus! {

/// `l` holds the indices of graph `g`: each headword with the sense sets
/// that list it, each external id with the last set that carries it, and all
/// set identifiers in order.
pub open spec fn indexes(l: Lexicon, g: Graph) -> bool {
    &&& l.wf()
    &&& keys_unique(l.entries_spec())
    &&& keys_unique(l.ili_spec())
    &&& forall|h: Seq<char>| #[trigger] group_of(l.entries_spec(), h) == headword_ids(g.synsets_spec(), h, g.synsets_spec().len() as int)
    &&& forall|x: Seq<char>| #[trigger] lookup_last(l.ili_spec(), x) == ili_target(g.synsets_spec(), x, g.synsets_spec().len() as int)
    &&& l.ids_spec() == ids_of(g.synsets_spec())
}

/// `docs` are the documents of the sense sets of graph `g`, in graph order.
pub open spec fn documents_of(docs: Seq<MemberSynset>, g: Graph) -> bool {
    &&& docs.len() == g.synsets_spec().len()
    &&& forall|q: int| 0 <= q < docs.len() ==> materialized(#[trigger] docs[q], g.synsets_spec()[q], g.entries_spec())
}

/// What the write path produces: the auxiliary indices and one document per
/// sense set.
pub struct Built {
    pub lexicon: Lexicon,
    pub documents: Vec<MemberSynset>,
}

/// Closes the ingested graph and derives its indices and documents: both
/// describe the same closed graph.
pub fn build(graph: Graph) -> (r: Built)
    requires
        graph.wf(),
    ensures
        exists|closed: Graph| #[trigger] closure_of(graph, closed) && indexes(r.lexicon, closed) && documents_of(r.documents@, closed),
{
    let closed = add_reverse_links(graph);
    let ghost c = closed.inner();
    let lexicon = Lexicon::index(closed.graph());
    let documents = materialize(closed);
    assert(closure_of(graph, c) && indexes(lexicon, c) && documents_of(documents@, c));
    Built { lexicon, documents }
}

} // verus!
