//! The query layer: the auxiliary indices of a built graph (headword to sense
//! set ids, external id to sense set id, all sense set ids) and the lookups
//! and prefix searches over them.

use vstd::prelude::*;
use crate::graph::Graph;
use crate::ids::SynsetId;
use crate::key_index::{KeyIndex, key_views};
use crate::text::{is_prefix, lower_of, lowercase, starts_with};
use crate::wordnet::Synset;

verus! {

/// The group of the first entry of `es` keyed `k`, or none.
pub open spec fn lookup_first<V>(es: Seq<(String, V)>, k: Seq<char>) -> Option<V>
    decreases es.len(),
{
    if es.len() == 0 {
        None
    } else if es[0].0@ == k {
        Some(es[0].1)
    } else {
        lookup_first(es.subrange(1, es.len() as int), k)
    }
}

/// No two entries of `es` share a key.
pub open spec fn keys_unique<V>(es: Seq<(String, V)>) -> bool {
    forall|a: int, b: int| 0 <= a < es.len() && 0 <= b < es.len() && a != b ==> #[trigger] es[a].0@ != #[trigger] es[b].0@
}

pub proof fn lemma_lookup_unique<V>(es: Seq<(String, V)>, k: Seq<char>)
    requires
        keys_unique(es),
    ensures
        forall|p: int| 0 <= p < es.len() && es[p].0@ == k ==> lookup_first(es, k) == Some(#[trigger] es[p].1),
        (forall|p: int| 0 <= p < es.len() ==> #[trigger] es[p].0@ != k) ==> lookup_first(es, k) is None,
    decreases es.len(),
{
    if es.len() > 0 {
        let rest = es.subrange(1, es.len() as int);
        assert(keys_unique(rest)) by {
            assert forall|a: int, b: int| 0 <= a < rest.len() && 0 <= b < rest.len() && a != b implies #[trigger] rest[a].0@ != #[trigger] rest[b].0@ by {
                assert(rest[a] == es[a + 1]);
                assert(rest[b] == es[b + 1]);
            }
        }
        lemma_lookup_unique(rest, k);
        assert forall|p: int| 0 <= p < es.len() && es[p].0@ == k implies lookup_first(es, k) == Some(#[trigger] es[p].1) by {
            if p > 0 {
                assert(rest[p - 1] == es[p]);
                assert(es[0].0@ != es[p].0@);
            }
        }
        if forall|p: int| 0 <= p < es.len() ==> #[trigger] es[p].0@ != k {
            assert forall|p: int| 0 <= p < rest.len() implies #[trigger] rest[p].0@ != k by {
                assert(rest[p] == es[p + 1]);
            }
        }
    }
}

/// The group of the last entry of `es` keyed `k`, or none.
pub open spec fn lookup_last<V>(es: Seq<(String, V)>, k: Seq<char>) -> Option<V>
    decreases es.len(),
{
    if es.len() == 0 {
        None
    } else if es.last().0@ == k {
        Some(es.last().1)
    } else {
        lookup_last(es.drop_last(), k)
    }
}

proof fn lemma_lookup_last_at<V>(es: Seq<(String, V)>, k: Seq<char>, i: int)
    requires
        0 <= i < es.len(),
        es[i].0@ == k,
        forall|j: int| i < j < es.len() ==> #[trigger] es[j].0@ != k,
    ensures
        lookup_last(es, k) == Some(es[i].1),
    decreases es.len(),
{
    if i < es.len() - 1 {
        let rest = es.drop_last();
        assert forall|j: int| i < j < rest.len() implies #[trigger] rest[j].0@ != k by {
            assert(rest[j] == es[j]);
        }
        lemma_lookup_last_at(rest, k, i);
        assert(rest[i] == es[i]);
    }
}

proof fn lemma_lookup_last_none<V>(es: Seq<(String, V)>, k: Seq<char>)
    requires
        forall|j: int| 0 <= j < es.len() ==> #[trigger] es[j].0@ != k,
    ensures
        lookup_last(es, k) is None,
    decreases es.len(),
{
    if es.len() > 0 {
        let rest = es.drop_last();
        assert forall|j: int| 0 <= j < rest.len() implies #[trigger] rest[j].0@ != k by {
            assert(rest[j] == es[j]);
        }
        lemma_lookup_last_none(rest, k);
    }
}

/// With distinct keys, the last entry keyed `k` is the only one.
pub proof fn lemma_lookup_last_unique<V>(es: Seq<(String, V)>, k: Seq<char>)
    requires
        keys_unique(es),
    ensures
        forall|p: int| 0 <= p < es.len() && es[p].0@ == k ==> lookup_last(es, k) == Some(#[trigger] es[p].1),
        (forall|p: int| 0 <= p < es.len() ==> #[trigger] es[p].0@ != k) ==> lookup_last(es, k) is None,
{
    assert forall|p: int| 0 <= p < es.len() && es[p].0@ == k implies lookup_last(es, k) == Some(#[trigger] es[p].1) by {
        assert forall|j: int| p < j < es.len() implies #[trigger] es[j].0@ != k by {
            assert(es[j].0@ != es[p].0@);
        }
        lemma_lookup_last_at(es, k, p);
    }
    if forall|p: int| 0 <= p < es.len() ==> #[trigger] es[p].0@ != k {
        lemma_lookup_last_none(es, k);
    }
}

/// One copy of `id` per headword of `heads` equal to `h`.
pub open spec fn headword_hits(heads: Seq<String>, h: Seq<char>, id: SynsetId) -> Seq<SynsetId>
    decreases heads.len(),
{
    if heads.len() == 0 {
        Seq::empty()
    } else {
        headword_hits(heads.drop_last(), h, id) + if heads.last()@ == h {
            seq![id]
        } else {
            Seq::empty()
        }
    }
}

/// The sense sets among the first `n` of `g` that list headword `h`, in
/// graph order, once per listing.
pub open spec fn headword_ids(g: Seq<Synset>, h: Seq<char>, n: int) -> Seq<SynsetId>
    decreases n,
{
    if n <= 0 {
        Seq::empty()
    } else {
        headword_ids(g, h, n - 1) + headword_hits(g[n - 1].members@, h, g[n - 1].id)
    }
}

/// The sense set that external id `x` names among the first `n` of `g`: the
/// last one that carries it.
pub open spec fn ili_target(g: Seq<Synset>, x: Seq<char>, n: int) -> Option<SynsetId>
    decreases n,
{
    if n <= 0 {
        None
    } else if g[n - 1].ili is Some && g[n - 1].ili->0@ == x {
        Some(g[n - 1].id)
    } else {
        ili_target(g, x, n - 1)
    }
}

/// The keys of `es` that `keep` accepts, in order.
pub open spec fn keys_where<V>(es: Seq<(String, V)>, keep: spec_fn(Seq<char>) -> bool) -> Seq<Seq<char>>
    decreases es.len(),
{
    if es.len() == 0 {
        Seq::empty()
    } else {
        keys_where(es.drop_last(), keep) + if keep(es.last().0@) {
            seq![es.last().0@]
        } else {
            Seq::empty()
        }
    }
}

/// The keys of `es` whose lowercase forms, given position by position in
/// `lowered`, start with `p`.
pub open spec fn lowered_matches<V>(es: Seq<(String, V)>, lowered: Seq<String>, p: Seq<char>) -> Seq<Seq<char>>
    decreases es.len(),
{
    if es.len() == 0 || lowered.len() == 0 {
        Seq::empty()
    } else {
        lowered_matches(es.drop_last(), lowered.drop_last(), p) + if is_prefix(p, lowered.last()@) {
            seq![es.last().0@]
        } else {
            Seq::empty()
        }
    }
}

proof fn lemma_lowered_matches<V>(es: Seq<(String, V)>, lowered: Seq<String>, prefix: Seq<char>)
    requires
        lowered.len() == es.len(),
        forall|x: int| 0 <= x < es.len() ==> (#[trigger] lowered[x])@ == lower_of(es[x].0@),
    ensures
        lowered_matches(es, lowered, lower_of(prefix)) == keys_where(es, lower_prefix(prefix)),
    decreases es.len(),
{
    if es.len() > 0 {
        let e2 = es.drop_last();
        let l2 = lowered.drop_last();
        assert forall|x: int| 0 <= x < e2.len() implies (#[trigger] l2[x])@ == lower_of(e2[x].0@) by {
            assert(l2[x] == lowered[x] && e2[x] == es[x]);
        }
        lemma_lowered_matches(e2, l2, prefix);
        assert(lowered.last()@ == lower_of(es.last().0@));
    }
}

/// Each key that `keys_where` keeps is a key of the list.
pub open spec fn kept_from<V>(es: Seq<(String, V)>, k: Seq<char>) -> bool {
    exists|j: int| 0 <= j < es.len() && #[trigger] es[j].0@ == k
}

/// With distinct keys, a selection of keys repeats none.
pub proof fn lemma_keys_where_distinct<V>(es: Seq<(String, V)>, keep: spec_fn(Seq<char>) -> bool)
    requires
        keys_unique(es),
    ensures
        keys_where(es, keep).no_duplicates(),
        forall|i: int| 0 <= i < keys_where(es, keep).len() ==> kept_from(es, #[trigger] keys_where(es, keep)[i]),
    decreases es.len(),
{
    if es.len() > 0 {
        let rest = es.drop_last();
        assert(keys_unique(rest)) by {
            assert forall|a: int, b: int| 0 <= a < rest.len() && 0 <= b < rest.len() && a != b implies #[trigger] rest[a].0@ != #[trigger] rest[b].0@ by {
                assert(rest[a] == es[a] && rest[b] == es[b]);
            }
        }
        lemma_keys_where_distinct(rest, keep);
        let pre = keys_where(rest, keep);
        let last = es.last().0@;
        assert forall|i: int| 0 <= i < pre.len() implies #[trigger] pre[i] != last by {
            assert(kept_from(rest, pre[i]));
            let j = choose|j: int| 0 <= j < rest.len() && #[trigger] rest[j].0@ == pre[i];
            assert(rest[j] == es[j]);
            assert(es[j].0@ != es[es.len() - 1].0@);
        }
        let all = keys_where(es, keep);
        assert forall|i: int| 0 <= i < all.len() implies kept_from(es, #[trigger] all[i]) by {
            if i < pre.len() {
                assert(kept_from(rest, pre[i]));
                let j = choose|j: int| 0 <= j < rest.len() && #[trigger] rest[j].0@ == pre[i];
                assert(rest[j] == es[j]);
            } else {
                assert(es[es.len() - 1].0@ == all[i]);
            }
        }
        assert forall|a: int, b: int| 0 <= a < all.len() && 0 <= b < all.len() && a != b implies all[a] != all[b] by {
            if a < pre.len() && b < pre.len() {
                assert(pre[a] != pre[b]);
            } else if a < pre.len() {
                assert(all[b] == last);
            } else if b < pre.len() {
                assert(all[a] == last);
            }
        }
    }
}

/// The identifiers of `ids` that start with `p`, in order.
pub open spec fn ids_with_prefix(ids: Seq<SynsetId>, p: Seq<char>) -> Seq<Seq<char>>
    decreases ids.len(),
{
    if ids.len() == 0 {
        Seq::empty()
    } else {
        ids_with_prefix(ids.drop_last(), p) + if is_prefix(p, ids.last()@) {
            seq![ids.last()@]
        } else {
            Seq::empty()
        }
    }
}

/// Whether a headword matches a query prefix, ignoring case.
pub open spec fn lower_prefix(p: Seq<char>) -> spec_fn(Seq<char>) -> bool {
    |k: Seq<char>| is_prefix(lower_of(p), lower_of(k))
}

/// Whether a key starts with a query prefix.
pub open spec fn plain_prefix(p: Seq<char>) -> spec_fn(Seq<char>) -> bool {
    |k: Seq<char>| is_prefix(p, k)
}

/// The views of a sequence of strings.
pub open spec fn views(v: Seq<String>) -> Seq<Seq<char>> {
    v.map_values(|s: String| s@)
}

/// The list of sense set ids that `es` files under headword `h`.
pub open spec fn group_of(es: Seq<(String, Vec<SynsetId>)>, h: Seq<char>) -> Seq<SynsetId> {
    match lookup_last(es, h) {
        Some(v) => v@,
        None => Seq::empty(),
    }
}

/// The identifiers of sense sets, in order.
pub open spec fn ids_of(g: Seq<Synset>) -> Seq<SynsetId> {
    g.map_values(|s: Synset| s.id)
}

/// The auxiliary indices of a built graph: headword to sense set ids,
/// external id to sense set id, and all sense set ids, with hash indexes of
/// the first two for lookups that do not scan.
pub struct Lexicon {
    entries: Vec<(String, Vec<SynsetId>)>,
    synsets_by_ili: Vec<(String, SynsetId)>,
    synset_ids: Vec<SynsetId>,
    entry_keys: Vec<String>,
    entry_index: KeyIndex,
    ili_keys: Vec<String>,
    ili_index: KeyIndex,
}

/// Clones a list of identifiers.
pub fn clone_ids(v: &Vec<SynsetId>) -> (r: Vec<SynsetId>)
    ensures
        r@ == v@,
{
    let r = v.clone();
    assert(r@ =~= v@);
    r
}

/// `keys` holds the keys of `es`, position by position.
pub open spec fn mirrors<V>(keys: Seq<String>, es: Seq<(String, V)>) -> bool {
    keys.len() == es.len() && forall|q: int| 0 <= q < es.len() ==> (#[trigger] keys[q])@ == es[q].0@
}

/// Position of the entry keyed `k`, through a hash index of the keys.
fn find_key<V>(es: &Vec<(String, V)>, keys: &Vec<String>, index: &KeyIndex, k: &String) -> (r: Option<usize>)
    requires
        mirrors(keys@, es@),
        index.wf(key_views(keys@)),
    ensures
        match r {
            Some(p) => p < es@.len() && es@[p as int].0@ == k@ && lookup_last(es@, k@) == Some(es@[p as int].1),
            None => lookup_last(es@, k@) is None && forall|q: int| 0 <= q < es@.len() ==> #[trigger] es@[q].0@ != k@,
        },
{
    let r = index.find_last(keys, k);
    match r {
        Some(p) => {
            assert(keys@[p as int]@ == es@[p as int].0@);
            assert forall|j: int| p < j < es@.len() implies #[trigger] es@[j].0@ != k@ by {
                assert(keys@[j]@ == es@[j].0@);
            }
            proof {
                lemma_lookup_last_at(es@, k@, p as int);
            }
        },
        None => {
            assert forall|q: int| 0 <= q < es@.len() implies #[trigger] es@[q].0@ != k@ by {
                assert(keys@[q]@ == es@[q].0@);
            }
            proof {
                lemma_lookup_last_none(es@, k@);
            }
        },
    }
    r
}

/// Whether no two entries of `es` share a key, through a hash index of the
/// keys.
fn distinct_keys<V>(es: &Vec<(String, V)>, keys: &Vec<String>, index: &KeyIndex) -> (r: bool)
    requires
        mirrors(keys@, es@),
        index.wf(key_views(keys@)),
    ensures
        r == keys_unique(es@),
{
    let mut i: usize = 0;
    while i < keys.len()
        invariant
            mirrors(keys@, es@),
            index.wf(key_views(keys@)),
            i <= keys@.len(),
            forall|a: int, b: int| 0 <= a < i && a < b < es@.len() ==> #[trigger] es@[a].0@ != #[trigger] es@[b].0@,
        decreases keys@.len() - i,
    {
        match index.find_last(keys, &keys[i]) {
            Some(j) => {
                if j != i {
                    assert(keys@[j as int]@ == es@[j as int].0@);
                    assert(keys@[i as int]@ == es@[i as int].0@);
                    assert(j > i);
                    assert(!keys_unique(es@));
                    return false;
                }
                assert forall|a: int, b: int| 0 <= a < i + 1 && a < b < es@.len() implies #[trigger] es@[a].0@ != #[trigger] es@[b].0@ by {
                    if a == i {
                        assert(keys@[b]@ == es@[b].0@);
                        assert(keys@[a]@ == es@[a].0@);
                    }
                }
            },
            None => {
                assert(false);
            },
        }
        i = i + 1;
    }
    assert forall|a: int, b: int| 0 <= a < es@.len() && 0 <= b < es@.len() && a != b implies #[trigger] es@[a].0@ != #[trigger] es@[b].0@ by {
        if a > b {
            assert(es@[b].0@ != es@[a].0@);
        }
    }
    true
}

/// Copies of the keys of `es`, in order.
fn keys_of<V>(es: &Vec<(String, V)>) -> (r: Vec<String>)
    ensures
        mirrors(r@, es@),
{
    let mut r: Vec<String> = Vec::new();
    let mut i: usize = 0;
    while i < es.len()
        invariant
            i <= es@.len(),
            r@.len() == i,
            forall|q: int| 0 <= q < i ==> (#[trigger] r@[q])@ == es@[q].0@,
        decreases es@.len() - i,
    {
        r.push(es[i].0.clone());
        i = i + 1;
    }
    r
}

impl Lexicon {
    /// Headwords with the sense sets filed under them.
    pub closed spec fn entries_spec(&self) -> Seq<(String, Vec<SynsetId>)> {
        self.entries@
    }

    /// External ids with the sense set each names.
    pub closed spec fn ili_spec(&self) -> Seq<(String, SynsetId)> {
        self.synsets_by_ili@
    }

    /// All sense set identifiers, in order.
    pub closed spec fn ids_spec(&self) -> Seq<SynsetId> {
        self.synset_ids@
    }

    pub fn synset_ids(&self) -> (r: &Vec<SynsetId>)
        ensures
            r@ == self.ids_spec(),
    {
        &self.synset_ids
    }

    /// Keys are distinct and the hash indexes know the key at every position.
    pub closed spec fn wf(&self) -> bool {
        &&& keys_unique(self.entries@)
        &&& keys_unique(self.synsets_by_ili@)
        &&& mirrors(self.entry_keys@, self.entries@)
        &&& self.entry_index.wf(key_views(self.entry_keys@))
        &&& mirrors(self.ili_keys@, self.synsets_by_ili@)
        &&& self.ili_index.wf(key_views(self.ili_keys@))
    }

    pub fn entries(&self) -> (r: &Vec<(String, Vec<SynsetId>)>)
        ensures
            r@ == self.entries_spec(),
    {
        &self.entries
    }

    pub fn synsets_by_ili(&self) -> (r: &Vec<(String, SynsetId)>)
        ensures
            r@ == self.ili_spec(),
    {
        &self.synsets_by_ili
    }

    /// The lexicon of the given indices, with hash indexes built for them;
    /// none if a headword or an external id is listed twice.
    pub fn from_parts(
        entries: Vec<(String, Vec<SynsetId>)>,
        synsets_by_ili: Vec<(String, SynsetId)>,
        synset_ids: Vec<SynsetId>,
    ) -> (r: Option<Lexicon>)
        ensures
            r is Some <==> keys_unique(entries@) && keys_unique(synsets_by_ili@),
            r matches Some(l) ==> {
                &&& l.wf()
                &&& l.entries_spec() == entries@
                &&& l.ili_spec() == synsets_by_ili@
                &&& l.ids_spec() == synset_ids@
            },
    {
        let entry_keys = keys_of(&entries);
        let entry_index = KeyIndex::build(&entry_keys);
        let ili_keys = keys_of(&synsets_by_ili);
        let ili_index = KeyIndex::build(&ili_keys);
        let unique_entries = distinct_keys(&entries, &entry_keys, &entry_index);
        let unique_ilis = distinct_keys(&synsets_by_ili, &ili_keys, &ili_index);
        if unique_entries && unique_ilis {
            Some(Lexicon { entries, synsets_by_ili, synset_ids, entry_keys, entry_index, ili_keys, ili_index })
        } else {
            None
        }
    }

    /// A lexicon with no sense sets.
    pub fn new() -> (r: Lexicon)
        ensures
            r.wf(),
            r.entries_spec().len() == 0,
            r.ili_spec().len() == 0,
            r.ids_spec().len() == 0,
    {
        let entries: Vec<(String, Vec<SynsetId>)> = Vec::new();
        let synsets_by_ili: Vec<(String, SynsetId)> = Vec::new();
        let entry_keys = keys_of(&entries);
        let entry_index = KeyIndex::build(&entry_keys);
        let ili_keys = keys_of(&synsets_by_ili);
        let ili_index = KeyIndex::build(&ili_keys);
        Lexicon { entries, synsets_by_ili, synset_ids: Vec::new(), entry_keys, entry_index, ili_keys, ili_index }
    }

    /// The indices of a graph: each headword listed by a sense set with the
    /// sets that list it (in graph order, once per listing), each external id
    /// with the last set that carries it, and all set identifiers in order.
    pub fn index(graph: &Graph) -> (r: Lexicon)
        ensures
            r.wf(),
            keys_unique(r.entries_spec()),
            keys_unique(r.ili_spec()),
            forall|h: Seq<char>| #[trigger] group_of(r.entries_spec(), h) == headword_ids(graph.synsets_spec(), h, graph.synsets_spec().len() as int),
            forall|x: Seq<char>| #[trigger] lookup_last(r.ili_spec(), x) == ili_target(graph.synsets_spec(), x, graph.synsets_spec().len() as int),
            r.ids_spec() == ids_of(graph.synsets_spec()),
    {
        let g = graph.synsets();
        let mut entries: Vec<(String, Vec<SynsetId>)> = Vec::new();
        let mut ilis: Vec<(String, SynsetId)> = Vec::new();
        let mut ids: Vec<SynsetId> = Vec::new();
        let mut entry_keys: Vec<String> = Vec::new();
        let mut entry_index = KeyIndex::build(&entry_keys);
        let mut ili_keys: Vec<String> = Vec::new();
        let mut ili_index = KeyIndex::build(&ili_keys);
        let mut i: usize = 0;
        while i < g.len()
            invariant
                mirrors(entry_keys@, entries@),
                entry_index.wf(key_views(entry_keys@)),
                mirrors(ili_keys@, ilis@),
                ili_index.wf(key_views(ili_keys@)),
                i <= g@.len(),
                keys_unique(entries@),
                keys_unique(ilis@),
                forall|h: Seq<char>| #[trigger] group_of(entries@, h) == headword_ids(g@, h, i as int),
                forall|x: Seq<char>| #[trigger] lookup_last(ilis@, x) == ili_target(g@, x, i as int),
                ids@ == ids_of(g@.take(i as int)),
            decreases g@.len() - i,
        {
            let s = &g[i];
            let mut j: usize = 0;
            while j < s.members.len()
                invariant
                    mirrors(entry_keys@, entries@),
                    entry_index.wf(key_views(entry_keys@)),
                    i < g@.len(),
                    *s == g@[i as int],
                    j <= s.members@.len(),
                    keys_unique(entries@),
                    forall|h: Seq<char>| #[trigger] group_of(entries@, h) == headword_ids(g@, h, i as int)
                        + headword_hits(s.members@.take(j as int), h, s.id),
                decreases s.members@.len() - j,
            {
                let h = &s.members[j];
                let ghost before = entries@;
                assert(s.members@.take(j + 1).drop_last() =~= s.members@.take(j as int));
                assert(s.members@.take(j + 1).last() == *h);
                proof {
                    lemma_lookup_last_unique(before, h@);
                }
                match find_key(&entries, &entry_keys, &entry_index, h) {
                    Some(p) => {
                        entries[p].1.push(s.id.clone());
                        assert(mirrors(entry_keys@, entries@)) by {
                            assert forall|q: int| 0 <= q < entries@.len() implies (#[trigger] entry_keys@[q])@ == entries@[q].0@ by {
                                assert(entries@[q].0 == before[q].0);
                            }
                        }
                        assert(entries@.len() == before.len());
                        assert(entries@[p as int].0 == before[p as int].0);
                        assert(entries@[p as int].1@ == before[p as int].1@.push(s.id));
                        assert(forall|q: int| 0 <= q < before.len() && q != p ==> entries@[q] == before[q]);
                        assert(keys_unique(entries@)) by {
                            assert forall|a: int, b: int| 0 <= a < entries@.len() && 0 <= b < entries@.len() && a != b implies #[trigger] entries@[a].0@ != #[trigger] entries@[b].0@ by {
                                assert(entries@[a].0 == before[a].0);
                                assert(entries@[b].0 == before[b].0);
                            }
                        }
                        assert forall|k: Seq<char>| #[trigger] group_of(entries@, k) == headword_ids(g@, k, i as int)
                            + headword_hits(s.members@.take(j + 1), k, s.id) by {
                            lemma_lookup_last_unique(before, k);
                            lemma_lookup_last_unique(entries@, k);
                            if k == h@ {
                                assert(lookup_last(entries@, k) == Some(entries@[p as int].1));
                                assert(lookup_last(before, k) == Some(before[p as int].1));
                                assert(group_of(entries@, k) =~= group_of(before, k).push(s.id));
                            } else {
                                assert(before[p as int].0@ == h@);
                                if exists|q: int| 0 <= q < before.len() && before[q].0@ == k {
                                    let q = choose|q: int| 0 <= q < before.len() && before[q].0@ == k;
                                    assert(q != p);
                                    assert(entries@[q] == before[q]);
                                    assert(lookup_last(entries@, k) == Some(entries@[q].1));
                                    assert(lookup_last(before, k) == Some(before[q].1));
                                } else {
                                    assert forall|q: int| 0 <= q < entries@.len() implies #[trigger] entries@[q].0@ != k by {
                                        if q != p {
                                            assert(entries@[q] == before[q]);
                                        }
                                    }
                                }
                                assert(group_of(entries@, k) =~= group_of(before, k));
                            }
                        }
                    },
                    None => {
                        assert(lookup_last(before, h@) is None);
                        let mut v: Vec<SynsetId> = Vec::new();
                        v.push(s.id.clone());
                        entries.push((h.clone(), v));
                        let ghost keys_before = entry_keys@;
                        entry_index.insert(&mut entry_keys, h.clone());
                        assert(mirrors(entry_keys@, entries@)) by {
                            assert forall|q: int| 0 <= q < entries@.len() implies (#[trigger] entry_keys@[q])@ == entries@[q].0@ by {
                                if q < before.len() {
                                    assert(entry_keys@[q] == keys_before[q]);
                                    assert(entries@[q] == before[q]);
                                }
                            }
                        }
                        assert(keys_unique(entries@)) by {
                            assert forall|a: int, b: int| 0 <= a < entries@.len() && 0 <= b < entries@.len() && a != b implies #[trigger] entries@[a].0@ != #[trigger] entries@[b].0@ by {
                                if a < before.len() {
                                    assert(entries@[a] == before[a]);
                                }
                                if b < before.len() {
                                    assert(entries@[b] == before[b]);
                                }
                            }
                        }
                        assert forall|k: Seq<char>| #[trigger] group_of(entries@, k) == headword_ids(g@, k, i as int)
                            + headword_hits(s.members@.take(j + 1), k, s.id) by {
                            lemma_lookup_last_unique(before, k);
                            lemma_lookup_last_unique(entries@, k);
                            let last = entries@.len() - 1;
                            assert(entries@[last].0@ == h@);
                            if k == h@ {
                                assert(group_of(before, k) == Seq::<SynsetId>::empty());
                                assert(lookup_last(entries@, k) == Some(entries@[last].1));
                                assert(entries@[last].1@ =~= seq![s.id]);
                                assert(group_of(entries@, k) =~= seq![s.id]);
                                assert(group_of(entries@, k) =~= group_of(before, k).push(s.id));
                            } else {
                                if exists|q: int| 0 <= q < before.len() && before[q].0@ == k {
                                    let q = choose|q: int| 0 <= q < before.len() && before[q].0@ == k;
                                    assert(entries@[q] == before[q]);
                                    assert(lookup_last(entries@, k) == Some(entries@[q].1));
                                    assert(lookup_last(before, k) == Some(before[q].1));
                                } else {
                                    assert forall|q: int| 0 <= q < entries@.len() implies #[trigger] entries@[q].0@ != k by {
                                        if q < before.len() {
                                            assert(entries@[q] == before[q]);
                                        }
                                    }
                                }
                                assert(group_of(entries@, k) =~= group_of(before, k));
                            }
                        }
                    },
                }
                j = j + 1;
            }
            assert(s.members@.take(j as int) =~= s.members@);
            match &s.ili {
                Some(x) => {
                    let ghost before = ilis@;
                    let ghost mut pos: int = -1;
                    match find_key(&ilis, &ili_keys, &ili_index, &x.0) {
                        Some(p) => {
                            let key = ilis[p].0.clone();
                            ilis.set(p, (key, s.id.clone()));
                            assert(mirrors(ili_keys@, ilis@)) by {
                                assert forall|q: int| 0 <= q < ilis@.len() implies (#[trigger] ili_keys@[q])@ == ilis@[q].0@ by {
                                    if q != p {
                                        assert(ilis@[q] == before[q]);
                                    }
                                }
                            }
                            proof {
                                pos = p as int;
                            }
                        },
                        None => {
                            ilis.push((x.0.clone(), s.id.clone()));
                            let ghost keys_before = ili_keys@;
                            ili_index.insert(&mut ili_keys, x.0.clone());
                            assert(mirrors(ili_keys@, ilis@)) by {
                                assert forall|q: int| 0 <= q < ilis@.len() implies (#[trigger] ili_keys@[q])@ == ilis@[q].0@ by {
                                    if q < before.len() {
                                        assert(ili_keys@[q] == keys_before[q]);
                                        assert(ilis@[q] == before[q]);
                                    }
                                }
                            }
                            proof {
                                pos = before.len() as int;
                            }
                        },
                    }
                    assert(0 <= pos < ilis@.len() && ilis@[pos].0@ == x@ && ilis@[pos].1 == s.id);
                    assert(forall|q: int| 0 <= q < before.len() && q != pos ==> ilis@[q] == before[q]);
                    assert(pos < before.len() ==> before[pos].0@ == x@);
                    assert(ilis@.len() == before.len() || (ilis@.len() == before.len() + 1 && pos == before.len()));
                    assert(keys_unique(ilis@)) by {
                        assert forall|a: int, b: int| 0 <= a < ilis@.len() && 0 <= b < ilis@.len() && a != b implies #[trigger] ilis@[a].0@ != #[trigger] ilis@[b].0@ by {
                            if a != pos {
                                assert(ilis@[a] == before[a]);
                            }
                            if b != pos {
                                assert(ilis@[b] == before[b]);
                            }
                            if a != pos && b != pos {
                            } else if a == pos {
                                if b < before.len() && pos < before.len() {
                                    assert(before[b].0@ != before[pos].0@);
                                }
                            } else {
                                if a < before.len() && pos < before.len() {
                                    assert(before[a].0@ != before[pos].0@);
                                }
                            }
                        }
                    }
                    assert forall|k: Seq<char>| #[trigger] lookup_last(ilis@, k) == ili_target(g@, k, i + 1) by {
                        lemma_lookup_last_unique(before, k);
                        lemma_lookup_last_unique(ilis@, k);
                        if k != x@ {
                            if exists|q: int| 0 <= q < before.len() && before[q].0@ == k {
                                let q = choose|q: int| 0 <= q < before.len() && before[q].0@ == k;
                                assert(ilis@[q] == before[q]);
                                assert(lookup_last(ilis@, k) == Some(ilis@[q].1));
                                assert(lookup_last(before, k) == Some(before[q].1));
                            } else {
                                assert forall|q: int| 0 <= q < ilis@.len() implies #[trigger] ilis@[q].0@ != k by {
                                    if q != pos {
                                        assert(ilis@[q] == before[q]);
                                    }
                                }
                            }
                        } else {
                            assert(lookup_last(ilis@, k) == Some(ilis@[pos].1));
                        }
                    }
                },
                None => {},
            }
            ids.push(s.id.clone());
            assert(ids@ =~= ids_of(g@.take(i + 1)));
            assert forall|h: Seq<char>| #[trigger] group_of(entries@, h) == headword_ids(g@, h, i + 1) by {
                assert(headword_ids(g@, h, i + 1) == headword_ids(g@, h, i as int) + headword_hits(g@[i as int].members@, h, g@[i as int].id));
            }
            i = i + 1;
        }
        assert(g@.take(i as int) =~= g@);
        Lexicon {
            entries,
            synsets_by_ili: ilis,
            synset_ids: ids,
            entry_keys,
            entry_index,
            ili_keys,
            ili_index,
        }
    }

    /// The sense sets whose member list holds `lemma` (exact match), in the
    /// order the index lists them; none for an unknown headword.
    pub fn entry_by_lemma(&self, lemma: &str) -> (r: Vec<SynsetId>)
        requires
            self.wf(),
        ensures
            r@ == group_of(self.entries_spec(), lemma@),
    {
        let key = lemma.to_owned();
        match find_key(&self.entries, &self.entry_keys, &self.entry_index, &key) {
            Some(p) => clone_ids(&self.entries[p].1),
            None => Vec::new(),
        }
    }

    /// The sense set that external id `ili` names, if any.
    pub fn synset_id_by_ili(&self, ili: &str) -> (r: Option<SynsetId>)
        requires
            self.wf(),
        ensures
            r == lookup_last(self.ili_spec(), ili@),
    {
        let key = ili.to_owned();
        match find_key(&self.synsets_by_ili, &self.ili_keys, &self.ili_index, &key) {
            Some(p) => Some(self.synsets_by_ili[p].1.clone()),
            None => None,
        }
    }

    /// The sense sets that a request for `id` in index `index` asks for: the
    /// set named `id` (index `id`), the sets of headword `id` (index
    /// `lemma`), the set of external id `id` if any (index `ili`); any other
    /// index is refused.
    pub fn resolve_query(&self, index: &str, id: &str) -> (r: Result<Vec<SynsetId>, String>)
        requires
            self.wf(),
        ensures
            index@ == "id"@ ==> r is Ok && r->Ok_0@.len() == 1 && r->Ok_0@[0]@ == id@,
            index@ == "lemma"@ ==> r is Ok && r->Ok_0@ == group_of(self.entries_spec(), id@),
            index@ == "ili"@ ==> r is Ok && r->Ok_0@ == match lookup_last(self.ili_spec(), id@) {
                Some(x) => seq![x],
                None => Seq::empty(),
            },
            index@ != "id"@ && index@ != "lemma"@ && index@ != "ili"@ ==> r is Err && r->Err_0@ == "Invalid index"@,
    {
        proof {
            reveal_strlit("id");
            reveal_strlit("lemma");
            reveal_strlit("ili");
            assert("id"@.len() == 2 && "lemma"@.len() == 5 && "ili"@.len() == 3);
            assert("id"@[1] == 'd' && "ili"@[1] == 'l');
        }
        let which = index.to_owned();
        if which == "id".to_owned() {
            let mut v: Vec<SynsetId> = Vec::new();
            v.push(SynsetId::new(id));
            Ok(v)
        } else if which == "lemma".to_owned() {
            Ok(self.entry_by_lemma(id))
        } else if which == "ili".to_owned() {
            let mut v: Vec<SynsetId> = Vec::new();
            match self.synset_id_by_ili(id) {
                Some(x) => {
                    v.push(x);
                    assert(v@ =~= seq![x]);
                },
                None => {},
            }
            Ok(v)
        } else {
            Err("Invalid index".to_owned())
        }
    }

    /// The headwords that start with `prefix`, ignoring case, in index order.
    pub fn lemma_by_prefix(&self, prefix: &str) -> (r: Vec<String>)
        requires
            self.wf(),
        ensures
            views(r@) == keys_where(self.entries_spec(), lower_prefix(prefix@)),
            views(r@).no_duplicates(),
    {
        proof {
            lemma_keys_where_distinct(self.entries@, lower_prefix(prefix@));
        }
        let p = lowercase(prefix);
        let mut lowered: Vec<String> = Vec::new();
        let mut i: usize = 0;
        while i < self.entries.len()
            invariant
                i <= self.entries@.len(),
                lowered@.len() == i,
                forall|x: int| 0 <= x < i ==> (#[trigger] lowered@[x])@ == lower_of(self.entries@[x].0@),
            decreases self.entries@.len() - i,
        {
            lowered.push(lowercase(self.entries[i].0.as_str()));
            i = i + 1;
        }
        let r = self.lemma_by_lowered_prefix(&lowered, p.as_str());
        proof {
            lemma_lowered_matches(self.entries@, lowered@, prefix@);
        }
        r
    }

    /// The headwords whose lowercase forms, `lowered` (one per headword, in
    /// index order), start with the lowercase prefix `lowered_prefix`.
    pub fn lemma_by_lowered_prefix(&self, lowered: &Vec<String>, lowered_prefix: &str) -> (r: Vec<String>)
        requires
            lowered@.len() == self.entries_spec().len(),
        ensures
            views(r@) == lowered_matches(self.entries_spec(), lowered@, lowered_prefix@),
    {
        let mut r: Vec<String> = Vec::new();
        let mut i: usize = 0;
        while i < self.entries.len()
            invariant
                i <= self.entries@.len(),
                lowered@.len() == self.entries@.len(),
                views(r@) == lowered_matches(self.entries@.take(i as int), lowered@.take(i as int), lowered_prefix@),
            decreases self.entries@.len() - i,
        {
            let k = &self.entries[i].0;
            assert(self.entries@.take(i + 1).drop_last() =~= self.entries@.take(i as int));
            assert(self.entries@.take(i + 1).last() == self.entries@[i as int]);
            assert(lowered@.take(i + 1).drop_last() =~= lowered@.take(i as int));
            assert(lowered@.take(i + 1).last() == lowered@[i as int]);
            if starts_with(lowered[i].as_str(), lowered_prefix) {
                r.push(k.clone());
            }
            assert(views(r@) =~= lowered_matches(self.entries@.take(i + 1), lowered@.take(i + 1), lowered_prefix@));
            i = i + 1;
        }
        assert(self.entries@.take(i as int) =~= self.entries@);
        assert(lowered@.take(i as int) =~= lowered@);
        r
    }

    /// The sense set identifiers that start with `prefix`, in index order.
    pub fn ssid_by_prefix(&self, prefix: &str) -> (r: Vec<String>)
        ensures
            views(r@) == ids_with_prefix(self.ids_spec(), prefix@),
    {
        let mut r: Vec<String> = Vec::new();
        let mut i: usize = 0;
        while i < self.synset_ids.len()
            invariant
                i <= self.synset_ids@.len(),
                views(r@) == ids_with_prefix(self.synset_ids@.take(i as int), prefix@),
            decreases self.synset_ids@.len() - i,
        {
            let id = &self.synset_ids[i];
            assert(self.synset_ids@.take(i + 1).drop_last() =~= self.synset_ids@.take(i as int));
            assert(self.synset_ids@.take(i + 1).last() == self.synset_ids@[i as int]);
            if starts_with(id.0.as_str(), prefix) {
                r.push(id.to_string());
            }
            assert(views(r@) =~= ids_with_prefix(self.synset_ids@.take(i + 1), prefix@));
            i = i + 1;
        }
        assert(self.synset_ids@.take(i as int) =~= self.synset_ids@);
        r
    }

    /// The external ids that start with `prefix`, in index order.
    pub fn ili_by_prefix(&self, prefix: &str) -> (r: Vec<String>)
        requires
            self.wf(),
        ensures
            views(r@) == keys_where(self.ili_spec(), plain_prefix(prefix@)),
            views(r@).no_duplicates(),
    {
        proof {
            lemma_keys_where_distinct(self.synsets_by_ili@, plain_prefix(prefix@));
        }
        let mut r: Vec<String> = Vec::new();
        let mut i: usize = 0;
        while i < self.synsets_by_ili.len()
            invariant
                i <= self.synsets_by_ili@.len(),
                views(r@) == keys_where(self.synsets_by_ili@.take(i as int), plain_prefix(prefix@)),
            decreases self.synsets_by_ili@.len() - i,
        {
            let k = &self.synsets_by_ili[i].0;
            assert(self.synsets_by_ili@.take(i + 1).drop_last() =~= self.synsets_by_ili@.take(i as int));
            assert(self.synsets_by_ili@.take(i + 1).last() == self.synsets_by_ili@[i as int]);
            if starts_with(k.as_str(), prefix) {
                r.push(k.clone());
            }
            assert(views(r@) =~= keys_where(self.synsets_by_ili@.take(i + 1), plain_prefix(prefix@)));
            i = i + 1;
        }
        assert(self.synsets_by_ili@.take(i as int) =~= self.synsets_by_ili@);
        r
    }
}

} // verus!
