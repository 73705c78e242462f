//! What a recommendation asks for and returns.

use vstd::prelude::*;

use crate::collection::points;
use crate::collection::query;
use crate::collection::Collection;
use crate::collection::ScoredGlobal;
use crate::distance::Kernel;
use crate::id::GlobalId;
use crate::payload::Filter;
use crate::segment::id_map;
use crate::segment::search;
use crate::segment::SealedSegment;
use std::sync::Arc;

verus! {

/// The stored vectors of the points that resolve, in the order of their ids.
pub open spec fn resolved_vectors<K: Kernel>(collection: Collection<K>, ids: Seq<GlobalId>) -> Seq<
    Seq<K::Elem>,
> {
    ids.filter(|g: GlobalId| collection.vector_of(g.0) is Some).map_values(
        |g: GlobalId| collection.vector_of(g.0)->0,
    )
}

/// The examples are the stored vectors of all ids that resolve, and of no others.
pub proof fn law_examples_are_what_resolves<K: Kernel>(
    collection: Collection<K>,
    ids: Seq<GlobalId>,
)
    ensures
        collection.examples(ids) == resolved_vectors(collection, ids),
    decreases ids.len(),
{
    reveal(Seq::filter);
    if ids.len() == 0 {
        assert(collection.examples(ids) =~= resolved_vectors(collection, ids));
    } else {
        law_examples_are_what_resolves(collection, ids.drop_last());
        assert(collection.examples(ids) =~= resolved_vectors(collection, ids));
    }
}

/// The query of a recommendation is the blend of all resolvable positive examples with all
/// resolvable negative examples, whichever are present; for cosine, normalized.
pub proof fn law_recommendation_blends_all_examples<K: Kernel>(
    collection: Collection<K>,
    positive: Seq<GlobalId>,
    negative: Seq<GlobalId>,
)
    ensures
        ({
            let blended = collection.kernel.spec_blend(
                resolved_vectors(collection, positive),
                resolved_vectors(collection, negative),
            );
            collection.example_query(positive, negative) == if collection.config.metric is Cosine {
                collection.kernel.spec_normalized(blended)
            } else {
                blended
            }
        }),
{
    law_examples_are_what_resolves(collection, positive);
    law_examples_are_what_resolves(collection, negative);
}

/// A point resolves exactly if a row is stored under it, tombstoned or not; its vector is
/// the last row under it in the appendable segment if that has one, else the last row under
/// it of the first working segment that has one.
pub proof fn law_vector_is_the_stored_row<K: Kernel>(collection: Collection<K>, id: u64)
    requires
        collection.wf(),
    ensures
        ({
            let recent = collection.appendable.global_ids();
            let sealed = collection.working.sealed@;
            &&& collection.vector_of(id) is Some <==> recent.contains(GlobalId(id)) || exists|i: int|
                0 <= i < sealed.len() && (#[trigger] sealed[i]).global_ids().contains(GlobalId(id))
            &&& forall|l: int|
                0 <= l < recent.len() && recent[l] == GlobalId(id) && (forall|m: int|
                    l < m < recent.len() ==> (#[trigger] recent[m]) != GlobalId(id))
                    ==> collection.vector_of(id) == Some(
                    #[trigger] collection.appendable.rows()[l],
                )
            &&& forall|s: int, l: int|
                0 <= s < sealed.len() && !recent.contains(GlobalId(id)) && 0 <= l
                    < sealed[s].global_ids().len() && sealed[s].global_ids()[l] == GlobalId(id) && (
                forall|m: int|
                    l < m < sealed[s].global_ids().len() ==> (
                    #[trigger] sealed[s].global_ids()[m]) != GlobalId(id)) && (forall|t: int|
                    0 <= t < s ==> !(#[trigger] sealed[t]).global_ids().contains(GlobalId(id)))
                    ==> collection.vector_of(id) == Some(#[trigger] sealed[s].rows()[l])
        }),
{
    let recent = collection.appendable.global_ids();
    let sealed = collection.working.sealed@;
    id_map::lemma_last_position(recent, id);
    lemma_first_vector(sealed, id);
    assert forall|l: int|
        0 <= l < recent.len() && recent[l] == GlobalId(id) && (forall|m: int|
            l < m < recent.len() ==> (#[trigger] recent[m]) != GlobalId(
                id,
            )) implies collection.vector_of(id) == Some(
        #[trigger] collection.appendable.rows()[l],
    ) by {
        assert(recent.contains(recent[l]));
        let p = id_map::last_position(recent, id)->0;
        if p < l {
            assert(recent[l] != GlobalId(id));
        }
        if l < p {
            assert(recent[p] != GlobalId(id));
        }
    }
    assert forall|s: int, l: int|
        0 <= s < sealed.len() && !recent.contains(GlobalId(id)) && 0 <= l
            < sealed[s].global_ids().len() && sealed[s].global_ids()[l] == GlobalId(id) && (forall|
            m: int,
        |
            l < m < sealed[s].global_ids().len() ==> (#[trigger] sealed[s].global_ids()[m])
                != GlobalId(id)) && (forall|t: int|
            0 <= t < s ==> !(#[trigger] sealed[t]).global_ids().contains(
                GlobalId(id),
            )) implies collection.vector_of(id) == Some(#[trigger] sealed[s].rows()[l]) by {
        let ids = sealed[s].global_ids();
        id_map::lemma_last_position(ids, id);
        assert(ids.contains(ids[l]));
        let p = id_map::last_position(ids, id)->0;
        if p < l {
            assert(ids[l] != GlobalId(id));
        }
        if l < p {
            assert(ids[p] != GlobalId(id));
        }
        lemma_first_vector_at(sealed, id, s);
    }
}

/// A segment list has a vector for an id exactly if one of them stores it.
proof fn lemma_first_vector<K: Kernel>(segments: Seq<Arc<SealedSegment<K>>>, id: u64)
    ensures
        points::first_vector(segments, id) is Some <==> exists|i: int|
            0 <= i < segments.len() && (#[trigger] segments[i]).global_ids().contains(GlobalId(id)),
    decreases segments.len(),
{
    if segments.len() > 0 {
        let shorter = segments.drop_last();
        let last = segments.last();
        lemma_first_vector(shorter, id);
        id_map::lemma_last_position(last.global_ids(), id);
        assert(last == segments[segments.len() - 1]);
        if exists|i: int|
            0 <= i < shorter.len() && (#[trigger] shorter[i]).global_ids().contains(GlobalId(id)) {
            let i = choose|i: int|
                0 <= i < shorter.len() && (#[trigger] shorter[i]).global_ids().contains(
                    GlobalId(id),
                );
            assert(segments[i].global_ids().contains(GlobalId(id)));
        }
        if exists|i: int|
            0 <= i < segments.len() && (#[trigger] segments[i]).global_ids().contains(
                GlobalId(id),
            ) {
            let i = choose|i: int|
                0 <= i < segments.len() && (#[trigger] segments[i]).global_ids().contains(
                    GlobalId(id),
                );
            if i < shorter.len() {
                assert(shorter[i].global_ids().contains(GlobalId(id)));
            }
        }
    }
}

/// The first segment that stores an id gives its vector.
proof fn lemma_first_vector_at<K: Kernel>(segments: Seq<Arc<SealedSegment<K>>>, id: u64, s: int)
    requires
        0 <= s < segments.len(),
        segments[s].global_ids().contains(GlobalId(id)),
        forall|t: int|
            0 <= t < s ==> !(#[trigger] segments[t]).global_ids().contains(GlobalId(id)),
    ensures
        points::first_vector(segments, id) == search::vector_at(
            segments[s].global_ids(),
            segments[s].rows(),
            id,
        ),
        points::first_vector(segments, id) is Some,
    decreases segments.len(),
{
    let shorter = segments.drop_last();
    id_map::lemma_last_position(segments[s].global_ids(), id);
    if s < shorter.len() {
        assert(shorter[s] == segments[s]);
        assert forall|t: int| 0 <= t < s implies !(
        #[trigger] shorter[t]).global_ids().contains(GlobalId(id)) by {
            assert(shorter[t] == segments[t]);
        }
        lemma_first_vector_at(shorter, id, s);
    } else {
        lemma_first_vector(shorter, id);
        if exists|i: int|
            0 <= i < shorter.len() && (#[trigger] shorter[i]).global_ids().contains(GlobalId(id)) {
            let i = choose|i: int|
                0 <= i < shorter.len() && (#[trigger] shorter[i]).global_ids().contains(
                    GlobalId(id),
                );
            assert(segments[i].global_ids().contains(GlobalId(id)));
        }
    }
}

/// The positive examples are counted each once.
proof fn lemma_distinct_positives(positive: Seq<GlobalId>)
    ensures
        query::id_set(positive).len() == positive.to_set().len(),
        forall|g: GlobalId| #[trigger]
            positive.contains(g) <==> query::id_set(positive).contains(g.0),
{
    let raw = Seq::new(positive.len(), |i: int| positive[i].0);
    let number = |g: GlobalId| g.0;
    positive.lemma_cardinality_of_set();
    assert forall|g: GlobalId| #[trigger] positive.contains(g) <==> query::id_set(
        positive,
    ).contains(g.0) by {
        if positive.contains(g) {
            assert(raw[positive.index_of(g)] == g.0);
        }
        if raw.contains(g.0) {
            let i = raw.index_of(g.0);
            assert(positive[i] == g);
        }
    }
    assert(positive.to_set().map(number) =~= query::id_set(positive)) by {
        assert forall|x: u64| query::id_set(positive).contains(x) implies positive.to_set().map(
            number,
        ).contains(x) by {
            let i = raw.index_of(x);
            assert(positive.to_set().contains(positive[i]) && number(positive[i]) == x);
        }
    }
    assert(vstd::relations::injective_on(number, positive.to_set()));
    vstd::set_lib::lemma_map_size(positive.to_set(), query::id_set(positive), number);
}

proof fn lemma_without(results: Seq<ScoredGlobal>, excluded: Set<u64>)
    ensures
        query::without(results, excluded) == results.filter(
            |r: ScoredGlobal| !excluded.contains(r.id.0),
        ),
    decreases results.len(),
{
    reveal(Seq::filter);
    if results.len() > 0 {
        lemma_without(results.drop_last(), excluded);
    }
}

/// A recommendation returns the first `k` results of a search for its query, over-fetched by
/// the number of different positive examples, that are none of the positive examples.
pub proof fn law_recommendation_is_the_best_of_the_others<K: Kernel>(
    collection: Collection<K>,
    positive: Seq<GlobalId>,
    negative: Seq<GlobalId>,
    k: nat,
    filter: Option<&Filter>,
)
    ensures
        ({
            let fetched = collection.found(
                collection.example_query(positive, negative),
                k + positive.to_set().len(),
                filter,
            );
            let others = fetched.filter(|r: ScoredGlobal| !positive.contains(r.id));
            collection.recommended(positive, negative, k, filter) == if others.len() <= k {
                others
            } else {
                others.take(k as int)
            }
        }),
{
    lemma_distinct_positives(positive);
    let excluded = query::id_set(positive);
    let fetched = collection.found(
        collection.example_query(positive, negative),
        k + excluded.len(),
        filter,
    );
    lemma_without(fetched, excluded);
    let a = |r: ScoredGlobal| !excluded.contains(r.id.0);
    let b = |r: ScoredGlobal| !positive.contains(r.id);
    assert forall|r: ScoredGlobal| #[trigger] a(r) == b(r) by {
        assert(positive.contains(r.id) <==> excluded.contains(r.id.0));
    }
    assert(a =~= b);
}

} // verus!
